use jqtpl_language_server::{parser, Spanned, Stmt};

#[test]
fn empty_string() {
    let result = parser().parse("");
    assert_eq!(result, vec![]);
}

#[test]
fn if_() {
    let result = parser().parse("{{if }}");
    assert_eq!(result, vec![Spanned(Stmt::If, 0..7)]);
}

#[test]
fn else_() {
    let result = parser().parse("{{else}}");
    assert_eq!(result, vec![Spanned(Stmt::Else, 0..8)]);
}

#[test]
fn if_else() {
    let src = "{{if bla}}
          hello
        {{else}}
          goodbye
        {{/if}}";
    let result = parser().parse(src);
    assert_eq!(
        result,
        vec![
            Spanned(Stmt::If, 0..10),
            Spanned(Stmt::Content, 10..35),
            Spanned(Stmt::Else, 35..43),
            Spanned(Stmt::Content, 43..70),
            Spanned(Stmt::IfEnd, 70..77),
        ]
    );
}

#[test]
fn trailing_content() {
    let src = r###"{{if 1 = 1}}
    "###;

    let result = parser().parse(src);

    assert_eq!(result, vec![Spanned(Stmt::If, 0..12), Spanned(Stmt::Content, 12..17)]);
}
