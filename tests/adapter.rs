use jqtpl_language_server::adapter::{error_spans, snippet_edit_range};
use jqtpl_language_server::parse;

fn chars(s: &str) -> Vec<char> {
    s.chars().collect()
}

#[test]
fn edit_range_takes_in_typed_braces() {
    assert_eq!(snippet_edit_range(&chars("a{{}}b"), 3), (1, 5));
    assert_eq!(snippet_edit_range(&chars("a{b"), 2), (1, 2));
    assert_eq!(snippet_edit_range(&chars("abc"), 1), (1, 1));
    assert_eq!(snippet_edit_range(&chars("{"), 1), (0, 1));
    assert_eq!(snippet_edit_range(&chars("}"), 0), (0, 1));
    assert_eq!(snippet_edit_range(&chars(""), 0), (0, 0));
    assert_eq!(snippet_edit_range(&chars("{x}"), 2), (2, 3));
    assert_eq!(snippet_edit_range(&chars("{{{"), 3), (1, 3));
    assert_eq!(snippet_edit_range(&chars("}}}"), 0), (0, 2));
}

#[test]
fn edit_range_keeps_other_characters() {
    assert_eq!(snippet_edit_range(&chars("{x"), 2), (2, 2));
    assert_eq!(snippet_edit_range(&chars("x}"), 0), (0, 0));
    assert_eq!(snippet_edit_range(&chars("{x}y}"), 2), (2, 3));
}

#[test]
fn errors_are_the_unknown_statements() {
    let stmts = parse("{{if a}}{{oops}}x{{/if}}{{bad}}");
    assert_eq!(error_spans(&stmts), vec![8..16, 24..31]);
    assert_eq!(error_spans(&parse("{{if a}}{{/if}}")), vec![]);
}
