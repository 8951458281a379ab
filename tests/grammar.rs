use jqtpl_language_server::{parse, recognize, Spanned, Stmt};

fn unknown(s: &str) -> Stmt {
    Stmt::Unknown(s.to_string())
}

fn assert_covers(src: &str) {
    let result = parse(src);
    let mut pos = 0;
    let mut rebuilt = String::new();
    for Spanned(_, span) in &result {
        assert_eq!(span.start, pos);
        assert!(span.start < span.end);
        rebuilt.push_str(&src[span.clone()]);
        pos = span.end;
    }
    assert_eq!(pos, src.len());
    assert_eq!(rebuilt, src);
}

#[test]
fn unknown_directive_keeps_its_body() {
    assert_eq!(parse("{{bogus}}"), vec![Spanned(unknown("bogus"), 0..9)]);
}

#[test]
fn lone_close_brace_is_content() {
    let src = "{{if x}}a}b{{/if}}";
    let result = parse(src);
    assert_eq!(
        result,
        vec![
            Spanned(Stmt::If, 0..8),
            Spanned(Stmt::Content, 8..11),
            Spanned(Stmt::IfEnd, 11..18),
        ]
    );
    assert_eq!(&src[8..11], "a}b");
}

#[test]
fn closing_tag_alone_is_accepted() {
    assert_eq!(parse("{{/if}}"), vec![Spanned(Stmt::IfEnd, 0..7)]);
    assert_eq!(parse("{{/each}}"), vec![Spanned(Stmt::EachEnd, 0..9)]);
}

#[test]
fn if_else_end_to_end() {
    let src = "{{if bla}}\n  hello\n{{else}}\n  goodbye\n{{/if}}";
    let result = parse(src);
    assert_eq!(
        result,
        vec![
            Spanned(Stmt::If, 0..10),
            Spanned(Stmt::Content, 10..19),
            Spanned(Stmt::Else, 19..27),
            Spanned(Stmt::Content, 27..38),
            Spanned(Stmt::IfEnd, 38..45),
        ]
    );
    assert_eq!(&src[10..19], "\n  hello\n");
    assert_eq!(&src[27..38], "\n  goodbye\n");
    assert_eq!(result.last().unwrap().1.end, src.len());
}

#[test]
fn every_keyword_with_a_body() {
    let cases = [
        ("!", Stmt::Comment),
        ("each", Stmt::Each),
        ("/each", Stmt::EachEnd),
        ("else", Stmt::Else),
        ("html", Stmt::Html),
        ("if", Stmt::If),
        ("/if", Stmt::IfEnd),
        ("=", Stmt::Print),
        ("tmpl", Stmt::Tmpl),
        ("var", Stmt::Var),
    ];
    for (kw, kind) in cases {
        for body in ["", "x", "a.b(c) == 1", "a}b", "{x"] {
            let src = format!("{{{{{} {}}}}}", kw, body);
            assert_eq!(parse(&src), vec![Spanned(kind.clone(), 0..src.len())], "{}", src);
        }
    }
}

#[test]
fn keyword_needs_a_boundary() {
    assert_eq!(parse("{{ifx y}}"), vec![Spanned(unknown("ifx y"), 0..9)]);
    assert_eq!(parse("{{/ifx}}"), vec![Spanned(unknown("/ifx"), 0..8)]);
    assert_eq!(parse("{{elsewhere}}"), vec![Spanned(unknown("elsewhere"), 0..13)]);
    assert_eq!(parse("{{if(x)}}"), vec![Spanned(Stmt::If, 0..9)]);
    assert_eq!(parse("{{=x}}"), vec![Spanned(Stmt::Print, 0..6)]);
    assert_eq!(parse("{{!}}"), vec![Spanned(Stmt::Comment, 0..5)]);
}

#[test]
fn keyword_needs_an_expression() {
    assert_eq!(parse("{{if}}"), vec![Spanned(unknown("if"), 0..6)]);
    assert_eq!(parse("{{each}}"), vec![Spanned(unknown("each"), 0..8)]);
    assert_eq!(parse("{{=}}"), vec![Spanned(unknown("="), 0..5)]);
    assert_eq!(parse("{{var}}"), vec![Spanned(unknown("var"), 0..7)]);
    assert_eq!(parse("{{else}}"), vec![Spanned(Stmt::Else, 0..8)]);
}

#[test]
fn empty_directive_is_unknown() {
    assert_eq!(parse("{{}}"), vec![Spanned(unknown(""), 0..4)]);
}

#[test]
fn unterminated_directive_is_content() {
    assert_eq!(parse("{{if x"), vec![Spanned(Stmt::Content, 0..6)]);
    assert_eq!(
        parse("a{{b}}c{{d"),
        vec![
            Spanned(Stmt::Content, 0..1),
            Spanned(unknown("b"), 1..6),
            Spanned(Stmt::Content, 6..10),
        ]
    );
    assert_eq!(parse("{{{{a"), vec![Spanned(Stmt::Content, 0..5)]);
}

#[test]
fn lone_open_brace_is_content() {
    assert_eq!(parse("a{b"), vec![Spanned(Stmt::Content, 0..3)]);
    assert_eq!(parse("{"), vec![Spanned(Stmt::Content, 0..1)]);
    assert_eq!(
        parse("x{{=y}}"),
        vec![Spanned(Stmt::Content, 0..1), Spanned(Stmt::Print, 1..7)]
    );
}

#[test]
fn first_double_close_ends_the_directive() {
    assert_eq!(
        parse("{{a}}}"),
        vec![Spanned(unknown("a"), 0..5), Spanned(Stmt::Content, 5..6)]
    );
    assert_eq!(parse("{{a}b}}"), vec![Spanned(unknown("a}b"), 0..7)]);
}

#[test]
fn spans_are_byte_offsets() {
    let src = "é{{if ü}}ß";
    assert_eq!(
        parse(src),
        vec![
            Spanned(Stmt::Content, 0..2),
            Spanned(Stmt::If, 2..11),
            Spanned(Stmt::Content, 11..13),
        ]
    );
    assert_eq!(parse("{{ünknown}}"), vec![Spanned(unknown("ünknown"), 0..12)]);
}

#[test]
fn spans_cover_the_source() {
    for src in [
        "",
        "plain",
        "{{if a}}b{{else}}c{{/if}}",
        "{{{{}}}}",
        "}}{{",
        "{}{}{{}}{",
        "{{a}}}}}{{{b}}",
        "é{{ü}}日本{{= 語}}",
        "{{if x\n}}\n{{/if",
    ] {
        assert_covers(src);
    }
}

#[test]
fn brace_runs_cover_the_source() {
    let mut seed: u32 = 7;
    for _ in 0..500 {
        let mut src = String::new();
        for _ in 0..12 {
            seed = seed.wrapping_mul(1103515245).wrapping_add(12345);
            src.push(match (seed >> 16) % 5 {
                0 | 1 => '{',
                2 | 3 => '}',
                _ => 'x',
            });
        }
        assert_covers(&src);
    }
}

#[test]
fn recognize_classifies_bodies() {
    assert_eq!(recognize("if a"), Stmt::If);
    assert_eq!(recognize("each(i, x) xs"), Stmt::Each);
    assert_eq!(recognize("html s"), Stmt::Html);
    assert_eq!(recognize("tmpl t"), Stmt::Tmpl);
    assert_eq!(recognize("var a = 1"), Stmt::Var);
    assert_eq!(recognize("! note"), Stmt::Comment);
    assert_eq!(recognize("/each"), Stmt::EachEnd);
    assert_eq!(recognize("whatever"), unknown("whatever"));
    assert_eq!(recognize(""), unknown(""));
}
