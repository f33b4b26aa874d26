use bbcode::{parse, Block, Element, ErrorKind, ParseError};

fn err(input: &str) -> ParseError {
    parse(input).unwrap_err()
}

#[test]
fn text_then_block_with_quoted_value() {
    let (rest, v) = parse(r#"ssf[xx="123"]aaa[/xx]"#).unwrap();
    assert_eq!(rest, "");
    assert_eq!(
        v,
        vec![
            Element::Text("ssf"),
            Element::Block(Block {
                inner: vec![Element::Text("aaa")],
                tag: "xx",
                value: Some("123")
            })
        ]
    );
}

#[test]
fn empty_input_gives_no_elements() {
    assert_eq!(parse("").unwrap().1, vec![]);
}

#[test]
fn empty_block_has_no_children() {
    assert_eq!(
        parse("[foo][/foo]").unwrap().1,
        vec![Element::Block(Block { inner: vec![], tag: "foo", value: None })]
    );
}

#[test]
fn three_nested_blocks() {
    assert_eq!(
        parse("[a][b][c][/c][/b][/a]").unwrap().1,
        vec![Element::Block(Block {
            inner: vec![Element::Block(Block {
                inner: vec![Element::Block(Block { inner: vec![], tag: "c", value: None })],
                tag: "b",
                value: None
            })],
            tag: "a",
            value: None
        })]
    );
}

#[test]
fn multiline_text_is_one_span() {
    assert_eq!(
        parse("line one\nline two\r\n\tthree").unwrap().1,
        vec![Element::Text("line one\nline two\r\n\tthree")]
    );
}

#[test]
fn non_ascii_text_and_values() {
    assert_eq!(
        parse("气[f=死]你[/f]").unwrap().1,
        vec![
            Element::Text("气"),
            Element::Block(Block { inner: vec![Element::Text("你")], tag: "f", value: Some("死") })
        ]
    );
}

#[test]
fn quoted_value_keeps_escapes_and_spaces() {
    assert_eq!(
        parse(r#"[k = " a \" b "][/k]"#).unwrap().1,
        vec![Element::Block(Block { inner: vec![], tag: "k", value: Some(r#" a \" b "#) })]
    );
}

#[test]
fn mismatched_names_fail() {
    assert_eq!(err("[foo]text[/bar]"), ParseError { kind: ErrorKind::NoElement, offset: 0 });
    assert_eq!(err("ab[foo][/fo]"), ParseError { kind: ErrorKind::NoElement, offset: 2 });
}

#[test]
fn unterminated_quote_fails_fatally() {
    assert_eq!(err(r#"[xx="123]"#), ParseError { kind: ErrorKind::QuotedValue, offset: 4 });
}

#[test]
fn empty_quoted_value_fails() {
    assert_eq!(err(r#"[xx=""][/xx]"#), ParseError { kind: ErrorKind::QuotedValue, offset: 4 });
}

#[test]
fn head_without_closing_bracket_fails() {
    assert_eq!(err("x[foo bar]y[/foo]"), ParseError { kind: ErrorKind::TagHead, offset: 1 });
    assert_eq!(err("[]"), ParseError { kind: ErrorKind::TagHead, offset: 0 });
    assert_eq!(err("[foo="), ParseError { kind: ErrorKind::TagHead, offset: 0 });
}

#[test]
fn malformed_closing_tag_fails() {
    assert_eq!(err("[a]x[/]"), ParseError { kind: ErrorKind::TagEnd, offset: 4 });
    assert_eq!(err("[a]x[/a"), ParseError { kind: ErrorKind::TagEnd, offset: 4 });
}

#[test]
fn unclosed_block_fails() {
    assert_eq!(err("[a]text"), ParseError { kind: ErrorKind::NoElement, offset: 0 });
}

#[test]
fn stray_characters_fail() {
    assert_eq!(err("a]b"), ParseError { kind: ErrorKind::NoElement, offset: 1 });
    assert_eq!(err("[/a]"), ParseError { kind: ErrorKind::NoElement, offset: 0 });
    assert_eq!(err(r"a\qb"), ParseError { kind: ErrorKind::NoElement, offset: 0 });
    assert_eq!(err("a\\"), ParseError { kind: ErrorKind::NoElement, offset: 0 });
}

#[test]
fn offsets_count_characters() {
    assert_eq!(err("气气]"), ParseError { kind: ErrorKind::NoElement, offset: 2 });
}

#[test]
fn whitespace_in_closing_tag_is_tolerated() {
    assert_eq!(
        parse("[ foo ]x[/ foo ]").unwrap().1,
        vec![Element::Block(Block { inner: vec![Element::Text("x")], tag: "foo", value: None })]
    );
}

fn render(elements: &[Element]) -> String {
    let mut out = String::new();
    for e in elements {
        match e {
            Element::Text(t) => out.push_str(t),
            Element::Block(b) => {
                out.push('[');
                out.push_str(b.tag);
                if let Some(v) = b.value {
                    out.push('=');
                    let bare = v.chars().all(|c| !" \t\n\r\"\\[]/=".contains(c));
                    if bare {
                        out.push_str(v);
                    } else {
                        out.push('"');
                        out.push_str(v);
                        out.push('"');
                    }
                }
                out.push(']');
                out.push_str(&render(&b.inner));
                out.push_str("[/");
                out.push_str(b.tag);
                out.push(']');
            }
            Element::EOF => {}
        }
    }
    out
}

fn has_eof(elements: &[Element]) -> bool {
    elements.iter().any(|e| match e {
        Element::EOF => true,
        Element::Block(b) => has_eof(&b.inner),
        Element::Text(_) => false,
    })
}

#[test]
fn canonical_input_round_trips() {
    let inputs = [
        r"a\n[foo=bar]q[xx=123][/xx]x[/foo][yy][/yy]",
        r#"t [k="a b"]\[x\][/k] u"#,
        "[a][b][c][/c][/b][/a]",
        "",
    ];
    for input in inputs {
        let (_, tree) = parse(input).unwrap();
        assert_eq!(render(&tree), input);
    }
}

#[test]
fn parsed_documents_hold_no_end_marker() {
    for input in ["", "x", "[a][/a]", "[a]x[b=1][/b][/a]y"] {
        assert!(!has_eof(&parse(input).unwrap().1));
    }
}

#[test]
fn quoted_closing_name_after_whitespace() {
    assert_eq!(
        parse(r#"[foo][/ "foo"]"#).unwrap().1,
        vec![Element::Block(Block { inner: vec![], tag: "foo", value: None })]
    );
    assert_eq!(
        parse("[foo]x[/\t\"foo\" ]").unwrap().1,
        vec![Element::Block(Block { inner: vec![Element::Text("x")], tag: "foo", value: None })]
    );
}

#[test]
fn quoted_closing_name_must_match() {
    assert_eq!(err(r#"[foo][/ "bar"]"#), ParseError { kind: ErrorKind::NoElement, offset: 0 });
}

#[test]
fn mismatch_fails_whatever_follows() {
    assert_eq!(err("[a]x[/b]tail"), ParseError { kind: ErrorKind::NoElement, offset: 0 });
    assert_eq!(err("[a]x[/b][a][/a]"), ParseError { kind: ErrorKind::NoElement, offset: 0 });
}

#[test]
fn cloned_tree_equals_original() {
    let (_, tree) = parse("t[a=1]x[b][/b][/a]").unwrap();
    let copy: Vec<Element> = tree.iter().map(|e| e.clone()).collect();
    assert_eq!(copy, tree);
    if let Element::Block(b) = &tree[1] {
        assert_eq!(b.clone(), *b);
    } else {
        panic!("expected a block");
    }
}

#[test]
fn written_out_tree_parses_back() {
    for input in [
        r#"[ foo = "bar " ]text[/ foo  ]"#,
        r#"x[a="b"]\=[ c ][/ "c"][/a]"#,
        "[f=1]\n line \n[/f]",
    ] {
        let (_, tree) = parse(input).unwrap();
        let text = render(&tree);
        assert_eq!(parse(&text).unwrap().1, tree);
    }
}
