use bbcode::{parse, Block, Element, ErrorKind, ParseError};

#[test]
fn parse_text() {
    let input = r#"ssf[xx="123"]aaa[/xx]"#;

    match parse(input) {
        Ok(r) => println!("{:#?}", r.1),
        Err(e) => println!("{:?}", e),
    }
}

#[test]
fn test_plain_text() {
    assert_eq!(
        parse(" some text ").unwrap().1,
        vec![Element::Text(" some text ")]
    );
}

#[test]
fn test_plain_text_escaped() {
    assert_eq!(
        parse(r" some \n \[text ").unwrap().1,
        vec![Element::Text(r" some \n \[text ")]
    );
}

#[test]
fn test_single_block_without_value() {
    assert_eq!(
        parse(r"[foo]text[/foo]").unwrap().1,
        vec![Element::Block(Block {
            inner: vec![Element::Text("text")],
            tag: "foo",
            value: None
        })]
    );
}

#[test]
fn test_single_block_with_value() {
    assert_eq!(
        parse(r"[foo=bar]text[/foo]").unwrap().1,
        vec![Element::Block(Block {
            inner: vec![Element::Text("text")],
            tag: "foo",
            value: Some("bar")
        })]
    );
}

#[test]
fn test_single_block_with_value_quoted() {
    assert_eq!(
        parse(r#"[foo="bar "]text[/foo]"#).unwrap().1,
        vec![Element::Block(Block {
            inner: vec![Element::Text("text")],
            tag: "foo",
            value: Some("bar ")
        })]
    );
}

#[test]
fn test_single_block_multiline() {
    assert_eq!(
        parse(
            r"[foo=bar]
text
  
[/foo]"
        )
        .unwrap()
        .1,
        vec![Element::Block(Block {
            inner: vec![Element::Text("\ntext\n  \n")],
            tag: "foo",
            value: Some("bar")
        })]
    );
}

#[test]
fn test_mixed_text_and_block() {
    assert_eq!(
        parse(r" some text [foo=bar]text[/foo]").unwrap().1,
        vec![
            Element::Text(" some text "),
            Element::Block(Block {
                inner: vec![Element::Text("text")],
                tag: "foo",
                value: Some("bar")
            })
        ]
    );
}

#[test]
fn test_nested_blocks() {
    assert_eq!(
        parse(r"[foo=bar][xx=123][/xx][/foo]").unwrap().1,
        vec![Element::Block(Block {
            inner: vec![Element::Block(Block {
                inner: vec![],
                tag: "xx",
                value: Some("123")
            })],
            tag: "foo",
            value: Some("bar")
        })]
    );
}

#[test]
fn test_complex_elements() {
    assert_eq!(
        parse(r"a\n[foo=bar]q[xx=123][/xx]x[/foo][yy][/yy]")
            .unwrap()
            .1,
        vec![
            Element::Text("a\\n"),
            Element::Block(Block {
                inner: vec![
                    Element::Text("q"),
                    Element::Block(Block {
                        inner: vec![],
                        tag: "xx",
                        value: Some("123")
                    }),
                    Element::Text("x")
                ],
                tag: "foo",
                value: Some("bar")
            }),
            Element::Block(Block {
                inner: vec![],
                tag: "yy",
                value: None
            })
        ]
    );
}

#[test]
fn test_tagpair_with_spaces() {
    assert_eq!(
        parse(r#"[ foo = "bar " ]text[/ foo  ]"#).unwrap().1,
        vec![Element::Block(Block {
            inner: vec![Element::Text("text")],
            tag: "foo",
            value: Some("bar ")
        })]
    );
}
