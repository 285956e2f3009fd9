use json5_nodes::{parse, JsonNode, Location};

fn text(node: &JsonNode) -> String {
    json5_nodes::stringify(node)
}

#[test]
fn literals_are_rendered() {
    assert_eq!(text(&JsonNode::Null(None)), "null");
    assert_eq!(text(&JsonNode::Bool(true, None)), "true");
    assert_eq!(text(&JsonNode::Bool(false, None)), "false");
    assert_eq!(text(&JsonNode::Null(Some(Location { line: 4, column: 2 }))), "null");
}

#[test]
fn integers_are_rendered_in_decimal() {
    for i in [0, 1, -1, 9, 10, -10, 11, 99, 100, 12345, -98765, i64::MAX, i64::MIN, i64::MIN + 1] {
        assert_eq!(text(&JsonNode::Integer(i, None)), format!("{}", i));
    }
    assert_eq!(text(&JsonNode::Integer(-9223372036854775808, None)), "-9223372036854775808");
    assert_eq!(text(&JsonNode::Integer(1000, None)), "1000");
}

#[test]
fn floats_are_rendered_as_their_text() {
    assert_eq!(text(&JsonNode::Float("1.5".to_string(), None)), "1.5");
    assert_eq!(text(&JsonNode::Float(format!("{}", 0.1_f64 + 0.2_f64), None)), "0.30000000000000004");
    assert_eq!(text(&JsonNode::Float(format!("{}", 1.0_f64), None)), "1");
    assert_eq!(text(&JsonNode::Float(format!("{}", f64::INFINITY), None)), "inf");
    assert_eq!(text(&JsonNode::Float("-Infinity".to_string(), None)), "-Infinity");
}

#[test]
fn strings_are_quoted_and_not_escaped() {
    assert_eq!(text(&JsonNode::String("xyz".to_string(), None)), "\"xyz\"");
    assert_eq!(text(&JsonNode::String(String::new(), None)), "\"\"");
    assert_eq!(text(&JsonNode::String("a\"b\\c\nd".to_string(), None)), "\"a\"b\\c\nd\"");
    assert_eq!(text(&JsonNode::String("\u{e9}\u{1F600}".to_string(), None)), "\"\u{e9}\u{1F600}\"");
}

#[test]
fn arrays_and_objects_are_rendered_without_spaces() {
    assert_eq!(text(&JsonNode::Array(vec![], None)), "[]");
    assert_eq!(text(&JsonNode::Array(vec![JsonNode::Null(None)], None)), "[null]");
    assert_eq!(
        text(&JsonNode::Array(
            vec![
                JsonNode::Integer(1, None),
                JsonNode::Array(vec![JsonNode::Integer(2, None), JsonNode::Array(vec![], None)], None),
                JsonNode::Object(vec![], None),
            ],
            None
        )),
        "[1,[2,[]],{}]"
    );
    assert_eq!(text(&JsonNode::Object(vec![], None)), "{}");
    assert_eq!(
        text(&JsonNode::Object(
            vec![
                ("b".to_string(), JsonNode::Integer(1, None)),
                ("a".to_string(), JsonNode::Object(vec![("c".to_string(), JsonNode::Null(None))], None)),
            ],
            None
        )),
        "{b:1,a:{c:null}}"
    );
}

#[test]
fn keys_with_white_space_are_quoted() {
    let object = |key: &str| JsonNode::Object(vec![(key.to_string(), JsonNode::Integer(1, None))], None);
    assert_eq!(text(&object("a")), "a:1".replace("a:1", "{a:1}"));
    assert_eq!(text(&object("a b")), "{\"a b\":1}");
    assert_eq!(text(&object(" ")), "{\" \":1}");
    assert_eq!(text(&object("a\tb")), "{\"a\tb\":1}");
    assert_eq!(text(&object("a\nb")), "{\"a\nb\":1}");
    assert_eq!(text(&object("a\u{85}b")), "{\"a\u{85}b\":1}");
    assert_eq!(text(&object("a\u{a0}b")), "{\"a\u{a0}b\":1}");
    assert_eq!(text(&object("a\u{3000}b")), "{\"a\u{3000}b\":1}");
    assert_eq!(text(&object("a\u{2028}b")), "{\"a\u{2028}b\":1}");
    assert_eq!(text(&object("a\u{feff}b")), "{a\u{feff}b:1}");
    assert_eq!(text(&object("a-b")), "{a-b:1}");
    assert_eq!(text(&object("a\"b")), "{a\"b:1}");
    assert_eq!(text(&object("")), "{:1}");
    assert_eq!(text(&object("\u{e9}")), "{\u{e9}:1}");
    for c in (0..=0x10FFFF_u32).filter_map(char::from_u32) {
        let key = format!("k{}", c);
        let expected = if c.is_whitespace() {
            format!("{{\"{}\":1}}", key)
        } else {
            format!("{{{}:1}}", key)
        };
        assert_eq!(text(&object(&key)), expected);
    }
}

#[test]
fn white_space_is_what_the_standard_library_says() {
    for c in (0..=0x10FFFF_u32).filter_map(char::from_u32) {
        let listed = matches!(
            c,
            '\u{9}'..='\u{D}'
                | ' '
                | '\u{85}'
                | '\u{A0}'
                | '\u{1680}'
                | '\u{2000}'..='\u{200A}'
                | '\u{2028}'
                | '\u{2029}'
                | '\u{202F}'
                | '\u{205F}'
                | '\u{3000}'
        );
        assert_eq!(c.is_whitespace(), listed, "{:?}", c);
        let key = format!("k{}", c);
        let object = JsonNode::Object(vec![(key.clone(), JsonNode::Null(None))], None);
        let expected = if listed { format!("{{\"{}\":null}}", key) } else { format!("{{{}:null}}", key) };
        assert_eq!(text(&object), expected);
    }
}

fn sample() -> JsonNode {
    JsonNode::Object(
        vec![
            ("name".to_string(), JsonNode::String("caf\u{e9} \u{1F600} 'x'".to_string(), None)),
            ("$id_1".to_string(), JsonNode::Integer(-42, None)),
            ("two words".to_string(), JsonNode::Bool(false, None)),
            ("\u{65e5}\u{672c}".to_string(), JsonNode::Null(None)),
            ("tab\there".to_string(), JsonNode::Integer(i64::MIN, None)),
            (
                "list".to_string(),
                JsonNode::Array(
                    vec![
                        JsonNode::Float("0.5".to_string(), None),
                        JsonNode::Float("-1.25e-7".to_string(), None),
                        JsonNode::Float("Infinity".to_string(), None),
                        JsonNode::Float("-NaN".to_string(), None),
                        JsonNode::Float(".5E+3".to_string(), None),
                        JsonNode::Array(vec![], None),
                        JsonNode::Object(vec![], None),
                        JsonNode::Integer(0, None),
                        JsonNode::Integer(i64::MAX, None),
                        JsonNode::String(String::new(), None),
                    ],
                    None,
                ),
            ),
            ("null".to_string(), JsonNode::Object(vec![("true".to_string(), JsonNode::Bool(true, None))], None)),
        ],
        None,
    )
}

#[test]
fn canonical_values_are_read_back_from_their_text() {
    let values = vec![
        sample(),
        JsonNode::Null(None),
        JsonNode::Bool(true, None),
        JsonNode::Integer(7, None),
        JsonNode::Float("7.0".to_string(), None),
        JsonNode::String("plain".to_string(), None),
        JsonNode::Array(vec![sample(), sample()], None),
    ];
    for value in values {
        let rendered = text(&value);
        let parsed = parse(&rendered).unwrap();
        assert_eq!(parsed.unlocated(), value, "{}", rendered);
        assert_eq!(text(&parsed), rendered);
    }
}

#[test]
fn values_that_are_not_canonical_are_not_read_back() {
    let whole = JsonNode::Float(format!("{}", 1.0_f64), None);
    assert_eq!(parse(&text(&whole)).unwrap().unlocated(), JsonNode::Integer(1, None));
    let quote = JsonNode::String("a\"b".to_string(), None);
    assert!(parse(&text(&quote)).is_err());
    let backslash = JsonNode::String("a\\nb".to_string(), None);
    assert_eq!(
        parse(&text(&backslash)).unwrap().unlocated(),
        JsonNode::String("a\nb".to_string(), None)
    );
    let key = JsonNode::Object(vec![("a-b".to_string(), JsonNode::Null(None))], None);
    assert!(parse(&text(&key)).is_err());
    let twice = JsonNode::Object(
        vec![
            ("a".to_string(), JsonNode::Integer(1, None)),
            ("a".to_string(), JsonNode::Integer(2, None)),
        ],
        None,
    );
    assert_eq!(
        parse(&text(&twice)).unwrap().unlocated(),
        JsonNode::Object(vec![("a".to_string(), JsonNode::Integer(2, None))], None)
    );
}

#[test]
fn copies_are_equal_and_leave_locations_out_on_request() {
    let parsed = parse("{a: [1, 'x', {b: null}], c: 2.5}").unwrap();
    assert_eq!(parsed.clone(), parsed);
    assert_ne!(parsed.unlocated(), parsed);
    assert_eq!(
        parsed.unlocated(),
        JsonNode::Object(
            vec![
                (
                    "a".to_string(),
                    JsonNode::Array(
                        vec![
                            JsonNode::Integer(1, None),
                            JsonNode::String("x".to_string(), None),
                            JsonNode::Object(vec![("b".to_string(), JsonNode::Null(None))], None),
                        ],
                        None
                    )
                ),
                ("c".to_string(), JsonNode::Float("2.5".to_string(), None)),
            ],
            None
        )
    );
    assert_eq!(parsed.location(), Some(Location { line: 1, column: 1 }));
    assert_eq!(parsed.unlocated().location(), None);
}

#[test]
fn members_are_put_in_place() {
    let mut entries: Vec<(String, JsonNode)> = Vec::new();
    JsonNode::insert(&mut entries, "a".to_string(), JsonNode::Integer(1, None));
    JsonNode::insert(&mut entries, "b".to_string(), JsonNode::Integer(2, None));
    JsonNode::insert(&mut entries, "c".to_string(), JsonNode::Integer(3, None));
    JsonNode::insert(&mut entries, "b".to_string(), JsonNode::Null(None));
    JsonNode::insert(&mut entries, "a".to_string(), JsonNode::Bool(true, None));
    assert_eq!(
        entries,
        vec![
            ("a".to_string(), JsonNode::Bool(true, None)),
            ("b".to_string(), JsonNode::Null(None)),
            ("c".to_string(), JsonNode::Integer(3, None)),
        ]
    );
}
