use json5_nodes::{parse, JsonError, JsonNode, Location};

fn at(line: usize, column: usize) -> Option<Location> {
    Some(Location { line, column })
}

#[test]
fn test_null() {
    assert_eq!(
        parse("null").unwrap(),
        JsonNode::Null(Some(Location { column: 1, line: 1 }))
    );
}

#[test]
fn test_bool() {
    assert_eq!(
        parse("true").unwrap(),
        JsonNode::Bool(true, Some(Location { column: 1, line: 1 }))
    );
    assert_eq!(
        parse("false").unwrap(),
        JsonNode::Bool(false, Some(Location { column: 1, line: 1 }))
    );
}

#[test]
fn test_integer() {
    assert_eq!(
        parse("1").unwrap(),
        JsonNode::Integer(1, Some(Location { column: 1, line: 1 }))
    );
}

#[test]
fn test_float() {
    let node = parse("Infinity").unwrap();
    assert_eq!(
        node,
        JsonNode::Float("Infinity".to_string(), Some(Location { column: 1, line: 1 }))
    );
    match node {
        JsonNode::Float(text, _) => assert_eq!(text.parse::<f64>().unwrap(), f64::INFINITY),
        _ => panic!("Unexpected result"),
    }
}

#[test]
fn test_string_escapes() {
    assert_eq!(
        parse("\"\\b\\f\\n\\r\\t\\v\\z\\x0A\\u0041\\0\"").unwrap(),
        JsonNode::String(
            String::from("\u{0008}\u{000C}\n\r\t\u{000B}z\u{000A}A\u{0000}"),
            Some(Location { column: 1, line: 1 })
        )
    );
    assert_eq!(
        parse(r#""\uD83C\uDDEF\uD83C\uDDF5""#).unwrap(),
        JsonNode::String(
            String::from("\u{1F1EF}\u{1F1F5}"),
            Some(Location { column: 1, line: 1 })
        )
    );
}

#[test]
fn test_empty_array() {
    assert_eq!(
        parse("[]").unwrap(),
        JsonNode::Array(vec![], Some(Location { column: 1, line: 1 }))
    );
}

#[test]
fn test_array() {
    let node = parse("[1.0,2.0]").unwrap();
    assert_eq!(
        node,
        JsonNode::Array(
            vec![
                JsonNode::Float("1.0".to_string(), Some(Location { column: 2, line: 1 })),
                JsonNode::Float("2.0".to_string(), Some(Location { column: 6, line: 1 }))
            ],
            Some(Location { column: 1, line: 1 })
        )
    );
    match node {
        JsonNode::Array(items, _) => {
            let numbers: Vec<f64> = items
                .iter()
                .map(|item| match item {
                    JsonNode::Float(text, _) => text.parse::<f64>().unwrap(),
                    _ => panic!("Unexpected result"),
                })
                .collect();
            assert_eq!(numbers, vec![1.0, 2.0]);
        }
        _ => panic!("Unexpected result"),
    }
}

#[test]
fn test_empty_object() {
    assert_eq!(
        parse("{}").unwrap(),
        JsonNode::Object(vec![], Some(Location { column: 1, line: 1 }))
    );
}

#[test]
fn test_object() {
    assert_eq!(
        parse("{a: 1, \"b c\": 2}").unwrap(),
        JsonNode::Object(
            vec![
                (
                    "a".to_string(),
                    JsonNode::Integer(1, Some(Location { column: 5, line: 1 }))
                ),
                (
                    "b c".to_string(),
                    JsonNode::Integer(
                        2,
                        Some(Location {
                            column: 15,
                            line: 1
                        })
                    )
                ),
            ],
            Some(Location { column: 1, line: 1 })
        )
    );
}

#[test]
fn test_bad_object() {
    match parse("{a:") {
        Err(_) => (),
        Ok(_) => panic!("Unexpected result"),
    }
}

#[test]
fn test_error_display() {
    println!("{}", JsonError::Syntax("".to_string(), None).to_string());
    println!("{}", JsonError::NumberFormat(None).to_string());
    println!("{}", JsonError::NumberRange(None).to_string());
    println!("{}", JsonError::Unicode(None).to_string());
}

#[test]
fn test_round_trip() {
    const JSON5_STRING: &str = "{a:1,b:true,c:\"xyz\",d:null,e:[1,2,3],\"a b\":88}";
    let node_tree = parse(JSON5_STRING).unwrap();

    assert_eq!(
        node_tree,
        JsonNode::Object(
            vec![
                (
                    "a".to_string(),
                    JsonNode::Integer(1, Some(Location { line: 1, column: 4 })),
                ),
                (
                    "b".to_string(),
                    JsonNode::Bool(true, Some(Location { line: 1, column: 8 })),
                ),
                (
                    "c".to_string(),
                    JsonNode::String(
                        "xyz".to_string(),
                        Some(Location {
                            line: 1,
                            column: 15,
                        }),
                    ),
                ),
                (
                    "d".to_string(),
                    JsonNode::Null(Some(Location {
                        line: 1,
                        column: 23,
                    })),
                ),
                (
                    "e".to_string(),
                    JsonNode::Array(
                        vec![
                            JsonNode::Integer(
                                1,
                                Some(Location {
                                    line: 1,
                                    column: 31,
                                }),
                            ),
                            JsonNode::Integer(
                                2,
                                Some(Location {
                                    line: 1,
                                    column: 33,
                                }),
                            ),
                            JsonNode::Integer(
                                3,
                                Some(Location {
                                    line: 1,
                                    column: 35,
                                }),
                            ),
                        ],
                        Some(Location {
                            line: 1,
                            column: 30,
                        }),
                    ),
                ),
                (
                    "a b".to_string(),
                    JsonNode::Integer(
                        88,
                        Some(Location {
                            line: 1,
                            column: 44,
                        }),
                    ),
                ),
            ],
            Some(Location { column: 1, line: 1 })
        )
    );
    assert_eq!(json5_nodes::stringify(&node_tree), JSON5_STRING);
}

#[test]
fn test_parse_nodes() {
    assert_eq!(
        json5_nodes::parse("{a: 1, b: true, c: 'xyz', d: null, e: [1, 2, 3]}").unwrap(),
        JsonNode::Object(
            vec![
                ("a".to_string(), JsonNode::Integer(1, at(1, 5))),
                ("b".to_string(), JsonNode::Bool(true, at(1, 11))),
                ("c".to_string(), JsonNode::String("xyz".to_string(), at(1, 20))),
                ("d".to_string(), JsonNode::Null(at(1, 30))),
                (
                    "e".to_string(),
                    JsonNode::Array(
                        vec![
                            JsonNode::Integer(1, at(1, 40)),
                            JsonNode::Integer(2, at(1, 43)),
                            JsonNode::Integer(3, at(1, 46)),
                        ],
                        at(1, 39)
                    )
                ),
            ],
            Some(Location { line: 1, column: 1 })
        )
    );
}

#[test]
fn test_stringify() {
    assert_eq!(json5_nodes::stringify(&JsonNode::Object(vec![], None)), "{}");
}

#[test]
fn integers_and_floats_are_told_apart() {
    assert_eq!(parse("1").unwrap(), JsonNode::Integer(1, at(1, 1)));
    assert_eq!(parse("1.0").unwrap(), JsonNode::Float("1.0".to_string(), at(1, 1)));
    assert_eq!(parse("0x1A").unwrap(), JsonNode::Integer(26, at(1, 1)));
    assert_eq!(parse("0X1a").unwrap(), JsonNode::Integer(26, at(1, 1)));
    assert_eq!(parse("1e3").unwrap(), JsonNode::Float("1e3".to_string(), at(1, 1)));
    assert_eq!(parse("-5").unwrap(), JsonNode::Integer(-5, at(1, 1)));
    assert_eq!(parse("+5").unwrap(), JsonNode::Integer(5, at(1, 1)));
    assert_eq!(parse(".5").unwrap(), JsonNode::Float(".5".to_string(), at(1, 1)));
    assert_eq!(parse("5.").unwrap(), JsonNode::Float("5.".to_string(), at(1, 1)));
    assert_eq!(parse("-Infinity").unwrap(), JsonNode::Float("-Infinity".to_string(), at(1, 1)));
    match parse("NaN").unwrap() {
        JsonNode::Float(text, _) => assert!(text.parse::<f64>().unwrap().is_nan()),
        _ => panic!("Unexpected result"),
    }
    match parse("-NaN").unwrap() {
        JsonNode::Float(text, _) => assert!(text.parse::<f64>().unwrap().is_nan()),
        _ => panic!("Unexpected result"),
    }
    match parse("Infinity").unwrap() {
        JsonNode::Float(text, _) => assert_eq!(text.parse::<f64>().unwrap(), f64::INFINITY),
        _ => panic!("Unexpected result"),
    }
}

#[test]
fn integer_limits() {
    assert_eq!(
        parse("9223372036854775807").unwrap(),
        JsonNode::Integer(i64::MAX, at(1, 1))
    );
    assert_eq!(
        parse("-9223372036854775808").unwrap(),
        JsonNode::Integer(i64::MIN, at(1, 1))
    );
    assert_eq!(parse("9223372036854775808"), Err(JsonError::NumberFormat(at(1, 1))));
    assert_eq!(parse("-9223372036854775809"), Err(JsonError::NumberFormat(at(1, 1))));
    assert_eq!(parse("0x7fffffffffffffff").unwrap(), JsonNode::Integer(i64::MAX, at(1, 1)));
    assert_eq!(parse("0x8000000000000000"), Err(JsonError::NumberFormat(at(1, 1))));
    assert_eq!(parse("0"), Ok(JsonNode::Integer(0, at(1, 1))));
    assert_eq!(parse("-0"), Ok(JsonNode::Integer(0, at(1, 1))));
}

#[test]
fn signed_hexadecimal_literals_are_malformed() {
    assert_eq!(parse("+0x1A"), Err(JsonError::NumberFormat(at(1, 1))));
    assert_eq!(parse("-0x1A"), Err(JsonError::NumberFormat(at(1, 1))));
    assert_eq!(parse("-0x1e"), Err(JsonError::NumberFormat(at(1, 1))));
    assert_eq!(parse("[1, -0xFF]"), Err(JsonError::NumberFormat(at(1, 5))));
}

#[test]
fn signed_names_are_malformed_integers() {
    assert_eq!(parse("+Infinity"), Err(JsonError::NumberFormat(at(1, 1))));
    assert_eq!(parse("+NaN"), Err(JsonError::NumberFormat(at(1, 1))));
}

#[test]
fn surrogate_pairs_are_joined() {
    assert_eq!(
        parse("\"\\uD83C\\uDDEF\\uD83C\\uDDF5\"").unwrap(),
        JsonNode::String("\u{1F1EF}\u{1F1F5}".to_string(), at(1, 1))
    );
    assert_eq!(
        parse("'\\uD83D\\uDE00'").unwrap(),
        JsonNode::String("\u{1F600}".to_string(), at(1, 1))
    );
}

#[test]
fn lone_surrogates_are_rejected() {
    assert_eq!(parse("\"\\uDC00\""), Err(JsonError::Unicode(at(1, 1))));
    assert_eq!(parse("\"\\uD83C\""), Err(JsonError::Unicode(at(1, 1))));
    assert_eq!(parse("\"\\uD83Cz\""), Err(JsonError::Unicode(at(1, 1))));
    assert_eq!(parse("\"\\uD83C\\u0041\""), Err(JsonError::Unicode(at(1, 1))));
    assert_eq!(parse("\"\\uD83C\\uD83C\""), Err(JsonError::Unicode(at(1, 1))));
    assert_eq!(parse("\"\\uD83C\\x41\""), Err(JsonError::Unicode(at(1, 1))));
    assert_eq!(parse("  [\"a\", \"\\uDFFF\"]"), Err(JsonError::Unicode(at(1, 9))));
    assert_eq!(parse("{\\uDC00: 1}"), Err(JsonError::Unicode(at(1, 2))));
}

#[test]
fn duplicate_keys_keep_first_place_and_last_value() {
    assert_eq!(
        parse("{a:1,a:2}").unwrap(),
        JsonNode::Object(vec![("a".to_string(), JsonNode::Integer(2, at(1, 8)))], at(1, 1))
    );
    assert_eq!(
        parse("{a:1,b:2,a:3}").unwrap(),
        JsonNode::Object(
            vec![
                ("a".to_string(), JsonNode::Integer(3, at(1, 12))),
                ("b".to_string(), JsonNode::Integer(2, at(1, 8))),
            ],
            at(1, 1)
        )
    );
    assert_eq!(
        parse("{a:1,'a':2,\"\\u0061\":3,\\u0061:4}").unwrap(),
        JsonNode::Object(vec![("a".to_string(), JsonNode::Integer(4, at(1, 30)))], at(1, 1))
    );
}

#[test]
fn escapes_are_decoded() {
    assert_eq!(
        parse("\"\\b\\f\\n\\r\\t\\v\\z\\x0A\\u0041\\0\"").unwrap(),
        JsonNode::String("\u{8}\u{C}\n\r\t\u{B}z\nA\0".to_string(), at(1, 1))
    );
    assert_eq!(
        parse("'\\'\\\"\\\\\\/'").unwrap(),
        JsonNode::String("'\"\\/".to_string(), at(1, 1))
    );
    assert_eq!(
        parse("\"\\xe9\\u00e9\\xFF\"").unwrap(),
        JsonNode::String("\u{e9}\u{e9}\u{ff}".to_string(), at(1, 1))
    );
    assert_eq!(
        parse("'a\\\nb\\\r\nc\\\u{2028}d'").unwrap(),
        JsonNode::String("abcd".to_string(), at(1, 1))
    );
    assert_eq!(
        parse("'\u{e9}\u{1F600}\"'").unwrap(),
        JsonNode::String("\u{e9}\u{1F600}\"".to_string(), at(1, 1))
    );
}

#[test]
fn malformed_strings_are_syntax_errors() {
    for text in ["\"abc", "'abc\"", "\"a\nb\"", "\"\\1\"", "\"\\x4\"", "\"\\u12\"", "\"\\xZZ\"", "'\\"] {
        match parse(text) {
            Err(JsonError::Syntax(_, Some(_))) => (),
            other => panic!("{:?}", other),
        }
    }
    assert_eq!(
        parse("\"abc"),
        Err(JsonError::Syntax(
            "expected a string character, an escape or the closing quote".to_string(),
            at(1, 5)
        ))
    );
    assert_eq!(
        parse("\"a\nb\""),
        Err(JsonError::Syntax(
            "expected a string character, an escape or the closing quote".to_string(),
            at(1, 3)
        ))
    );
}

#[test]
fn syntax_errors_tell_what_was_expected_and_where() {
    let expect = |text: &str, message: &str, line: usize, column: usize| {
        assert_eq!(
            parse(text),
            Err(JsonError::Syntax(message.to_string(), at(line, column))),
            "{:?}",
            text
        );
    };
    expect("", "expected a value", 1, 1);
    expect("   ", "expected a value", 1, 4);
    expect("nul", "expected a value", 1, 1);
    expect("0xZZ", "expected the end of the text", 1, 2);
    expect("012", "expected the end of the text", 1, 2);
    expect("1 2", "expected the end of the text", 1, 3);
    expect("nullx", "expected the end of the text", 1, 5);
    expect("[1 2]", "expected `,` or `]`", 1, 4);
    expect("[1,,2]", "expected a value", 1, 4);
    expect("[,]", "expected a value", 1, 2);
    expect("[1", "expected `,` or `]`", 1, 3);
    expect("{a:", "expected a value", 1, 4);
    expect("{a 1}", "expected `:`", 1, 4);
    expect("{a:1 b:2}", "expected `,` or `}`", 1, 6);
    expect("{1:2}", "expected an object key", 1, 2);
    expect("{,}", "expected an object key", 1, 2);
    expect("{\n  a: 1,\n  b: ?\n}", "expected a value", 3, 6);
    expect("/* open", "expected a value", 1, 1);
    expect("-", "expected a value", 1, 1);
    expect(".e5", "expected a value", 1, 1);
    expect("+ 1", "expected a value", 1, 1);
    expect("\u{e9}", "expected a value", 1, 1);
}

#[test]
fn white_space_and_comments_are_passed_over() {
    assert_eq!(
        parse(" \t\r\n\u{B}\u{C}\u{A0}\u{FEFF}\u{2028}\u{2029}\u{3000}\u{2003}1 ").unwrap(),
        JsonNode::Integer(1, at(2, 9))
    );
    assert_eq!(
        parse("// first\n/* second\n   third */ [1, // one\n 2 /* two */, /**/ 3,] // end").unwrap(),
        JsonNode::Array(
            vec![
                JsonNode::Integer(1, at(3, 14)),
                JsonNode::Integer(2, at(4, 2)),
                JsonNode::Integer(3, at(4, 20)),
            ],
            at(3, 13)
        )
    );
    assert_eq!(
        parse("{a:1,}").unwrap(),
        JsonNode::Object(vec![("a".to_string(), JsonNode::Integer(1, at(1, 4)))], at(1, 1))
    );
    assert_eq!(parse("1 // no newline"), Ok(JsonNode::Integer(1, at(1, 1))));
}

#[test]
fn identifiers_follow_unicode() {
    let key_of = |text: &str| match parse(text) {
        Ok(JsonNode::Object(members, _)) => members[0].0.clone(),
        other => panic!("{:?}", other),
    };
    assert_eq!(key_of("{$_a1: 0}"), "$_a1");
    assert_eq!(key_of("{\u{e9}t\u{e9}: 0}"), "\u{e9}t\u{e9}");
    assert_eq!(key_of("{\u{65e5}\u{672c}: 0}"), "\u{65e5}\u{672c}");
    assert_eq!(key_of("{\u{2160}x: 0}"), "\u{2160}x");
    assert_eq!(key_of("{a\u{301}: 0}"), "a\u{301}");
    assert_eq!(key_of("{a\u{903}: 0}"), "a\u{903}");
    assert_eq!(key_of("{a\u{663}: 0}"), "a\u{663}");
    assert_eq!(key_of("{a\u{203F}b: 0}"), "a\u{203F}b");
    assert_eq!(key_of("{a\u{200C}\u{200D}: 0}"), "a\u{200C}\u{200D}");
    assert_eq!(key_of("{\\u0061b\\u0063: 0}"), "abc");
    for text in ["{1a: 0}", "{\u{301}a: 0}", "{a-b: 0}", "{\u{663}: 0}", "{a\\u12: 0}", "{\u{20AC}: 0}"] {
        match parse(text) {
            Err(JsonError::Syntax(_, _)) => (),
            other => panic!("{:?}", other),
        }
    }
}

#[test]
fn locations_point_at_the_first_character() {
    match parse("{a:1}").unwrap() {
        JsonNode::Object(members, location) => {
            assert_eq!(location, at(1, 1));
            assert_eq!(members[0].1, JsonNode::Integer(1, Some(Location { line: 1, column: 4 })));
            assert_eq!(members[0].1.location(), at(1, 4));
        }
        other => panic!("{:?}", other),
    }
    assert_eq!(
        parse("[\n  'a',\r\n  [null,\n\ttrue],\r  \u{1F600}x\n]"),
        Err(JsonError::Syntax("expected a value".to_string(), at(4, 11)))
    );
    assert_eq!(
        parse("[\n  'a\u{e9}',\r\n  [null,\n\ttrue]\n]").unwrap(),
        JsonNode::Array(
            vec![
                JsonNode::String("a\u{e9}".to_string(), at(2, 3)),
                JsonNode::Array(
                    vec![JsonNode::Null(at(3, 4)), JsonNode::Bool(true, at(4, 2))],
                    at(3, 3)
                ),
            ],
            at(1, 1)
        )
    );
}

#[test]
fn the_first_error_wins() {
    assert_eq!(parse("[0x8000000000000000, '\\uDC00']"), Err(JsonError::NumberFormat(at(1, 2))));
    assert_eq!(parse("['\\uDC00', 0x8000000000000000]"), Err(JsonError::Unicode(at(1, 2))));
    assert_eq!(parse("{'\\uDC00': 0x8000000000000000}"), Err(JsonError::Unicode(at(1, 2))));
    assert_eq!(
        parse("['\\uDC00', 0x8000000000000000"),
        Err(JsonError::Syntax("expected `,` or `]`".to_string(), at(1, 30)))
    );
}

#[test]
fn parsed_objects_hold_no_key_twice() {
    match parse("{a:{x:1,y:2,x:3},b:[{k:1,k:2}],a:{z:1,z:2}}").unwrap() {
        JsonNode::Object(members, _) => {
            assert_eq!(members.len(), 2);
            assert_eq!(members[0].0, "a");
            assert_eq!(json5_nodes::stringify(&members[0].1), "{z:2}");
            assert_eq!(json5_nodes::stringify(&members[1].1), "[{k:2}]");
        }
        other => panic!("{:?}", other),
    }
}
