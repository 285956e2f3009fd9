use json5_nodes::{lex, parse, parse_pair, JsonError, JsonNode, Location, Rule, SyntaxNode};

fn at(line: usize, column: usize) -> Location {
    Location { line, column }
}

fn leaf(rule: Rule, text: &str, line: usize, column: usize) -> SyntaxNode {
    SyntaxNode { rule, text: text.to_string(), location: at(line, column), children: vec![] }
}

fn branch(rule: Rule, line: usize, column: usize, children: Vec<SyntaxNode>) -> SyntaxNode {
    SyntaxNode { rule, text: String::new(), location: at(line, column), children }
}

#[test]
fn literals_become_leaves() {
    assert_eq!(lex("null"), Ok(leaf(Rule::Null, "null", 1, 1)));
    assert_eq!(lex(" true"), Ok(leaf(Rule::Boolean, "true", 1, 2)));
    assert_eq!(lex("\nfalse"), Ok(leaf(Rule::Boolean, "false", 2, 1)));
    assert_eq!(lex("-0x1F"), Ok(leaf(Rule::Number, "-0x1F", 1, 1)));
    assert_eq!(lex("+.5e-3 "), Ok(leaf(Rule::Number, "+.5e-3", 1, 1)));
    assert_eq!(lex("1.e3"), Ok(leaf(Rule::Number, "1.e3", 1, 1)));
    assert_eq!(lex("-Infinity"), Ok(leaf(Rule::Number, "-Infinity", 1, 1)));
    assert_eq!(lex("+NaN"), Ok(leaf(Rule::Number, "+NaN", 1, 1)));
    assert_eq!(lex("0"), Ok(leaf(Rule::Number, "0", 1, 1)));
}

#[test]
fn strings_become_their_components() {
    assert_eq!(
        lex("'a\\n\\0\\x41\\u00e9\\\n\\'z'"),
        Ok(branch(
            Rule::String,
            1,
            1,
            vec![
                leaf(Rule::CharLiteral, "a", 1, 2),
                leaf(Rule::CharEscapeSequence, "n", 1, 4),
                leaf(Rule::NulEscapeSequence, "0", 1, 6),
                leaf(Rule::HexEscapeSequence, "41", 1, 9),
                leaf(Rule::UnicodeEscapeSequence, "00e9", 1, 13),
                leaf(Rule::CharEscapeSequence, "'", 2, 2),
                leaf(Rule::CharLiteral, "z", 2, 3),
            ]
        ))
    );
    assert_eq!(lex("\"\""), Ok(branch(Rule::String, 1, 1, vec![])));
    assert_eq!(
        lex("\"'\""),
        Ok(branch(Rule::String, 1, 1, vec![leaf(Rule::CharLiteral, "'", 1, 2)]))
    );
}

#[test]
fn arrays_and_objects_become_branches() {
    assert_eq!(
        lex("[1, [], {a: 'b', \"c\": null, \\u0064e: true,}]"),
        Ok(branch(
            Rule::Array,
            1,
            1,
            vec![
                leaf(Rule::Number, "1", 1, 2),
                branch(Rule::Array, 1, 5, vec![]),
                branch(
                    Rule::Object,
                    1,
                    9,
                    vec![
                        branch(
                            Rule::Pair,
                            1,
                            10,
                            vec![
                                branch(Rule::Identifier, 1, 10, vec![leaf(Rule::CharLiteral, "a", 1, 10)]),
                                branch(Rule::String, 1, 13, vec![leaf(Rule::CharLiteral, "b", 1, 14)]),
                            ]
                        ),
                        branch(
                            Rule::Pair,
                            1,
                            18,
                            vec![
                                branch(Rule::String, 1, 18, vec![leaf(Rule::CharLiteral, "c", 1, 19)]),
                                leaf(Rule::Null, "null", 1, 23),
                            ]
                        ),
                        branch(
                            Rule::Pair,
                            1,
                            29,
                            vec![
                                branch(
                                    Rule::Identifier,
                                    1,
                                    29,
                                    vec![
                                        leaf(Rule::UnicodeEscapeSequence, "0064", 1, 31),
                                        leaf(Rule::CharLiteral, "e", 1, 35),
                                    ]
                                ),
                                leaf(Rule::Boolean, "true", 1, 38),
                            ]
                        ),
                    ]
                ),
            ]
        ))
    );
}

#[test]
fn trees_are_built_into_values() {
    let tree = branch(
        Rule::Object,
        1,
        1,
        vec![
            branch(
                Rule::Pair,
                1,
                2,
                vec![
                    branch(Rule::Identifier, 1, 2, vec![leaf(Rule::CharLiteral, "k", 1, 2)]),
                    branch(
                        Rule::Array,
                        1,
                        5,
                        vec![
                            leaf(Rule::Null, "null", 1, 6),
                            leaf(Rule::Boolean, "true", 1, 12),
                            leaf(Rule::Boolean, "false", 1, 18),
                            leaf(Rule::Boolean, "maybe", 1, 25),
                            leaf(Rule::Number, "0x10", 2, 1),
                            leaf(Rule::Number, "1.5", 2, 7),
                            branch(Rule::String, 2, 12, vec![leaf(Rule::CharLiteral, "s", 2, 13)]),
                            branch(Rule::Identifier, 2, 16, vec![leaf(Rule::CharLiteral, "i", 2, 16)]),
                        ],
                    ),
                ],
            ),
            branch(
                Rule::Pair,
                3,
                1,
                vec![
                    branch(Rule::String, 3, 1, vec![leaf(Rule::CharLiteral, "k", 3, 2)]),
                    leaf(Rule::Number, "2", 3, 6),
                ],
            ),
        ],
    );
    assert_eq!(
        parse_pair(&tree),
        Ok(JsonNode::Object(
            vec![("k".to_string(), JsonNode::Integer(2, Some(at(3, 6))))],
            Some(at(1, 1))
        ))
    );
    let array = &tree.children[0].children[1];
    assert_eq!(
        parse_pair(array),
        Ok(JsonNode::Array(
            vec![
                JsonNode::Null(Some(at(1, 6))),
                JsonNode::Bool(true, Some(at(1, 12))),
                JsonNode::Bool(false, Some(at(1, 18))),
                JsonNode::Bool(false, Some(at(1, 25))),
                JsonNode::Integer(16, Some(at(2, 1))),
                JsonNode::Float("1.5".to_string(), Some(at(2, 7))),
                JsonNode::String("s".to_string(), Some(at(2, 12))),
                JsonNode::String("i".to_string(), Some(at(2, 16))),
            ],
            Some(at(1, 5))
        ))
    );
    let bad = branch(
        Rule::Array,
        1,
        1,
        vec![leaf(Rule::Number, "1", 1, 2), leaf(Rule::Number, "1x", 1, 4), leaf(Rule::Number, "inf", 1, 8)],
    );
    assert_eq!(parse_pair(&bad), Err(JsonError::NumberFormat(Some(at(1, 4)))));
    let worse = branch(
        Rule::Array,
        1,
        1,
        vec![leaf(Rule::Number, "1e", 1, 2), leaf(Rule::Number, "+inf", 1, 4)],
    );
    assert_eq!(parse_pair(&worse), Err(JsonError::NumberFormat(Some(at(1, 2)))));
    let range = branch(Rule::Array, 1, 1, vec![leaf(Rule::Number, "1e999", 1, 2)]);
    assert_eq!(parse_pair(&range), Err(JsonError::NumberRange(Some(at(1, 2)))));
}

#[test]
fn parsing_is_lexing_and_building() {
    for text in [
        "{a: [1, 2.5, 'x\\n', null, true], \"b c\": {d: -0x10}, a: 1e2}",
        "[1e999]",
        "['\\uD800']",
        "[0x]",
        "{a: 1",
        "",
        "// nothing",
    ] {
        let expected = match lex(text) {
            Ok(tree) => parse_pair(&tree),
            Err(e) => Err(e),
        };
        assert_eq!(parse(text), expected, "{:?}", text);
    }
}

#[test]
fn errors_tell_their_message_and_place() {
    let error = parse("[1,\n 2 3]").unwrap_err();
    assert_eq!(error.to_string(), "expected `,` or `]`");
    assert_eq!(error.location(), Some(at(2, 4)));
    assert_eq!(JsonError::Syntax("wrong".to_string(), None).to_string(), "wrong");
    assert_eq!(JsonError::NumberFormat(None).to_string(), "bad number format");
    assert_eq!(JsonError::NumberRange(None).to_string(), "bad number range");
    assert_eq!(JsonError::Unicode(Some(at(1, 2))).to_string(), "bad Unicode characters");
    assert_eq!(JsonError::Unicode(Some(at(1, 2))).location(), Some(at(1, 2)));
    assert_eq!(JsonError::NumberRange(None).location(), None);
}
