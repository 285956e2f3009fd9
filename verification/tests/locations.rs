use json5_nodes::{parse, JsonError, JsonNode, Location};

fn line_and_column(text: &str, offset: usize) -> Location {
    let (line, column) = pest::Position::new(text, offset).unwrap().line_col();
    Location { line, column }
}

#[test]
fn locations_are_lines_and_columns_of_characters() {
    let prefixes = [
        "",
        " ",
        "\n",
        "\r",
        "\r\n",
        "\n\r",
        "\r\r\n\n",
        " \r \n \r\n \n\r ",
        "\t\u{A0}\u{3000}\n\u{2028}\u{2029} ",
        "// one\n// two\r\n/* three\n four */ /* five */\r",
        "/*\u{1F600}\u{e9}*/\u{FEFF}\u{2003}",
        "\n\n\n\n\n\n\n\n\n\n",
    ];
    for prefix in prefixes {
        let text = format!("{}null", prefix);
        let expected = line_and_column(&text, prefix.len());
        assert_eq!(parse(&text), Ok(JsonNode::Null(Some(expected))), "{:?}", text);
        let text = format!("{}?", prefix);
        let expected = line_and_column(&text, prefix.len());
        assert_eq!(
            parse(&text),
            Err(JsonError::Syntax("expected a value".to_string(), Some(expected))),
            "{:?}",
            text
        );
        let text = format!("[{}", prefix);
        let expected = line_and_column(&text, text.len());
        assert_eq!(
            parse(&text),
            Err(JsonError::Syntax("expected a value".to_string(), Some(expected))),
            "{:?}",
            text
        );
    }
}

#[test]
fn every_node_is_located_where_its_text_begins() {
    let text = "{\r\n  caf\u{e9}: [1, 'two\\\nlines',\r\n\t{\"k\":\n-0.5}, /* \u{1F600} */ null],\n  'b': true\n}";
    let find = |needle: &str| line_and_column(text, text.find(needle).unwrap());
    let expected = JsonNode::Object(
        vec![
            (
                "caf\u{e9}".to_string(),
                JsonNode::Array(
                    vec![
                        JsonNode::Integer(1, Some(find("1,"))),
                        JsonNode::String("twolines".to_string(), Some(find("'two"))),
                        JsonNode::Object(
                            vec![("k".to_string(), JsonNode::Float("-0.5".to_string(), Some(find("-0.5"))))],
                            Some(find("{\"k\"")),
                        ),
                        JsonNode::Null(Some(find("null"))),
                    ],
                    Some(find("[1")),
                ),
            ),
            ("b".to_string(), JsonNode::Bool(true, Some(find("true")))),
        ],
        Some(Location { line: 1, column: 1 }),
    );
    assert_eq!(parse(text), Ok(expected));
    assert_eq!(find("null"), Location { line: 5, column: 16 });
}
