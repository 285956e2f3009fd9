use json5_nodes::{parse, JsonNode};

fn all_characters() -> impl Iterator<Item = char> {
    (0..=0x10FFFF_u32).filter_map(char::from_u32)
}

fn is_line_terminator(c: char) -> bool {
    matches!(c, '\n' | '\r' | '\u{2028}' | '\u{2029}')
}

fn is_white_space(c: char) -> bool {
    matches!(c, '\t' | '\u{B}' | '\u{C}' | ' ' | '\u{A0}' | '\u{FEFF}')
        || pest::unicode::SPACE_SEPARATOR(c)
        || is_line_terminator(c)
}

fn begins_identifier(c: char) -> bool {
    (pest::unicode::LETTER(c) || pest::unicode::LETTER_NUMBER(c) || c == '$' || c == '_')
        && c != '\\'
        && !is_line_terminator(c)
}

fn continues_identifier(c: char) -> bool {
    begins_identifier(c)
        || ((pest::unicode::NONSPACING_MARK(c)
            || pest::unicode::SPACING_MARK(c)
            || pest::unicode::DECIMAL_NUMBER(c)
            || pest::unicode::CONNECTOR_PUNCTUATION(c)
            || c == '\u{200C}'
            || c == '\u{200D}')
            && c != '\\'
            && !is_line_terminator(c))
}

fn only_key(text: &str) -> Option<String> {
    match parse(text) {
        Ok(JsonNode::Object(members, _)) if members.len() == 1 => Some(members[0].0.clone()),
        _ => None,
    }
}

#[test]
fn white_space_is_what_the_categories_say() {
    let mut spaces = 0;
    for c in all_characters() {
        let read = parse(&format!("{}null", c)).is_ok();
        assert_eq!(read, is_white_space(c), "{:?}", c);
        if read {
            spaces += 1;
        }
    }
    assert_eq!(spaces, 25);
    assert!(parse("\u{85}1").is_err());
    assert!(parse("\u{180E}1").is_err());
    assert!(parse("\u{200B}1").is_err());
}

#[test]
fn identifiers_begin_with_what_the_categories_say() {
    let mut starts = 0;
    for c in all_characters() {
        let key = only_key(&format!("{{{}:0}}", c));
        if begins_identifier(c) {
            assert_eq!(key, Some(c.to_string()), "{:?}", c);
            starts += 1;
        } else {
            assert_eq!(key, None, "{:?}", c);
        }
    }
    assert!(starts > 100_000);
}

#[test]
fn identifiers_go_on_with_what_the_categories_say() {
    for c in all_characters() {
        let key = only_key(&format!("{{a{}:0}}", c));
        if continues_identifier(c) {
            assert_eq!(key, Some(format!("a{}", c)), "{:?}", c);
        } else if is_white_space(c) {
            assert_eq!(key, Some("a".to_string()), "{:?}", c);
        } else {
            assert_eq!(key, None, "{:?}", c);
        }
    }
}

#[test]
fn strings_hold_every_character_but_a_few() {
    for c in all_characters() {
        let parsed = parse(&format!("\"{}\"", c));
        if c == '"' || c == '\\' || is_line_terminator(c) {
            assert!(parsed.is_err(), "{:?}", c);
        } else {
            assert_eq!(parsed.unwrap().unlocated(), JsonNode::String(c.to_string(), None), "{:?}", c);
        }
    }
}

#[test]
fn every_character_can_be_escaped() {
    for c in all_characters() {
        let parsed = parse(&format!("'\\{}x'", c));
        let expected = match c {
            'b' => Some("\u{8}x".to_string()),
            'f' => Some("\u{c}x".to_string()),
            'n' => Some("\nx".to_string()),
            'r' => Some("\rx".to_string()),
            't' => Some("\tx".to_string()),
            'v' => Some("\u{b}x".to_string()),
            '0' => Some("\0x".to_string()),
            '1'..='9' | 'x' | 'u' => None,
            c if is_line_terminator(c) => Some("x".to_string()),
            c => Some(format!("{}x", c)),
        };
        match expected {
            Some(text) => assert_eq!(parsed.unwrap().unlocated(), JsonNode::String(text, None), "{:?}", c),
            None => assert!(parsed.is_err(), "{:?}", c),
        }
    }
}
