use json5_nodes::{parse, parse_string, JsonError, JsonNode, Location, Rule, SyntaxNode};

fn part(rule: Rule, text: &str) -> SyntaxNode {
    SyntaxNode {
        rule,
        text: text.to_string(),
        location: Location { line: 9, column: 9 },
        children: vec![],
    }
}

fn string_of(parts: Vec<SyntaxNode>) -> SyntaxNode {
    SyntaxNode {
        rule: Rule::String,
        text: String::new(),
        location: Location { line: 2, column: 5 },
        children: parts,
    }
}

fn here() -> Option<Location> {
    Some(Location { line: 2, column: 5 })
}

#[test]
fn components_are_decoded_in_order() {
    let node = string_of(vec![
        part(Rule::CharLiteral, "ab"),
        part(Rule::CharEscapeSequence, "n"),
        part(Rule::CharLiteral, "c"),
        part(Rule::NulEscapeSequence, "0"),
        part(Rule::HexEscapeSequence, "41"),
        part(Rule::UnicodeEscapeSequence, "00e9"),
        part(Rule::UnicodeEscapeSequence, "D83D"),
        part(Rule::UnicodeEscapeSequence, "DE00"),
        part(Rule::CharLiteral, "\u{1F600}"),
    ]);
    assert_eq!(
        parse_string(&node),
        Ok("ab\nc\0A\u{e9}\u{1F600}\u{1F600}".to_string())
    );
    assert_eq!(parse_string(&string_of(vec![])), Ok(String::new()));
}

#[test]
fn short_escapes_stand_for_control_characters() {
    let cases = [
        ("b", "\u{8}"),
        ("f", "\u{c}"),
        ("n", "\n"),
        ("r", "\r"),
        ("t", "\t"),
        ("v", "\u{b}"),
        ("z", "z"),
        ("'", "'"),
        ("\"", "\""),
        ("\\", "\\"),
        ("/", "/"),
        ("B", "B"),
        ("\u{e9}", "\u{e9}"),
        ("bb", "bb"),
        ("", ""),
    ];
    for (text, expected) in cases {
        let node = string_of(vec![part(Rule::CharEscapeSequence, text)]);
        assert_eq!(parse_string(&node), Ok(expected.to_string()), "{:?}", text);
    }
}

#[test]
fn hexadecimal_escapes_are_read_as_the_standard_library_reads_them() {
    for text in ["00", "0A", "0a", "7f", "ff", "FF", "+f", "0041", "d7ff", "e000", "10ffff"] {
        let code = u32::from_str_radix(text, 16).unwrap();
        let expected = char::from_u32(code).unwrap().to_string();
        let node = string_of(vec![part(Rule::HexEscapeSequence, text)]);
        assert_eq!(parse_string(&node), Ok(expected.clone()), "{:?}", text);
        let node = string_of(vec![part(Rule::UnicodeEscapeSequence, text)]);
        assert_eq!(parse_string(&node), Ok(expected), "{:?}", text);
    }
    for text in ["", "g", "-1", "+", "zz", "100000000", " 41", "4 1", "0x41"] {
        assert!(u32::from_str_radix(text, 16).is_err());
        let node = string_of(vec![part(Rule::HexEscapeSequence, text)]);
        assert_eq!(parse_string(&node), Err(JsonError::NumberFormat(here())), "{:?}", text);
        let node = string_of(vec![part(Rule::UnicodeEscapeSequence, text)]);
        assert_eq!(parse_string(&node), Err(JsonError::NumberFormat(here())), "{:?}", text);
    }
}

#[test]
fn code_points_without_a_character_are_rejected() {
    for text in ["d800", "dfff", "110000", "ffffffff"] {
        let node = string_of(vec![part(Rule::HexEscapeSequence, text)]);
        assert_eq!(parse_string(&node), Err(JsonError::NumberFormat(here())), "{:?}", text);
    }
    for text in ["110000", "ffffffff", "dc00", "dfff"] {
        let node = string_of(vec![part(Rule::UnicodeEscapeSequence, text)]);
        assert_eq!(parse_string(&node), Err(JsonError::Unicode(here())), "{:?}", text);
    }
}

#[test]
fn a_high_surrogate_needs_a_low_surrogate_escape_behind_it() {
    let high = || part(Rule::UnicodeEscapeSequence, "D83C");
    let unicode = |parts: Vec<SyntaxNode>| parse_string(&string_of(parts));
    assert_eq!(unicode(vec![high()]), Err(JsonError::Unicode(here())));
    assert_eq!(
        unicode(vec![high(), part(Rule::UnicodeEscapeSequence, "0041")]),
        Err(JsonError::Unicode(here()))
    );
    assert_eq!(
        unicode(vec![high(), part(Rule::UnicodeEscapeSequence, "D83C")]),
        Err(JsonError::Unicode(here()))
    );
    assert_eq!(
        unicode(vec![high(), part(Rule::CharLiteral, "z")]),
        Err(JsonError::Unicode(here()))
    );
    assert_eq!(
        unicode(vec![high(), part(Rule::CharLiteral, "DDEF")]),
        Err(JsonError::Unicode(here()))
    );
    assert_eq!(
        unicode(vec![high(), part(Rule::HexEscapeSequence, "DDEF")]),
        Err(JsonError::Unicode(here()))
    );
    assert_eq!(
        unicode(vec![high(), part(Rule::UnicodeEscapeSequence, "zz")]),
        Err(JsonError::NumberFormat(here()))
    );
    assert_eq!(
        unicode(vec![high(), part(Rule::UnicodeEscapeSequence, "DDEF")]),
        Ok("\u{1F1EF}".to_string())
    );
    assert_eq!(
        unicode(vec![
            part(Rule::CharLiteral, "a"),
            high(),
            part(Rule::UnicodeEscapeSequence, "DDEF"),
            high(),
        ]),
        Err(JsonError::Unicode(here()))
    );
}

#[test]
fn surrogate_pairs_stand_for_what_they_encode() {
    let pair = |high: &str, low: &str| {
        parse_string(&string_of(vec![
            part(Rule::UnicodeEscapeSequence, high),
            part(Rule::UnicodeEscapeSequence, low),
        ]))
    };
    assert_eq!(pair("D800", "DC00"), Ok("\u{10000}".to_string()));
    assert_eq!(pair("D800", "DFFF"), Ok("\u{103FF}".to_string()));
    assert_eq!(pair("D83C", "DDEF"), Ok("\u{1F1EF}".to_string()));
    assert_eq!(pair("D83F", "DFFF"), Ok("\u{1FFFF}".to_string()));
    assert_eq!(pair("D840", "DC00"), Ok("\u{20000}".to_string()));
    assert_eq!(pair("D87E", "DC1D"), Ok("\u{2F81D}".to_string()));
    assert_eq!(pair("DB40", "DC01"), Ok("\u{E0001}".to_string()));
    assert_eq!(pair("DBFF", "DC00"), Ok("\u{10FC00}".to_string()));
    assert_eq!(pair("DBFF", "DFFF"), Ok("\u{10FFFF}".to_string()));
    assert_eq!(
        parse("\"\\uD840\\uDC00\""),
        Ok(JsonNode::String("\u{20000}".to_string(), Some(Location { line: 1, column: 1 })))
    );
    assert_eq!(
        parse("'\\uD801\\uDC37'"),
        Ok(JsonNode::String("\u{10437}".to_string(), Some(Location { line: 1, column: 1 })))
    );
}

#[test]
fn every_surrogate_pair_is_decoded_as_the_standard_library_decodes_it() {
    for high in 0xD800_u16..=0xDBFF {
        for low in (0xDC00_u16..=0xDFFF).step_by(7).chain([0xDFFF]) {
            let expected = String::from_utf16(&[high, low]).unwrap();
            let node = string_of(vec![
                part(Rule::UnicodeEscapeSequence, &format!("{:04X}", high)),
                part(Rule::UnicodeEscapeSequence, &format!("{:04x}", low)),
            ]);
            assert_eq!(parse_string(&node), Ok(expected), "{:04X} {:04X}", high, low);
        }
    }
}
