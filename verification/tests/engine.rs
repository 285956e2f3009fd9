use json5_nodes::{lex, Location, Rule, SyntaxNode};
use pest::iterators::Pair;
use pest::{ParseResult, ParserState};

#[derive(Clone, Copy, Debug, Eq, Hash, Ord, PartialEq, PartialOrd)]
enum Token {
    Null,
    Boolean,
    Text,
    Identifier,
    Number,
    Array,
    Object,
    Member,
    CharLiteral,
    CharEscape,
    NulEscape,
    HexEscape,
    UnicodeEscape,
}

type State<'i> = Box<ParserState<'i, Token>>;
type Parsed<'i> = ParseResult<State<'i>>;

fn any(s: State<'_>) -> Parsed<'_> {
    s.skip(1)
}

fn line_terminator(s: State<'_>) -> Parsed<'_> {
    s.match_char_by(|c| matches!(c, '\n' | '\r' | '\u{2028}' | '\u{2029}'))
}

fn white_space(s: State<'_>) -> Parsed<'_> {
    s.match_char_by(|c| {
        matches!(c, '\t' | '\u{B}' | '\u{C}' | ' ' | '\u{A0}' | '\u{FEFF}')
            || pest::unicode::SPACE_SEPARATOR(c)
    })
    .or_else(line_terminator)
}

fn comment(s: State<'_>) -> Parsed<'_> {
    s.sequence(|s| {
        s.match_string("/*")
            .and_then(|s| {
                s.repeat(|s| {
                    s.sequence(|s| s.lookahead(false, |s| s.match_string("*/")).and_then(any))
                })
            })
            .and_then(|s| s.match_string("*/"))
    })
    .or_else(|s| {
        s.sequence(|s| {
            s.match_string("//").and_then(|s| {
                s.repeat(|s| s.sequence(|s| s.lookahead(false, line_terminator).and_then(any)))
            })
        })
    })
}

fn skip(s: State<'_>) -> Parsed<'_> {
    s.repeat(|s| white_space(s).or_else(comment))
}

fn digit(s: State<'_>) -> Parsed<'_> {
    s.match_range('0'..'9')
}

fn hex_digit(s: State<'_>) -> Parsed<'_> {
    s.match_range('0'..'9')
        .or_else(|s| s.match_range('a'..'f'))
        .or_else(|s| s.match_range('A'..'F'))
}

fn null(s: State<'_>) -> Parsed<'_> {
    s.rule(Token::Null, |s| s.match_string("null"))
}

fn boolean(s: State<'_>) -> Parsed<'_> {
    s.rule(Token::Boolean, |s| s.match_string("true").or_else(|s| s.match_string("false")))
}

fn char_literal(s: State<'_>) -> Parsed<'_> {
    s.rule(Token::CharLiteral, |s| {
        s.sequence(|s| {
            s.lookahead(false, |s| s.match_string("\\").or_else(line_terminator))
                .and_then(any)
        })
    })
}

fn single_escape_char(s: State<'_>) -> Parsed<'_> {
    s.match_char_by(|c| matches!(c, '\'' | '"' | '\\' | 'b' | 'f' | 'n' | 'r' | 't' | 'v'))
}

fn escape_char(s: State<'_>) -> Parsed<'_> {
    single_escape_char(s)
        .or_else(digit)
        .or_else(|s| s.match_string("x"))
        .or_else(|s| s.match_string("u"))
}

fn non_escape_char(s: State<'_>) -> Parsed<'_> {
    s.sequence(|s| {
        s.lookahead(false, |s| escape_char(s).or_else(line_terminator))
            .and_then(any)
    })
}

fn char_escape_sequence(s: State<'_>) -> Parsed<'_> {
    s.rule(Token::CharEscape, |s| single_escape_char(s).or_else(non_escape_char))
}

fn nul_escape_sequence(s: State<'_>) -> Parsed<'_> {
    s.rule(Token::NulEscape, |s| s.match_string("0"))
}

fn hex_escape_sequence(s: State<'_>) -> Parsed<'_> {
    s.rule(Token::HexEscape, |s| s.sequence(|s| hex_digit(s).and_then(hex_digit)))
}

fn unicode_escape_sequence(s: State<'_>) -> Parsed<'_> {
    s.rule(Token::UnicodeEscape, |s| {
        s.sequence(|s| {
            hex_digit(s)
                .and_then(hex_digit)
                .and_then(hex_digit)
                .and_then(hex_digit)
        })
    })
}

fn escape_sequence(s: State<'_>) -> Parsed<'_> {
    char_escape_sequence(s)
        .or_else(nul_escape_sequence)
        .or_else(|s| s.sequence(|s| s.match_string("x").and_then(hex_escape_sequence)))
        .or_else(|s| s.sequence(|s| s.match_string("u").and_then(unicode_escape_sequence)))
}

fn line_continuation(s: State<'_>) -> Parsed<'_> {
    s.sequence(|s| {
        s.match_string("\\")
            .and_then(|s| s.match_string("\r\n").or_else(line_terminator))
    })
}

fn quote_char<'i>(s: State<'i>, quote: &'static str) -> Parsed<'i> {
    s.sequence(|s| s.match_string("\\").and_then(escape_sequence))
        .or_else(line_continuation)
        .or_else(|s| {
            s.sequence(|s| {
                s.lookahead(false, |s| s.match_string(quote))
                    .and_then(char_literal)
            })
        })
}

fn quoted<'i>(s: State<'i>, quote: &'static str) -> Parsed<'i> {
    s.sequence(|s| {
        s.match_string(quote)
            .and_then(|s| s.repeat(|s| quote_char(s, quote)))
            .and_then(|s| s.match_string(quote))
    })
}

fn string(s: State<'_>) -> Parsed<'_> {
    s.rule(Token::Text, |s| quoted(s, "\"").or_else(|s| quoted(s, "'")))
}

fn identifier_start(s: State<'_>) -> Parsed<'_> {
    s.sequence(|s| {
        s.lookahead(true, |s| {
            s.match_char_by(|c| {
                pest::unicode::LETTER(c) || pest::unicode::LETTER_NUMBER(c) || c == '$' || c == '_'
            })
        })
        .and_then(char_literal)
    })
    .or_else(|s| s.sequence(|s| s.match_string("\\u").and_then(unicode_escape_sequence)))
}

fn identifier_part(s: State<'_>) -> Parsed<'_> {
    identifier_start(s).or_else(|s| {
        s.sequence(|s| {
            s.lookahead(true, |s| {
                s.match_char_by(|c| {
                    pest::unicode::NONSPACING_MARK(c)
                        || pest::unicode::SPACING_MARK(c)
                        || pest::unicode::DECIMAL_NUMBER(c)
                        || pest::unicode::CONNECTOR_PUNCTUATION(c)
                        || c == '\u{200C}'
                        || c == '\u{200D}'
                })
            })
            .and_then(char_literal)
        })
    })
}

fn identifier(s: State<'_>) -> Parsed<'_> {
    s.rule(Token::Identifier, |s| {
        s.sequence(|s| identifier_start(s).and_then(|s| s.repeat(identifier_part)))
    })
}

fn exponent_part(s: State<'_>) -> Parsed<'_> {
    s.sequence(|s| {
        s.match_insensitive("e")
            .and_then(|s| s.optional(|s| s.match_string("+").or_else(|s| s.match_string("-"))))
            .and_then(digit)
            .and_then(|s| s.repeat(digit))
    })
}

fn decimal_integer_literal(s: State<'_>) -> Parsed<'_> {
    s.match_string("0")
        .or_else(|s| s.sequence(|s| s.match_range('1'..'9').and_then(|s| s.repeat(digit))))
}

fn decimal_literal(s: State<'_>) -> Parsed<'_> {
    s.sequence(|s| {
        decimal_integer_literal(s)
            .and_then(|s| s.match_string("."))
            .and_then(|s| s.repeat(digit))
            .and_then(|s| s.optional(exponent_part))
    })
    .or_else(|s| {
        s.sequence(|s| {
            s.match_string(".")
                .and_then(digit)
                .and_then(|s| s.repeat(digit))
                .and_then(|s| s.optional(exponent_part))
        })
    })
    .or_else(|s| s.sequence(|s| decimal_integer_literal(s).and_then(|s| s.optional(exponent_part))))
}

fn hex_integer_literal(s: State<'_>) -> Parsed<'_> {
    s.sequence(|s| {
        s.match_insensitive("0x")
            .and_then(hex_digit)
            .and_then(|s| s.repeat(hex_digit))
    })
}

fn number(s: State<'_>) -> Parsed<'_> {
    s.rule(Token::Number, |s| {
        s.sequence(|s| {
            s.optional(|s| s.match_string("+").or_else(|s| s.match_string("-")))
                .and_then(|s| {
                    hex_integer_literal(s)
                        .or_else(decimal_literal)
                        .or_else(|s| s.match_string("Infinity"))
                        .or_else(|s| s.match_string("NaN"))
                })
        })
    })
}

fn member(s: State<'_>) -> Parsed<'_> {
    s.rule(Token::Member, |s| {
        s.sequence(|s| {
            identifier(s)
                .or_else(string)
                .and_then(skip)
                .and_then(|s| s.match_string(":"))
                .and_then(skip)
                .and_then(value)
        })
    })
}

fn listed<'i>(
    s: State<'i>,
    open: &'static str,
    close: &'static str,
    item: fn(State<'i>) -> Parsed<'i>,
) -> Parsed<'i> {
    s.sequence(|s| s.match_string(open).and_then(skip).and_then(|s| s.match_string(close)))
        .or_else(|s| {
            s.sequence(|s| {
                s.match_string(open)
                    .and_then(skip)
                    .and_then(item)
                    .and_then(skip)
                    .and_then(|s| {
                        s.repeat(|s| {
                            s.sequence(|s| {
                                s.match_string(",").and_then(skip).and_then(item).and_then(skip)
                            })
                        })
                    })
                    .and_then(|s| s.optional(|s| s.sequence(|s| s.match_string(",").and_then(skip))))
                    .and_then(|s| s.match_string(close))
            })
        })
}

fn array(s: State<'_>) -> Parsed<'_> {
    s.rule(Token::Array, |s| listed(s, "[", "]", value))
}

fn object(s: State<'_>) -> Parsed<'_> {
    s.rule(Token::Object, |s| listed(s, "{", "}", member))
}

fn value(s: State<'_>) -> Parsed<'_> {
    null(s)
        .or_else(boolean)
        .or_else(string)
        .or_else(number)
        .or_else(object)
        .or_else(array)
}

fn text(s: State<'_>) -> Parsed<'_> {
    s.sequence(|s| {
        s.start_of_input()
            .and_then(skip)
            .and_then(value)
            .and_then(skip)
            .and_then(|s| s.end_of_input())
    })
}

fn node_of(pair: Pair<'_, Token>) -> SyntaxNode {
    let (line, column) = pair.line_col();
    let location = Location { line, column };
    let (rule, leaf) = match pair.as_rule() {
        Token::Null => (Rule::Null, true),
        Token::Boolean => (Rule::Boolean, true),
        Token::Text => (Rule::String, false),
        Token::Identifier => (Rule::Identifier, false),
        Token::Number => (Rule::Number, true),
        Token::Array => (Rule::Array, false),
        Token::Object => (Rule::Object, false),
        Token::Member => (Rule::Pair, false),
        Token::CharLiteral => (Rule::CharLiteral, true),
        Token::CharEscape => (Rule::CharEscapeSequence, true),
        Token::NulEscape => (Rule::NulEscapeSequence, true),
        Token::HexEscape => (Rule::HexEscapeSequence, true),
        Token::UnicodeEscape => (Rule::UnicodeEscapeSequence, true),
    };
    let text = if leaf { pair.as_str().to_string() } else { String::new() };
    SyntaxNode { rule, text, location, children: pair.into_inner().map(node_of).collect() }
}

fn engine(input: &str) -> Option<SyntaxNode> {
    match pest::state(input, text) {
        Ok(mut pairs) => Some(node_of(pairs.next().unwrap())),
        Err(_) => None,
    }
}

fn agree(input: &str) -> bool {
    let expected = engine(input);
    assert_eq!(lex(input).ok(), expected, "{:?}", input);
    expected.is_some()
}

struct Dice(u64);

impl Dice {
    fn roll(&mut self, sides: usize) -> usize {
        self.0 = self.0.wrapping_mul(6364136223846793005).wrapping_add(1442695040888963407);
        ((self.0 >> 33) as usize) % sides
    }

    fn pick<'a>(&mut self, from: &[&'a str]) -> &'a str {
        from[self.roll(from.len())]
    }
}

const PIECES: [&str; 64] = [
    "{", "}", "[", "]", ",", ":", "\"", "'", "\\", "/", "*", "//", "/*", "*/", " ", "\n", "\r",
    "\r\n", "\t", "\u{A0}", "\u{2028}", "\u{3000}", "null", "true", "false", "Infinity", "NaN",
    "0", "1", "9", "00", "12", ".", "e", "E", "+", "-", "0x", "0X", "x", "u", "a", "b", "f", "n",
    "A", "F", "z", "$", "_", "\u{e9}", "\u{301}", "\u{663}", "\u{200D}", "\u{2160}", "\u{1F600}",
    "\\u0041", "\\x41", "\\n", "\\0", "\\\n", "\\u00", "\\uD83C\\uDDEF", "#",
];

const SPACES: [&str; 12] = [
    "", "", "", "", " ", "\n", "\r\n", "\t ", "/**/", "/* c */", "// c\n", "\u{FEFF}\u{2003}",
];

const NUMBERS: [&str; 24] = [
    "0", "-0", "+1", "12", "1.5", "-1.5e3", "1E-3", ".5", "5.", "5.e2", "0.0", "1e+10", "0x1F",
    "0Xab", "-0x1", "Infinity", "-Infinity", "+Infinity", "NaN", "-NaN", "0e0", "9007199254740993",
    "1e999", "0x8000000000000000",
];

const KEYS: [&str; 16] = [
    "a", "abc", "$", "_", "a1", "\u{e9}t\u{e9}", "nu\\u006cl", "\\u0061", "null", "true", "a\u{301}",
    "x\u{200C}y", "\"a b\"", "'k'", "\"\"", "'\\u0041\\n'",
];

const STRINGS: [&str; 12] = [
    "\"\"", "''", "\"x\"", "'x'", "\"it's\"", "'say \"hi\"'", "\"\\u0041\\x42\\n\\0\\z\"",
    "'\\\n'", "\"\\uD83C\\uDDEF\"", "'\u{e9}\u{1F600}'", "\"\\\\\"", "'\\''",
];

fn document(dice: &mut Dice, depth: usize, out: &mut String) {
    let kind = if depth == 0 { dice.roll(5) } else { dice.roll(7) };
    match kind {
        0 => out.push_str("null"),
        1 => out.push_str(dice.pick(&["true", "false"])),
        2 | 3 => out.push_str(dice.pick(&NUMBERS)),
        4 => out.push_str(dice.pick(&STRINGS)),
        5 => {
            out.push('[');
            out.push_str(dice.pick(&SPACES));
            let count = dice.roll(4);
            for i in 0..count {
                document(dice, depth - 1, out);
                out.push_str(dice.pick(&SPACES));
                if i + 1 < count || dice.roll(3) == 0 {
                    out.push(',');
                    out.push_str(dice.pick(&SPACES));
                }
            }
            out.push(']');
        }
        _ => {
            out.push('{');
            out.push_str(dice.pick(&SPACES));
            let count = dice.roll(4);
            for i in 0..count {
                out.push_str(dice.pick(&KEYS));
                out.push_str(dice.pick(&SPACES));
                out.push(':');
                out.push_str(dice.pick(&SPACES));
                document(dice, depth - 1, out);
                out.push_str(dice.pick(&SPACES));
                if i + 1 < count || dice.roll(3) == 0 {
                    out.push(',');
                    out.push_str(dice.pick(&SPACES));
                }
            }
            out.push('}');
        }
    }
}

#[test]
fn chosen_texts_are_read_as_the_engine_reads_them() {
    let accepted = [
        "null", " true ", "false//", "/**/0", "[]", "{}", "[ ]", "{ }", "[1,]", "{a:1,}",
        "[1 , 2 ,]", "{ a : 1 , b : 2 , }", "'\\\r\n'", "\"\\\u{2028}\"", "{nu\\u006cl:null}",
        "[[[[]]]]", "{a:{b:{c:{}}}}", "-Infinity", "+NaN", "0x0", "0.e1", ".0E-0", "[0xe,1e1]",
        "/*/ */1", "/***/1", "1/*\n*///\n", "{\"\":''}", "{'':\"\"}", "'\\x41\\u0041\\0\\a'",
        "{\u{e9}:1}", "{a\u{200D}:1}", "{$:1,_:2}", "\u{FEFF}[\u{3000}]\u{A0}", "[1]//",
        "[1]// c", "{true:false}", "{Infinity:NaN}", "{a1:1}", "[.5,5.,-5.5e+5]",
    ];
    for input in accepted {
        assert!(agree(input), "{:?}", input);
    }
    let refused = [
        "", " ", "nul", "nulll", "True", "[", "]", "{", "}", "[,]", "{,}", "[1,,]", "[1 2]",
        "{a}", "{a:}", "{:1}", "{a:1 b:2}", "{1:1}", "{-a:1}", "{a-b:1}", "'", "\"", "'\n'",
        "\"\r\"", "'\\1'", "'\\x4'", "'\\xZZ'", "'\\u004'", "'\\u00ZZ'", "\"'", "'\"", "0x", "0X",
        "0xg", "00", "01", "1e", "1e+", "1.e", ".e1", ".", "+", "-", "--1", "+-1", "- 1", "1.2.3",
        "1..2", "1x", "1n", "infinity", "nan", "Inf", "/*", "/*/", "/", "//", "1 /", "1 2",
        "null null", "[1]]", "{}}", "{a\\u00:1}", "{\\u0041\\:1}", "{a\u{301}b c:1}", "{\u{301}:1}",
        "{\u{663}:1}", "\u{85}1", "\u{200B}1", "#", "{a:1,,}", "[1,,2]", "{a:1,b}", "[\u{0}]",
    ];
    for input in refused {
        assert!(!agree(input), "{:?}", input);
    }
}

#[test]
fn made_up_documents_are_read_as_the_engine_reads_them() {
    let mut dice = Dice(1);
    let mut accepted = 0;
    for round in 0..6000 {
        let mut input = String::new();
        input.push_str(dice.pick(&SPACES));
        document(&mut dice, round % 4, &mut input);
        input.push_str(dice.pick(&SPACES));
        assert!(agree(&input), "{:?}", input);
        accepted += 1;
        let characters: Vec<char> = input.chars().collect();
        for _ in 0..3 {
            let mut changed = characters.clone();
            let at = dice.roll(changed.len() + 1);
            match dice.roll(3) {
                0 if at < changed.len() => {
                    changed.remove(at);
                }
                1 if at < changed.len() => {
                    let piece: Vec<char> = dice.pick(&PIECES).chars().collect();
                    changed.splice(at..at + 1, piece);
                }
                _ => {
                    let piece: Vec<char> = dice.pick(&PIECES).chars().collect();
                    changed.splice(at..at, piece);
                }
            }
            let changed: String = changed.into_iter().collect();
            if agree(&changed) {
                accepted += 1;
            }
        }
    }
    assert!(accepted > 6000);
}

#[test]
fn made_up_texts_are_read_as_the_engine_reads_them() {
    let mut dice = Dice(2);
    let mut accepted = 0;
    for _ in 0..40000 {
        let mut input = String::new();
        for _ in 0..dice.roll(9) {
            input.push_str(dice.pick(&PIECES));
        }
        if agree(&input) {
            accepted += 1;
        }
    }
    assert!(accepted > 100);
}
