//! The string decoder: it turns the components of a string or identifier
//! into the text that they stand for.

use crate::chars::{is_scalar_value, to_chars};
use crate::error::{ErrorView, JsonError, Location};
use crate::number::{chars_to_u32, parse_u32_text};
use crate::syntax::{Rule, SyntaxNode, SyntaxTree};
use vstd::prelude::*;
use vstd::string::*;

verus! {

/// What the character escape with the text `text` stands for: a control
/// character for each of `b`, `f`, `n`, `r`, `t` and `v`, and the text itself
/// otherwise.
pub open spec fn unescape(text: Seq<char>) -> Seq<char> {
    if text == seq!['b'] {
        seq!['\u{8}']
    } else if text == seq!['f'] {
        seq!['\u{C}']
    } else if text == seq!['n'] {
        seq!['\n']
    } else if text == seq!['r'] {
        seq!['\r']
    } else if text == seq!['t'] {
        seq!['\t']
    } else if text == seq!['v'] {
        seq!['\u{B}']
    } else {
        text
    }
}

/// Whether `v` is a high surrogate, the first half of a surrogate pair.
pub open spec fn is_high_surrogate(v: u32) -> bool {
    0xD800 <= v <= 0xDBFF
}

/// Whether `v` is a low surrogate, the second half of a surrogate pair.
pub open spec fn is_low_surrogate(v: u32) -> bool {
    0xDC00 <= v <= 0xDFFF
}

/// The code point that the surrogate pair of `high` and `low` encodes in
/// UTF-16: the ten bits of `high` above the ten bits of `low`, counted from
/// U+10000 on.
pub open spec fn combine_surrogates(high: u32, low: u32) -> u32 {
    (0x1_0000 + (high - 0xD800) * 0x400 + (low - 0xDC00)) as u32
}

/// Every surrogate pair encodes a character beyond U+FFFF, and the pair is
/// the encoding of that character in UTF-16: its high surrogate holds the
/// upper ten bits of the code point less 0x10000, its low surrogate the
/// lower ten.
pub proof fn lemma_surrogate_pair(high: u32, low: u32)
    requires
        is_high_surrogate(high),
        is_low_surrogate(low),
    ensures
        0x1_0000 <= combine_surrogates(high, low) <= 0x10_FFFF,
        is_scalar_value(combine_surrogates(high, low) as int),
        (combine_surrogates(high, low) - 0x1_0000) / 0x400 == high - 0xD800,
        (combine_surrogates(high, low) - 0x1_0000) % 0x400 == low - 0xDC00,
{
}

/// What one step of decoding gives: text and the index of the component to
/// go on with, or the error.
pub enum Decoded {
    Text(Seq<char>, int),
    Failed(ErrorView),
}

/// The character with the code point `v`, if there is one; else `error`.
pub open spec fn character(v: u32, next: int, error: ErrorView) -> Decoded {
    if is_scalar_value(v as int) {
        Decoded::Text(seq![v as char], next)
    } else {
        Decoded::Failed(error)
    }
}

/// What the Unicode escape at index `i` of `parts` stands for. A low
/// surrogate alone is an error. A high surrogate needs a Unicode escape
/// with a low surrogate right behind it, and the two stand for one character.
pub open spec fn decode_unicode_escape(parts: Seq<SyntaxTree>, i: int, location: Location) -> Decoded {
    let bad_format = ErrorView::NumberFormat(Some(location));
    let bad_unicode = ErrorView::Unicode(Some(location));
    match parse_u32_text(parts[i].text, 16) {
        None => Decoded::Failed(bad_format),
        Some(v) => {
            if is_low_surrogate(v) {
                Decoded::Failed(bad_unicode)
            } else if is_high_surrogate(v) {
                if i + 1 >= parts.len() || parts[i + 1].rule != Rule::UnicodeEscapeSequence {
                    Decoded::Failed(bad_unicode)
                } else {
                    match parse_u32_text(parts[i + 1].text, 16) {
                        None => Decoded::Failed(bad_format),
                        Some(w) => {
                            if is_low_surrogate(w) {
                                character(combine_surrogates(v, w), i + 2, bad_unicode)
                            } else {
                                Decoded::Failed(bad_unicode)
                            }
                        },
                    }
                }
            } else {
                character(v, i + 1, bad_unicode)
            }
        },
    }
}

/// What the component at index `i` of `parts` stands for.
pub open spec fn decode_component(parts: Seq<SyntaxTree>, i: int, location: Location) -> Decoded {
    match parts[i].rule {
        Rule::CharEscapeSequence => Decoded::Text(unescape(parts[i].text), i + 1),
        Rule::NulEscapeSequence => Decoded::Text(seq!['\0'], i + 1),
        Rule::HexEscapeSequence => match parse_u32_text(parts[i].text, 16) {
            None => Decoded::Failed(ErrorView::NumberFormat(Some(location))),
            Some(v) => character(v, i + 1, ErrorView::NumberFormat(Some(location))),
        },
        Rule::UnicodeEscapeSequence => decode_unicode_escape(parts, i, location),
        _ => Decoded::Text(parts[i].text, i + 1),
    }
}

/// Whether the component `part` is a Unicode escape with the value `v`.
pub open spec fn is_unicode_escape(part: SyntaxTree, v: u32) -> bool {
    part.rule == Rule::UnicodeEscapeSequence && parse_u32_text(part.text, 16) == Some(v)
}

/// `text` in front of the text of `rest`.
pub open spec fn prefixed(text: Seq<char>, rest: Result<Seq<char>, ErrorView>) -> Result<
    Seq<char>,
    ErrorView,
> {
    match rest {
        Ok(more) => Ok(text + more),
        Err(e) => Err(e),
    }
}

/// The text that the components of `parts` from index `i` on stand for, or
/// the first error among them. Errors are reported at `location`.
pub open spec fn decode_from(parts: Seq<SyntaxTree>, i: int, location: Location) -> Result<
    Seq<char>,
    ErrorView,
>
    decreases parts.len() - i,
{
    if i < 0 || i >= parts.len() {
        Ok(Seq::empty())
    } else {
        match decode_component(parts, i, location) {
            Decoded::Text(text, next) => {
                if next > i {
                    prefixed(text, decode_from(parts, next, location))
                } else {
                    // No step stays where it is.
                    Ok(Seq::empty())
                }
            },
            Decoded::Failed(e) => Err(e),
        }
    }
}

/// The text that the string or identifier `tree` stands for.
pub open spec fn decode_text(tree: SyntaxTree) -> Result<Seq<char>, ErrorView> {
    decode_from(tree.children, 0, tree.location)
}

/// The escapes of a surrogate pair, one behind the other, stand for the one
/// character that the pair encodes in UTF-16; there is no pair that they
/// fail on.
pub proof fn lemma_decode_surrogate_pair(
    parts: Seq<SyntaxTree>,
    high: u32,
    low: u32,
    location: Location,
)
    requires
        parts.len() == 2,
        is_unicode_escape(parts[0], high),
        is_unicode_escape(parts[1], low),
        is_high_surrogate(high),
        is_low_surrogate(low),
    ensures
        decode_from(parts, 0, location) == Ok::<_, ErrorView>(
            seq![combine_surrogates(high, low) as char],
        ),
{
    lemma_surrogate_pair(high, low);
    let c = combine_surrogates(high, low) as char;
    assert(decode_component(parts, 0, location) == Decoded::Text(seq![c], 2));
    assert(decode_from(parts, 2, location) == Ok::<_, ErrorView>(Seq::<char>::empty()));
    assert(seq![c] + Seq::<char>::empty() =~= seq![c]);
}

proof fn lemma_prefixed(before: Seq<char>, text: Seq<char>, rest: Result<Seq<char>, ErrorView>)
    ensures
        prefixed(before, prefixed(text, rest)) == prefixed(before + text, rest),
        prefixed(Seq::empty(), rest) == rest,
        prefixed(before, Ok(Seq::empty())) == Ok::<_, ErrorView>(before),
{
    if let Ok(more) = rest {
        assert(before + (text + more) =~= (before + text) + more);
        assert(Seq::<char>::empty() + more =~= more);
    }
    assert(before + Seq::<char>::empty() =~= before);
}

/// What a step of the decoder gives.
enum Step {
    Text(usize),
    Failed(JsonError),
}

fn push_character(out: &mut String, v: u32, next: usize, error: JsonError) -> (r: Step)
    ensures
        match character(v, next as int, error@) {
            Decoded::Text(text, n) => r == Step::Text(next) && n == next && final(out)@ == old(out)@
                + text,
            Decoded::Failed(e) => r matches Step::Failed(x) && x@ == e,
        },
{
    match char::from_u32(v) {
        Some(c) => {
            out.push(c);
            assert(out@ =~= old(out)@ + seq![c]);
            Step::Text(next)
        },
        None => Step::Failed(error),
    }
}

fn unescape_into(out: &mut String, text: &String)
    ensures
        final(out)@ == old(out)@ + unescape(text@),
{
    let s = to_chars(text.as_str());
    if s.len() == 1 {
        let c = s[0];
        assert(s@ =~= seq![c]);
        let d = if c == 'b' {
            '\u{8}'
        } else if c == 'f' {
            '\u{C}'
        } else if c == 'n' {
            '\n'
        } else if c == 'r' {
            '\r'
        } else if c == 't' {
            '\t'
        } else if c == 'v' {
            '\u{B}'
        } else {
            c
        };
        assert(unescape(s@) =~= seq![d]) by {
            assert(seq!['b'][0] == 'b');
            assert(seq!['f'][0] == 'f');
            assert(seq!['n'][0] == 'n');
            assert(seq!['r'][0] == 'r');
            assert(seq!['t'][0] == 't');
            assert(seq!['v'][0] == 'v');
        }
        out.push(d);
        assert(out@ =~= old(out)@ + seq![d]);
    } else {
        assert(unescape(s@) == s@) by {
            assert(seq!['b'].len() == 1);
            assert(seq!['f'].len() == 1);
            assert(seq!['n'].len() == 1);
            assert(seq!['r'].len() == 1);
            assert(seq!['t'].len() == 1);
            assert(seq!['v'].len() == 1);
        }
        out.append(text.as_str());
    }
}

fn combine(high: u32, low: u32) -> (r: u32)
    requires
        is_high_surrogate(high),
        is_low_surrogate(low),
    ensures
        r == combine_surrogates(high, low),
{
    0x1_0000 + (high - 0xD800) * 0x400 + (low - 0xDC00)
}

fn decode_unicode(out: &mut String, parts: &Vec<SyntaxNode>, i: usize, location: Location) -> (r:
    Step)
    requires
        i < parts.len(),
    ensures
        match decode_unicode_escape(crate::syntax::trees_of(parts@), i as int, location) {
            Decoded::Text(text, n) => r == Step::Text(n as usize) && i < n <= parts.len()
                && final(out)@ == old(out)@ + text,
            Decoded::Failed(e) => r matches Step::Failed(x) && x@ == e,
        },
{
    let text = to_chars(parts[i].text.as_str());
    match chars_to_u32(&text, 16) {
        None => Step::Failed(JsonError::NumberFormat(Some(location))),
        Some(v) => {
            if 0xDC00 <= v && v <= 0xDFFF {
                Step::Failed(JsonError::Unicode(Some(location)))
            } else if 0xD800 <= v && v <= 0xDBFF {
                if i + 1 >= parts.len() {
                    return Step::Failed(JsonError::Unicode(Some(location)));
                }
                if parts[i + 1].rule != Rule::UnicodeEscapeSequence {
                    return Step::Failed(JsonError::Unicode(Some(location)));
                }
                let second = to_chars(parts[i + 1].text.as_str());
                match chars_to_u32(&second, 16) {
                    None => Step::Failed(JsonError::NumberFormat(Some(location))),
                    Some(w) => {
                        if 0xDC00 <= w && w <= 0xDFFF {
                            push_character(
                                out,
                                combine(v, w),
                                i + 2,
                                JsonError::Unicode(Some(location)),
                            )
                        } else {
                            Step::Failed(JsonError::Unicode(Some(location)))
                        }
                    },
                }
            } else {
                push_character(out, v, i + 1, JsonError::Unicode(Some(location)))
            }
        },
    }
}

fn decode_one(out: &mut String, parts: &Vec<SyntaxNode>, i: usize, location: Location) -> (r: Step)
    requires
        i < parts.len(),
    ensures
        match decode_component(crate::syntax::trees_of(parts@), i as int, location) {
            Decoded::Text(text, n) => r == Step::Text(n as usize) && i < n <= parts.len()
                && final(out)@ == old(out)@ + text,
            Decoded::Failed(e) => r matches Step::Failed(x) && x@ == e,
        },
{
    match parts[i].rule {
        Rule::CharEscapeSequence => {
            unescape_into(out, &parts[i].text);
            Step::Text(i + 1)
        },
        Rule::NulEscapeSequence => {
            out.push('\0');
            assert(out@ =~= old(out)@ + seq!['\0']);
            Step::Text(i + 1)
        },
        Rule::HexEscapeSequence => {
            let text = to_chars(parts[i].text.as_str());
            match chars_to_u32(&text, 16) {
                None => Step::Failed(JsonError::NumberFormat(Some(location))),
                Some(v) => push_character(out, v, i + 1, JsonError::NumberFormat(Some(location))),
            }
        },
        Rule::UnicodeEscapeSequence => decode_unicode(out, parts, i, location),
        _ => {
            out.append(parts[i].text.as_str());
            Step::Text(i + 1)
        },
    }
}

/// Decodes the components of a string or identifier node into the text
/// that they stand for: literal text as it is, each escape as the character
/// that it names. Reports the first component that names none, at the
/// node's location.
pub fn parse_string(node: &SyntaxNode) -> (r: Result<String, JsonError>)
    ensures
        match decode_text(node@) {
            Ok(text) => r matches Ok(s) && s@ == text,
            Err(e) => r matches Err(x) && x@ == e,
        },
{
    let ghost parts = node@.children;
    let location = node.location;
    proof {
        node.lemma_children();
        lemma_prefixed(Seq::empty(), Seq::empty(), decode_from(parts, 0, location));
    }
    let mut out = String::new();
    let mut i: usize = 0;
    while i < node.children.len()
        invariant
            i <= node.children.len(),
            parts == crate::syntax::trees_of(node.children@),
            parts == node@.children,
            location == node@.location,
            parts.len() == node.children.len(),
            decode_from(parts, 0, location) == prefixed(out@, decode_from(parts, i as int, location)),
        decreases node.children.len() - i,
    {
        let ghost before = out@;
        match decode_one(&mut out, &node.children, i, location) {
            Step::Text(next) => {
                proof {
                    let text = decode_component(parts, i as int, location)->Text_0;
                    lemma_prefixed(before, text, decode_from(parts, next as int, location));
                }
                i = next;
            },
            Step::Failed(e) => {
                return Err(e);
            },
        }
    }
    proof {
        lemma_prefixed(out@, Seq::empty(), Ok(Seq::empty()));
    }
    Ok(out)
}

} // verus!
