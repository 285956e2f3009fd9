//! Character classes of the JSON5 grammar, and text as sequences of
//! characters.

use vstd::prelude::*;
use vstd::string::*;

verus! {

/// Whether `c` belongs to the Unicode general category Letter, as
/// `pest::unicode::LETTER` answers.
pub uninterp spec fn unicode_letter(c: char) -> bool;

/// Whether `c` belongs to the Unicode general category Letter_Number, as
/// `pest::unicode::LETTER_NUMBER` answers.
pub uninterp spec fn unicode_letter_number(c: char) -> bool;

/// Whether `c` belongs to the Unicode general category Nonspacing_Mark, as
/// `pest::unicode::NONSPACING_MARK` answers.
pub uninterp spec fn unicode_nonspacing_mark(c: char) -> bool;

/// Whether `c` belongs to the Unicode general category Spacing_Mark, as
/// `pest::unicode::SPACING_MARK` answers.
pub uninterp spec fn unicode_spacing_mark(c: char) -> bool;

/// Whether `c` belongs to the Unicode general category Decimal_Number, as
/// `pest::unicode::DECIMAL_NUMBER` answers.
pub uninterp spec fn unicode_decimal_number(c: char) -> bool;

/// Whether `c` belongs to the Unicode general category
/// Connector_Punctuation, as `pest::unicode::CONNECTOR_PUNCTUATION` answers.
pub uninterp spec fn unicode_connector_punctuation(c: char) -> bool;

/// Whether `c` belongs to the Unicode general category Space_Separator, as
/// `pest::unicode::SPACE_SEPARATOR` answers.
pub uninterp spec fn unicode_space_separator(c: char) -> bool;

/// `pest::unicode::LETTER` looks `c` up in a fixed table: the answer
/// depends on `c` alone.
pub assume_specification[ pest::unicode::LETTER ](c: char) -> (r: bool)
    ensures
        r == unicode_letter(c),
;

/// `pest::unicode::LETTER_NUMBER` looks `c` up in a fixed table: the answer
/// depends on `c` alone.
pub assume_specification[ pest::unicode::LETTER_NUMBER ](c: char) -> (r: bool)
    ensures
        r == unicode_letter_number(c),
;

/// `pest::unicode::NONSPACING_MARK` looks `c` up in a fixed table: the
/// answer depends on `c` alone.
pub assume_specification[ pest::unicode::NONSPACING_MARK ](c: char) -> (r: bool)
    ensures
        r == unicode_nonspacing_mark(c),
;

/// `pest::unicode::SPACING_MARK` looks `c` up in a fixed table: the answer
/// depends on `c` alone.
pub assume_specification[ pest::unicode::SPACING_MARK ](c: char) -> (r: bool)
    ensures
        r == unicode_spacing_mark(c),
;

/// `pest::unicode::DECIMAL_NUMBER` looks `c` up in a fixed table: the answer
/// depends on `c` alone.
pub assume_specification[ pest::unicode::DECIMAL_NUMBER ](c: char) -> (r: bool)
    ensures
        r == unicode_decimal_number(c),
;

/// `pest::unicode::CONNECTOR_PUNCTUATION` looks `c` up in a fixed table: the
/// answer depends on `c` alone.
pub assume_specification[ pest::unicode::CONNECTOR_PUNCTUATION ](c: char) -> (r: bool)
    ensures
        r == unicode_connector_punctuation(c),
;

/// `pest::unicode::SPACE_SEPARATOR` looks `c` up in a fixed table: the
/// answer depends on `c` alone.
pub assume_specification[ pest::unicode::SPACE_SEPARATOR ](c: char) -> (r: bool)
    ensures
        r == unicode_space_separator(c),
;

/// Whether `c` has the property White_Space of the Unicode Character
/// Database: the control characters from tab to carriage return, the space,
/// the next line, the no-break space, the Ogham space mark, the spaces
/// from en quad to hair space, the line and paragraph separators, the
/// narrow no-break space, the medium mathematical space and the
/// ideographic space.
pub open spec fn is_white_space(c: char) -> bool {
    '\u{9}' <= c <= '\u{D}' || c == ' ' || c == '\u{85}' || c == '\u{A0}' || c == '\u{1680}'
        || '\u{2000}' <= c <= '\u{200A}' || c == '\u{2028}' || c == '\u{2029}' || c == '\u{202F}'
        || c == '\u{205F}' || c == '\u{3000}'
}

/// `char::is_whitespace` tells whether `c` has the property White_Space of
/// the Unicode Character Database.
pub assume_specification[ char::is_whitespace ](c: char) -> (r: bool)
    ensures
        r == is_white_space(c),
;

/// `String::push` appends `c` to the end of the string.
pub assume_specification[ std::string::String::push ](s: &mut std::string::String, c: char)
    ensures
        final(s)@ == old(s)@.push(c),
;

/// Whether `v` is a Unicode scalar value: a code point that is no surrogate.
pub open spec fn is_scalar_value(v: int) -> bool {
    0 <= v <= 0xD7FF || 0xE000 <= v <= 0x10FFFF
}

/// `char::from_u32` gives the character with code point `v`, and `None`
/// where `v` is a surrogate or lies beyond U+10FFFF.
pub assume_specification[ char::from_u32 ](v: u32) -> (r: Option<char>)
    ensures
        is_scalar_value(v as int) ==> r == Some(v as char),
        !is_scalar_value(v as int) ==> r is None,
;

/// Whether `c` is an ASCII character.
pub open spec fn is_ascii(c: char) -> bool {
    (c as u32) < 0x80
}

/// Whether `c` is one of the decimal digits `0` to `9`.
pub open spec fn is_digit(c: char) -> bool {
    '0' <= c <= '9'
}

/// Whether `c` is a hexadecimal digit, in either case.
pub open spec fn is_hex_digit(c: char) -> bool {
    '0' <= c <= '9' || 'a' <= c <= 'f' || 'A' <= c <= 'F'
}

/// Whether `c` is an ASCII letter of either case.
pub open spec fn is_ascii_letter(c: char) -> bool {
    'a' <= c <= 'z' || 'A' <= c <= 'Z'
}

/// Whether `c` ends a line: line feed, carriage return, line separator or
/// paragraph separator.
pub open spec fn is_line_terminator(c: char) -> bool {
    c == '\n' || c == '\r' || c == '\u{2028}' || c == '\u{2029}'
}

/// Whether `c` is white space between tokens. Among the ASCII characters
/// these are tab, vertical tab, form feed, space, line feed and carriage
/// return; beyond them the no-break space, the byte order mark, the line
/// and paragraph separators and every space separator.
pub open spec fn is_space(c: char) -> bool {
    if is_ascii(c) {
        c == '\t' || c == '\u{B}' || c == '\u{C}' || c == ' ' || c == '\n' || c == '\r'
    } else {
        c == '\u{A0}' || c == '\u{FEFF}' || c == '\u{2028}' || c == '\u{2029}'
            || unicode_space_separator(c)
    }
}

/// Whether an identifier may begin with `c`: an ASCII letter, `$` or `_`,
/// or beyond ASCII a letter or letter number that ends no line.
pub open spec fn is_identifier_start(c: char) -> bool {
    if is_ascii(c) {
        is_ascii_letter(c) || c == '$' || c == '_'
    } else {
        (unicode_letter(c) || unicode_letter_number(c)) && !is_line_terminator(c)
    }
}

/// Whether an identifier may go on with `c`: what may begin one, an ASCII
/// digit, or beyond ASCII a combining mark, a decimal number, a connector
/// punctuation or one of the two zero-width joiners.
pub open spec fn is_identifier_part(c: char) -> bool {
    if is_ascii(c) {
        is_ascii_letter(c) || is_digit(c) || c == '$' || c == '_'
    } else {
        !is_line_terminator(c) && (unicode_letter(c) || unicode_letter_number(c)
            || unicode_nonspacing_mark(c) || unicode_spacing_mark(c) || unicode_decimal_number(c)
            || unicode_connector_punctuation(c) || c == '\u{200C}' || c == '\u{200D}')
    }
}

pub(crate) fn char_is_ascii(c: char) -> (r: bool)
    ensures
        r == is_ascii(c),
{
    (c as u32) < 0x80
}

pub(crate) fn char_is_digit(c: char) -> (r: bool)
    ensures
        r == is_digit(c),
{
    '0' <= c && c <= '9'
}

pub(crate) fn char_is_hex_digit(c: char) -> (r: bool)
    ensures
        r == is_hex_digit(c),
{
    ('0' <= c && c <= '9') || ('a' <= c && c <= 'f') || ('A' <= c && c <= 'F')
}

pub(crate) fn char_is_line_terminator(c: char) -> (r: bool)
    ensures
        r == is_line_terminator(c),
{
    c == '\n' || c == '\r' || c == '\u{2028}' || c == '\u{2029}'
}

pub(crate) fn char_is_space(c: char) -> (r: bool)
    ensures
        r == is_space(c),
{
    if char_is_ascii(c) {
        c == '\t' || c == '\u{B}' || c == '\u{C}' || c == ' ' || c == '\n' || c == '\r'
    } else {
        c == '\u{A0}' || c == '\u{FEFF}' || c == '\u{2028}' || c == '\u{2029}'
            || pest::unicode::SPACE_SEPARATOR(c)
    }
}

pub(crate) fn char_is_identifier_start(c: char) -> (r: bool)
    ensures
        r == is_identifier_start(c),
{
    if char_is_ascii(c) {
        ('a' <= c && c <= 'z') || ('A' <= c && c <= 'Z') || c == '$' || c == '_'
    } else {
        (pest::unicode::LETTER(c) || pest::unicode::LETTER_NUMBER(c)) && !char_is_line_terminator(c)
    }
}

pub(crate) fn char_is_identifier_part(c: char) -> (r: bool)
    ensures
        r == is_identifier_part(c),
{
    if char_is_ascii(c) {
        ('a' <= c && c <= 'z') || ('A' <= c && c <= 'Z') || ('0' <= c && c <= '9') || c == '$'
            || c == '_'
    } else {
        !char_is_line_terminator(c) && (pest::unicode::LETTER(c) || pest::unicode::LETTER_NUMBER(c)
            || pest::unicode::NONSPACING_MARK(c) || pest::unicode::SPACING_MARK(c)
            || pest::unicode::DECIMAL_NUMBER(c) || pest::unicode::CONNECTOR_PUNCTUATION(c)
            || c == '\u{200C}' || c == '\u{200D}')
    }
}

/// The characters of `s`, in order.
pub(crate) fn to_chars(s: &str) -> (r: Vec<char>)
    ensures
        r@ == s@,
{
    let mut out: Vec<char> = Vec::new();
    let it = s.chars();
    for c in iter: it
        invariant
            iter.seq() == s@,
            out@ == iter.seq().take(iter.index() as int),
    {
        out.push(c);
    }
    out
}

/// The string made of the characters `s[from..to]`.
pub(crate) fn to_string(s: &Vec<char>, from: usize, to: usize) -> (r: String)
    requires
        from <= to <= s.len(),
    ensures
        r@ == s@.subrange(from as int, to as int),
{
    let mut out = String::new();
    let mut i: usize = from;
    while i < to
        invariant
            from <= i <= to <= s.len(),
            out@ == s@.subrange(from as int, i as int),
        decreases to - i,
    {
        out.push(s[i]);
        i += 1;
        assert(out@ =~= s@.subrange(from as int, i as int));
    }
    out
}

/// Whether `s` holds the characters of `lit` from index `pos` on.
pub open spec fn starts_with(s: Seq<char>, pos: int, lit: Seq<char>) -> bool {
    0 <= pos && pos + lit.len() <= s.len() && s.subrange(pos, pos + lit.len()) == lit
}

/// Tells whether `s` holds the characters of `lit` from index `pos` on.
pub(crate) fn has_prefix_at(s: &Vec<char>, pos: usize, lit: &str) -> (r: bool)
    requires
        pos <= s.len(),
    ensures
        r == starts_with(s@, pos as int, lit@),
{
    let n = lit.unicode_len();
    if n > s.len() - pos {
        return false;
    }
    let mut i: usize = 0;
    while i < n
        invariant
            pos + n <= s.len(),
            n == lit@.len(),
            i <= n,
            s@.subrange(pos as int, pos + i) == lit@.take(i as int),
        decreases n - i,
    {
        if s[pos + i] != lit.get_char(i) {
            assert(s@.subrange(pos as int, pos + n)[i as int] != lit@[i as int]);
            return false;
        }
        i += 1;
        assert(s@.subrange(pos as int, pos + i) =~= lit@.take(i as int));
    }
    assert(lit@.take(n as int) =~= lit@);
    true
}

} // verus!
