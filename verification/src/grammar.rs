//! The JSON5 grammar, stated as functions from a text and a position in it
//! to what is matched there.
//!
//! A text is a sequence of characters and a position an index into it.
//! Every function here is a definition: the scanner proves that it computes
//! them.
//!
//! ```text
//! text       = value                      with white space and comments around
//! value      = "null" | "true" | "false" | string | number | array | object
//! array      = "[" (value ("," value)* ","?)? "]"
//! object     = "{" (member ("," member)* ","?)? "}"
//! member     = key ":" value
//! key        = identifier | string
//! string     = '"' piece* '"' | "'" piece* "'"
//! piece      = a character but the quote, "\" and the line terminators
//!            | "\" escape | "\" line terminator
//! escape     = "0" | "x" hex hex | "u" hex hex hex hex
//!            | a character but the digits, "x", "u" and the line terminators
//! identifier = start part*                where "\u" hex hex hex hex is both
//! number     = ("+" | "-")? ("0x" hex+ | decimal | "Infinity" | "NaN")
//! decimal    = whole ("." digit*)? exponent? | "." digit+ exponent?
//! whole      = "0" | digit+               that begins with no "0"
//! exponent   = ("e" | "E") ("+" | "-")? digit+
//! comment    = "//" to the end of the line | "/*" to the next "*/"
//! ```
//!
//! White space and comments may stand between the values and marks of
//! arrays and objects, and nowhere inside a number, string or identifier.

use crate::chars::{
    is_digit, is_hex_digit, is_identifier_part, is_identifier_start, is_line_terminator, is_space,
    starts_with,
};
use crate::error::{ErrorView, Location};
use crate::syntax::{Rule, SyntaxTree};
use vstd::prelude::*;
use vstd::string::*;

verus! {

/// What the grammar wanted at the place where matching failed.
#[derive(Copy, Clone, Debug, PartialEq, Eq, Structural)]
pub enum Expected {
    /// A value.
    Value,
    /// An object key: an identifier or a string.
    Key,
    /// The colon between a key and its value.
    Colon,
    /// A comma or the bracket that closes an array.
    ArrayEnd,
    /// A comma or the brace that closes an object.
    ObjectEnd,
    /// A string character, an escape or the closing quote.
    StringEnd,
    /// The end of the text.
    TextEnd,
}

impl Expected {
    /// The message of the syntax error.
    pub open spec fn message(self) -> Seq<char> {
        match self {
            Expected::Value => "expected a value"@,
            Expected::Key => "expected an object key"@,
            Expected::Colon => "expected `:`"@,
            Expected::ArrayEnd => "expected `,` or `]`"@,
            Expected::ObjectEnd => "expected `,` or `}`"@,
            Expected::StringEnd => "expected a string character, an escape or the closing quote"@,
            Expected::TextEnd => "expected the end of the text"@,
        }
    }

    /// The message of the syntax error.
    pub fn describe(self) -> (r: String)
        ensures
            r@ == self.message(),
    {
        match self {
            Expected::Value => String::from_str("expected a value"),
            Expected::Key => String::from_str("expected an object key"),
            Expected::Colon => String::from_str("expected `:`"),
            Expected::ArrayEnd => String::from_str("expected `,` or `]`"),
            Expected::ObjectEnd => String::from_str("expected `,` or `}`"),
            Expected::StringEnd => String::from_str(
                "expected a string character, an escape or the closing quote",
            ),
            Expected::TextEnd => String::from_str("expected the end of the text"),
        }
    }
}

/// A failed match: the position that could not be matched, and what the
/// grammar wanted there.
pub struct Failure {
    pub position: int,
    pub expected: Expected,
}

/// A matched node and the position behind it, or the failure.
pub type Lexed = Result<(SyntaxTree, int), Failure>;

/// A matched run of nodes and the position behind it, or the failure.
pub type LexedRun = Result<(Seq<SyntaxTree>, int), Failure>;

/// The one-based line of position `pos`: one more than the number of line
/// feeds before it.
pub open spec fn line_at(s: Seq<char>, pos: int) -> int
    decreases pos,
{
    if pos <= 0 || pos > s.len() {
        1
    } else if s[pos - 1] == '\n' {
        line_at(s, pos - 1) + 1
    } else {
        line_at(s, pos - 1)
    }
}

/// The one-based column of position `pos`: one more than the number of
/// characters between it and the last line feed before it.
pub open spec fn column_at(s: Seq<char>, pos: int) -> int
    decreases pos,
{
    if pos <= 0 || pos > s.len() {
        1
    } else if s[pos - 1] == '\n' {
        1
    } else {
        column_at(s, pos - 1) + 1
    }
}

/// The location of position `pos` in the text `s`.
pub open spec fn location_at(s: Seq<char>, pos: int) -> Location {
    Location { line: line_at(s, pos) as usize, column: column_at(s, pos) as usize }
}

/// The syntax error that reports the failure `f` in the text `s`.
pub open spec fn syntax_error(s: Seq<char>, f: Failure) -> ErrorView {
    ErrorView::Syntax(f.expected.message(), Some(location_at(s, f.position)))
}

/// The leaf for the text `s[from..to]`.
pub open spec fn leaf_at(rule: Rule, s: Seq<char>, from: int, to: int) -> SyntaxTree {
    SyntaxTree::leaf(rule, s.subrange(from, to), location_at(s, from))
}

/// The node that begins at `from` and holds `children`.
pub open spec fn branch_at(rule: Rule, s: Seq<char>, from: int, children: Seq<SyntaxTree>) -> SyntaxTree {
    SyntaxTree::branch(rule, location_at(s, from), children)
}

/// `t` in front of the nodes of `rest`.
pub open spec fn prepend(t: SyntaxTree, rest: LexedRun) -> LexedRun {
    match rest {
        Ok((ts, end)) => Ok((seq![t] + ts, end)),
        Err(f) => Err(f),
    }
}

/// The word `null`.
pub open spec fn null_text() -> Seq<char> {
    seq!['n', 'u', 'l', 'l']
}

/// The word `true`.
pub open spec fn true_text() -> Seq<char> {
    seq!['t', 'r', 'u', 'e']
}

/// The word `false`.
pub open spec fn false_text() -> Seq<char> {
    seq!['f', 'a', 'l', 's', 'e']
}

/// The word `Infinity`.
pub open spec fn infinity_text() -> Seq<char> {
    seq!['I', 'n', 'f', 'i', 'n', 'i', 't', 'y']
}

/// The word `NaN`.
pub open spec fn nan_text() -> Seq<char> {
    seq!['N', 'a', 'N']
}

/// Whether the character at `pos` is `c`.
pub open spec fn is_at(s: Seq<char>, pos: int, c: char) -> bool {
    0 <= pos < s.len() && s[pos] == c
}

// White space and comments

/// The end of a line comment whose text begins at `pos`: the first line
/// terminator from there on, or the end of the text.
pub open spec fn line_comment_end(s: Seq<char>, pos: int) -> int
    decreases s.len() - pos,
{
    if pos < 0 || pos >= s.len() || is_line_terminator(s[pos]) {
        pos
    } else {
        line_comment_end(s, pos + 1)
    }
}

/// The position behind the first `*/` from `pos` on, if there is one.
pub open spec fn block_comment_end(s: Seq<char>, pos: int) -> Option<int>
    decreases s.len() - pos,
{
    if pos < 0 || pos + 1 >= s.len() {
        None
    } else if s[pos] == '*' && s[pos + 1] == '/' {
        Some(pos + 2)
    } else {
        block_comment_end(s, pos + 1)
    }
}

/// The position behind the white space and comments that begin at `pos`.
/// A block comment that is never closed is no comment.
pub open spec fn trivia_end(s: Seq<char>, pos: int) -> int
    decreases s.len() - pos,
{
    if pos < 0 || pos >= s.len() {
        pos
    } else if is_space(s[pos]) {
        trivia_end(s, pos + 1)
    } else if is_at(s, pos, '/') && is_at(s, pos + 1, '/') {
        proof {
            lemma_line_comment_end(s, pos + 2);
        }
        trivia_end(s, line_comment_end(s, pos + 2))
    } else if is_at(s, pos, '/') && is_at(s, pos + 1, '*') {
        match block_comment_end(s, pos + 2) {
            Some(end) => {
                proof {
                    lemma_block_comment_end(s, pos + 2);
                }
                trivia_end(s, end)
            },
            None => pos,
        }
    } else {
        pos
    }
}

/// A line comment ends behind its beginning and inside the text.
pub proof fn lemma_line_comment_end(s: Seq<char>, pos: int)
    requires
        0 <= pos <= s.len(),
    ensures
        pos <= line_comment_end(s, pos) <= s.len(),
    decreases s.len() - pos,
{
    if pos < s.len() && !is_line_terminator(s[pos]) {
        lemma_line_comment_end(s, pos + 1);
    }
}

/// A block comment ends behind its closing mark and inside the text.
pub proof fn lemma_block_comment_end(s: Seq<char>, pos: int)
    requires
        0 <= pos <= s.len(),
    ensures
        block_comment_end(s, pos) matches Some(end) ==> pos + 2 <= end <= s.len(),
    decreases s.len() - pos,
{
    if pos + 1 < s.len() && !(s[pos] == '*' && s[pos + 1] == '/') {
        lemma_block_comment_end(s, pos + 1);
    }
}

/// White space and comments end behind their beginning and inside the text.
pub proof fn lemma_trivia_end(s: Seq<char>, pos: int)
    requires
        0 <= pos <= s.len(),
    ensures
        pos <= trivia_end(s, pos) <= s.len(),
    decreases s.len() - pos,
{
    if pos < s.len() {
        if is_space(s[pos]) {
            lemma_trivia_end(s, pos + 1);
        } else if is_at(s, pos, '/') && is_at(s, pos + 1, '/') {
            lemma_line_comment_end(s, pos + 2);
            lemma_trivia_end(s, line_comment_end(s, pos + 2));
        } else if is_at(s, pos, '/') && is_at(s, pos + 1, '*') {
            lemma_block_comment_end(s, pos + 2);
            if let Some(end) = block_comment_end(s, pos + 2) {
                lemma_trivia_end(s, end);
            }
        }
    }
}

// Numbers

/// The position behind the decimal digits that begin at `pos`.
pub open spec fn digits_end(s: Seq<char>, pos: int) -> int
    decreases s.len() - pos,
{
    if pos < 0 || pos >= s.len() || !is_digit(s[pos]) {
        pos
    } else {
        digits_end(s, pos + 1)
    }
}

/// The position behind the hexadecimal digits that begin at `pos`.
pub open spec fn hex_digits_end(s: Seq<char>, pos: int) -> int
    decreases s.len() - pos,
{
    if pos < 0 || pos >= s.len() || !is_hex_digit(s[pos]) {
        pos
    } else {
        hex_digits_end(s, pos + 1)
    }
}

/// The position behind the exponent that begins at `pos`: `e` or `E`, a
/// sign if there is one, and at least one digit. Where there is no such
/// exponent, `pos` itself.
pub open spec fn exponent_end(s: Seq<char>, pos: int) -> int {
    if is_at(s, pos, 'e') || is_at(s, pos, 'E') {
        let digits = if is_at(s, pos + 1, '+') || is_at(s, pos + 1, '-') {
            pos + 2
        } else {
            pos + 1
        };
        if digits_end(s, digits) > digits {
            digits_end(s, digits)
        } else {
            pos
        }
    } else {
        pos
    }
}

/// The position behind the decimal literal that begins at `pos`: digits
/// with a point or an exponent or neither, where the digits before the
/// point are a single `0` or begin with another digit, or a point and
/// digits behind it.
pub open spec fn decimal_end(s: Seq<char>, pos: int) -> Option<int> {
    if 0 <= pos < s.len() && is_digit(s[pos]) {
        let whole = if s[pos] == '0' {
            pos + 1
        } else {
            digits_end(s, pos)
        };
        if is_at(s, whole, '.') {
            Some(exponent_end(s, digits_end(s, whole + 1)))
        } else {
            Some(exponent_end(s, whole))
        }
    } else if is_at(s, pos, '.') && digits_end(s, pos + 1) > pos + 1 {
        Some(exponent_end(s, digits_end(s, pos + 1)))
    } else {
        None
    }
}

/// The position behind the unsigned numeric literal that begins at `pos`: a
/// hexadecimal literal, a decimal literal, `Infinity` or `NaN`.
pub open spec fn numeric_end(s: Seq<char>, pos: int) -> Option<int> {
    if is_at(s, pos, '0') && (is_at(s, pos + 1, 'x') || is_at(s, pos + 1, 'X')) && hex_digits_end(
        s,
        pos + 2,
    ) > pos + 2 {
        Some(hex_digits_end(s, pos + 2))
    } else if decimal_end(s, pos) is Some {
        decimal_end(s, pos)
    } else if starts_with(s, pos, infinity_text()) {
        Some(pos + 8)
    } else if starts_with(s, pos, nan_text()) {
        Some(pos + 3)
    } else {
        None
    }
}

/// The position behind the number that begins at `pos`: a sign, if there is
/// one, and a numeric literal.
pub open spec fn number_end(s: Seq<char>, pos: int) -> Option<int> {
    if is_at(s, pos, '+') || is_at(s, pos, '-') {
        numeric_end(s, pos + 1)
    } else {
        numeric_end(s, pos)
    }
}

/// Digits end behind their beginning and inside the text.
pub proof fn lemma_digits_end(s: Seq<char>, pos: int)
    requires
        0 <= pos,
    ensures
        pos <= digits_end(s, pos),
        pos <= s.len() ==> digits_end(s, pos) <= s.len(),
    decreases s.len() - pos,
{
    if pos < s.len() && is_digit(s[pos]) {
        lemma_digits_end(s, pos + 1);
    }
}

/// Hexadecimal digits end behind their beginning and inside the text.
pub proof fn lemma_hex_digits_end(s: Seq<char>, pos: int)
    requires
        0 <= pos,
    ensures
        pos <= hex_digits_end(s, pos),
        pos <= s.len() ==> hex_digits_end(s, pos) <= s.len(),
    decreases s.len() - pos,
{
    if pos < s.len() && is_hex_digit(s[pos]) {
        lemma_hex_digits_end(s, pos + 1);
    }
}

/// An exponent ends behind its beginning and inside the text.
pub proof fn lemma_exponent_end(s: Seq<char>, pos: int)
    requires
        0 <= pos <= s.len(),
    ensures
        pos <= exponent_end(s, pos) <= s.len(),
{
    lemma_digits_end(s, pos + 1);
    lemma_digits_end(s, pos + 2);
}

/// A number holds at least one character and ends inside the text.
pub proof fn lemma_number_end(s: Seq<char>, pos: int)
    requires
        0 <= pos <= s.len(),
    ensures
        number_end(s, pos) matches Some(end) ==> pos < end <= s.len(),
{
    let p = if is_at(s, pos, '+') || is_at(s, pos, '-') {
        pos + 1
    } else {
        pos
    };
    lemma_hex_digits_end(s, p + 2);
    lemma_digits_end(s, p);
    lemma_digits_end(s, p + 1);
    if p < s.len() {
        let whole = if s[p] == '0' {
            p + 1
        } else {
            digits_end(s, p)
        };
        if is_digit(s[p]) {
            assert(digits_end(s, p) == digits_end(s, p + 1));
            lemma_digits_end(s, whole + 1);
            if whole + 1 <= s.len() {
                lemma_exponent_end(s, digits_end(s, whole + 1));
            }
            lemma_exponent_end(s, whole);
        }
        if digits_end(s, p + 1) <= s.len() {
            lemma_exponent_end(s, digits_end(s, p + 1));
        }
    }
}

// Strings and identifiers

/// What stands at one position inside a string.
pub enum Piece {
    /// A component, and the position behind it.
    Part(SyntaxTree, int),
    /// A line continuation, which stands for nothing, and the position behind it.
    Skip(int),
    /// The closing quote.
    Close,
    /// Nothing that a string may hold.
    Bad,
}

/// Whether two hexadecimal digits stand at `pos`.
pub open spec fn two_hex_digits_at(s: Seq<char>, pos: int) -> bool {
    0 <= pos && pos + 2 <= s.len() && is_hex_digit(s[pos]) && is_hex_digit(s[pos + 1])
}

/// Whether four hexadecimal digits stand at `pos`.
pub open spec fn four_hex_digits_at(s: Seq<char>, pos: int) -> bool {
    two_hex_digits_at(s, pos) && two_hex_digits_at(s, pos + 2)
}

/// What the escape stands for whose backslash is just before `pos`.
///
/// `0` is the NUL escape, `x` with two hexadecimal digits and `u` with four
/// are the numeric escapes, a line terminator (a carriage return together
/// with a line feed behind it) continues the line, and any character but a
/// digit, `x` or `u` stands for itself or for a control character.
pub open spec fn escape_piece(s: Seq<char>, pos: int) -> Piece {
    if pos < 0 || pos >= s.len() {
        Piece::Bad
    } else if !(is_digit(s[pos]) || s[pos] == 'x' || s[pos] == 'u' || is_line_terminator(s[pos])) {
        Piece::Part(leaf_at(Rule::CharEscapeSequence, s, pos, pos + 1), pos + 1)
    } else if s[pos] == '0' {
        Piece::Part(leaf_at(Rule::NulEscapeSequence, s, pos, pos + 1), pos + 1)
    } else if s[pos] == 'x' && two_hex_digits_at(s, pos + 1) {
        Piece::Part(leaf_at(Rule::HexEscapeSequence, s, pos + 1, pos + 3), pos + 3)
    } else if s[pos] == 'u' && four_hex_digits_at(s, pos + 1) {
        Piece::Part(leaf_at(Rule::UnicodeEscapeSequence, s, pos + 1, pos + 5), pos + 5)
    } else if s[pos] == '\r' && is_at(s, pos + 1, '\n') {
        Piece::Skip(pos + 2)
    } else if is_line_terminator(s[pos]) {
        Piece::Skip(pos + 1)
    } else {
        Piece::Bad
    }
}

/// What stands at `pos` inside a string that `quote` closes.
pub open spec fn string_piece(s: Seq<char>, pos: int, quote: char) -> Piece {
    if pos < 0 || pos >= s.len() {
        Piece::Bad
    } else if s[pos] == quote {
        Piece::Close
    } else if s[pos] == '\\' {
        escape_piece(s, pos + 1)
    } else if is_line_terminator(s[pos]) {
        Piece::Bad
    } else {
        Piece::Part(leaf_at(Rule::CharLiteral, s, pos, pos + 1), pos + 1)
    }
}

/// The components of the string that goes on at `pos` and that `quote`
/// closes, and the position behind the closing quote.
pub open spec fn string_parts(s: Seq<char>, pos: int, quote: char) -> LexedRun
    decreases s.len() - pos,
{
    match string_piece(s, pos, quote) {
        Piece::Part(t, next) => prepend(t, string_parts(s, next, quote)),
        Piece::Skip(next) => string_parts(s, next, quote),
        Piece::Close => Ok((Seq::empty(), pos + 1)),
        Piece::Bad => Err(Failure { position: pos, expected: Expected::StringEnd }),
    }
}

/// The string whose opening quote stands at `pos`.
pub open spec fn lex_string(s: Seq<char>, pos: int) -> Lexed {
    if !(is_at(s, pos, '"') || is_at(s, pos, '\'')) {
        Err(Failure { position: pos, expected: Expected::Value })
    } else {
        match string_parts(s, pos + 1, s[pos]) {
            Ok((parts, end)) => Ok((branch_at(Rule::String, s, pos, parts), end)),
            Err(f) => Err(f),
        }
    }
}

/// The components of the identifier that goes on at `pos`, and the position
/// behind it. An identifier is made of identifier characters and of escapes
/// `\uHHHH`; `first` tells whether `pos` is where it begins.
pub open spec fn identifier_parts(s: Seq<char>, pos: int, first: bool) -> (Seq<SyntaxTree>, int)
    decreases s.len() - pos,
{
    if pos < 0 || pos >= s.len() {
        (Seq::empty(), pos)
    } else if s[pos] == '\\' && is_at(s, pos + 1, 'u') && four_hex_digits_at(s, pos + 2) {
        let rest = identifier_parts(s, pos + 6, false);
        (seq![leaf_at(Rule::UnicodeEscapeSequence, s, pos + 2, pos + 6)] + rest.0, rest.1)
    } else if (first && is_identifier_start(s[pos])) || (!first && is_identifier_part(s[pos])) {
        let rest = identifier_parts(s, pos + 1, false);
        (seq![leaf_at(Rule::CharLiteral, s, pos, pos + 1)] + rest.0, rest.1)
    } else {
        (Seq::empty(), pos)
    }
}

/// The object key that begins at `pos`: a string or an identifier.
pub open spec fn lex_key(s: Seq<char>, pos: int) -> Lexed {
    if is_at(s, pos, '"') || is_at(s, pos, '\'') {
        lex_string(s, pos)
    } else {
        let (parts, end) = identifier_parts(s, pos, true);
        if end > pos {
            Ok((branch_at(Rule::Identifier, s, pos, parts), end))
        } else {
            Err(Failure { position: pos, expected: Expected::Key })
        }
    }
}

/// What a string holds are components, and the string ends behind its
/// beginning and inside the text; a failure lies in between.
pub proof fn lemma_string_parts(s: Seq<char>, pos: int, quote: char)
    requires
        0 <= pos <= s.len(),
    ensures
        match string_parts(s, pos, quote) {
            Ok((parts, end)) => pos < end <= s.len() && forall|i: int|
                0 <= i < parts.len() ==> (#[trigger] parts[i]).is_component(),
            Err(f) => pos <= f.position <= s.len(),
        },
    decreases s.len() - pos,
{
    match string_piece(s, pos, quote) {
        Piece::Part(t, next) => {
            lemma_string_parts(s, next, quote);
        },
        Piece::Skip(next) => {
            lemma_string_parts(s, next, quote);
        },
        _ => {},
    }
}

/// What an identifier holds are components, and it ends inside the text.
pub proof fn lemma_identifier_parts(s: Seq<char>, pos: int, first: bool)
    requires
        0 <= pos <= s.len(),
    ensures
        pos <= identifier_parts(s, pos, first).1 <= s.len(),
        forall|i: int|
            0 <= i < identifier_parts(s, pos, first).0.len() ==> (#[trigger] identifier_parts(
                s,
                pos,
                first,
            ).0[i]).is_component(),
    decreases s.len() - pos,
{
    if pos < s.len() {
        if s[pos] == '\\' && is_at(s, pos + 1, 'u') && four_hex_digits_at(s, pos + 2) {
            lemma_identifier_parts(s, pos + 6, false);
        } else if (first && is_identifier_start(s[pos])) || (!first && is_identifier_part(s[pos])) {
            lemma_identifier_parts(s, pos + 1, false);
        }
    }
}

/// A matched key is a string or identifier made of components, and ends
/// behind its beginning and inside the text; a failure lies in between.
pub proof fn lemma_lex_key(s: Seq<char>, pos: int)
    requires
        0 <= pos <= s.len(),
    ensures
        match lex_key(s, pos) {
            Ok((t, end)) => pos < end <= s.len() && t.is_text(),
            Err(f) => pos <= f.position <= s.len(),
        },
{
    if is_at(s, pos, '"') || is_at(s, pos, '\'') {
        lemma_string_parts(s, pos + 1, s[pos]);
    } else {
        lemma_identifier_parts(s, pos, true);
    }
}

// Values

/// The value that begins at `pos`.
pub open spec fn lex_value(s: Seq<char>, pos: int) -> Lexed
    decreases s.len() - pos, 0int,
{
    if pos < 0 || pos >= s.len() {
        Err(Failure { position: pos, expected: Expected::Value })
    } else if starts_with(s, pos, null_text()) {
        Ok((leaf_at(Rule::Null, s, pos, pos + 4), pos + 4))
    } else if starts_with(s, pos, true_text()) {
        Ok((leaf_at(Rule::Boolean, s, pos, pos + 4), pos + 4))
    } else if starts_with(s, pos, false_text()) {
        Ok((leaf_at(Rule::Boolean, s, pos, pos + 5), pos + 5))
    } else if s[pos] == '"' || s[pos] == '\'' {
        lex_string(s, pos)
    } else if number_end(s, pos) is Some {
        Ok((leaf_at(Rule::Number, s, pos, number_end(s, pos).unwrap()), number_end(s, pos).unwrap()))
    } else if s[pos] == '[' {
        proof {
            lemma_trivia_end(s, pos + 1);
        }
        match lex_items(s, trivia_end(s, pos + 1)) {
            Ok((items, end)) => Ok((branch_at(Rule::Array, s, pos, items), end)),
            Err(f) => Err(f),
        }
    } else if s[pos] == '{' {
        proof {
            lemma_trivia_end(s, pos + 1);
        }
        match lex_members(s, trivia_end(s, pos + 1)) {
            Ok((members, end)) => Ok((branch_at(Rule::Object, s, pos, members), end)),
            Err(f) => Err(f),
        }
    } else {
        Err(Failure { position: pos, expected: Expected::Value })
    }
}

/// The elements of the array that goes on at `pos`, where an element or the
/// closing bracket is due, and the position behind the bracket. Elements
/// are parted by commas, and one comma may follow the last.
pub open spec fn lex_items(s: Seq<char>, pos: int) -> LexedRun
    decreases s.len() - pos, 1int,
{
    if is_at(s, pos, ']') {
        Ok((Seq::empty(), pos + 1))
    } else {
        match lex_value(s, pos) {
            Err(f) => Err(f),
            Ok((item, end)) => {
                let next = trivia_end(s, end);
                if end <= pos || end > s.len() {
                    // No value ends here: see `lemma_lex_value`.
                    Err(Failure { position: pos, expected: Expected::Value })
                } else if is_at(s, next, ',') {
                    proof {
                        lemma_trivia_end(s, end);
                        lemma_trivia_end(s, next + 1);
                    }
                    prepend(item, lex_items(s, trivia_end(s, next + 1)))
                } else if is_at(s, next, ']') {
                    Ok((seq![item], next + 1))
                } else {
                    Err(Failure { position: next, expected: Expected::ArrayEnd })
                }
            },
        }
    }
}

/// The members of the object that goes on at `pos`, where a member or the
/// closing brace is due, and the position behind the brace. A member is a
/// key, a colon and a value; members are parted by commas, and one comma may
/// follow the last.
pub open spec fn lex_members(s: Seq<char>, pos: int) -> LexedRun
    decreases s.len() - pos, 1int,
{
    if is_at(s, pos, '}') {
        Ok((Seq::empty(), pos + 1))
    } else if pos < 0 || pos > s.len() {
        Err(Failure { position: pos, expected: Expected::Key })
    } else {
        match lex_key(s, pos) {
            Err(f) => Err(f),
            Ok((key, key_end)) => {
                let colon = trivia_end(s, key_end);
                if !is_at(s, colon, ':') {
                    Err(Failure { position: colon, expected: Expected::Colon })
                } else {
                    proof {
                        lemma_lex_key(s, pos);
                        lemma_trivia_end(s, key_end);
                        lemma_trivia_end(s, colon + 1);
                    }
                    let start = trivia_end(s, colon + 1);
                    match lex_value(s, start) {
                        Err(f) => Err(f),
                        Ok((value, end)) => {
                            let member = branch_at(Rule::Pair, s, pos, seq![key, value]);
                            let next = trivia_end(s, end);
                            if end <= start || end > s.len() {
                                // No value ends here: see `lemma_lex_value`.
                                Err(Failure { position: start, expected: Expected::Value })
                            } else if is_at(s, next, ',') {
                                proof {
                                    lemma_trivia_end(s, end);
                                    lemma_trivia_end(s, next + 1);
                                }
                                prepend(member, lex_members(s, trivia_end(s, next + 1)))
                            } else if is_at(s, next, '}') {
                                Ok((seq![member], next + 1))
                            } else {
                                Err(Failure { position: next, expected: Expected::ObjectEnd })
                            }
                        },
                    }
                }
            },
        }
    }
}

/// The nodes `ts` in front of the nodes of `rest`.
pub open spec fn prepend_all(ts: Seq<SyntaxTree>, rest: LexedRun) -> LexedRun {
    match rest {
        Ok((more, end)) => Ok((ts + more, end)),
        Err(f) => Err(f),
    }
}

/// One more node in front of a run is one more node at the end of the
/// nodes in front of it.
pub proof fn lemma_prepend_more(ts: Seq<SyntaxTree>, t: SyntaxTree, rest: LexedRun)
    ensures
        prepend_all(ts, prepend(t, rest)) == prepend_all(ts.push(t), rest),
{
    if let Ok((more, end)) = rest {
        assert(ts + (seq![t] + more) =~= ts.push(t) + more);
    }
}

/// No nodes in front of a run change nothing.
pub proof fn lemma_prepend_none(rest: LexedRun)
    ensures
        prepend_all(Seq::empty(), rest) == rest,
{
    if let Ok((more, end)) = rest {
        assert(Seq::<SyntaxTree>::empty() + more =~= more);
    }
}

/// Nodes in front of an empty run are the run.
pub proof fn lemma_prepend_last(ts: Seq<SyntaxTree>, end: int)
    ensures
        prepend_all(ts, Ok((Seq::empty(), end))) == Ok::<_, Failure>((ts, end)),
{
    assert(ts + Seq::<SyntaxTree>::empty() =~= ts);
}

/// A matched value ends behind the place where it begins and inside the
/// text, and has the shape of a value; a failure lies in between.
pub proof fn lemma_lex_value(s: Seq<char>, pos: int)
    requires
        0 <= pos <= s.len(),
    ensures
        match lex_value(s, pos) {
            Ok((t, end)) => pos < end <= s.len() && t.is_value(),
            Err(f) => pos <= f.position <= s.len(),
        },
    decreases s.len() - pos, 0int,
{
    if pos < s.len() {
        if starts_with(s, pos, null_text()) || starts_with(s, pos, true_text()) || starts_with(
            s,
            pos,
            false_text(),
        ) {
        } else if s[pos] == '"' || s[pos] == '\'' {
            lemma_string_parts(s, pos + 1, s[pos]);
        } else if number_end(s, pos) is Some {
            lemma_number_end(s, pos);
        } else if s[pos] == '[' {
            lemma_trivia_end(s, pos + 1);
            lemma_lex_items(s, trivia_end(s, pos + 1));
        } else if s[pos] == '{' {
            lemma_trivia_end(s, pos + 1);
            lemma_lex_members(s, trivia_end(s, pos + 1));
        }
    }
}

/// Matched elements end inside the text and have the shape of values.
pub proof fn lemma_lex_items(s: Seq<char>, pos: int)
    requires
        0 <= pos <= s.len(),
    ensures
        match lex_items(s, pos) {
            Ok((items, end)) => pos < end <= s.len() && forall|i: int|
                0 <= i < items.len() ==> (#[trigger] items[i]).is_value(),
            Err(f) => pos <= f.position <= s.len(),
        },
    decreases s.len() - pos, 1int,
{
    if !is_at(s, pos, ']') {
        lemma_lex_value(s, pos);
        if let Ok((item, end)) = lex_value(s, pos) {
            let next = trivia_end(s, end);
            lemma_trivia_end(s, end);
            if is_at(s, next, ',') {
                lemma_trivia_end(s, next + 1);
                lemma_lex_items(s, trivia_end(s, next + 1));
            }
        }
    }
}

/// Matched members end inside the text and have the shape of members.
pub proof fn lemma_lex_members(s: Seq<char>, pos: int)
    requires
        0 <= pos <= s.len(),
    ensures
        match lex_members(s, pos) {
            Ok((members, end)) => pos < end <= s.len() && forall|i: int|
                0 <= i < members.len() ==> (#[trigger] members[i]).is_member(),
            Err(f) => pos <= f.position <= s.len(),
        },
    decreases s.len() - pos, 1int,
{
    if !is_at(s, pos, '}') {
        lemma_lex_key(s, pos);
        if let Ok((key, key_end)) = lex_key(s, pos) {
            let colon = trivia_end(s, key_end);
            lemma_trivia_end(s, key_end);
            if is_at(s, colon, ':') {
                lemma_trivia_end(s, colon + 1);
                let start = trivia_end(s, colon + 1);
                lemma_lex_value(s, start);
                if let Ok((value, end)) = lex_value(s, start) {
                    let member = branch_at(Rule::Pair, s, pos, seq![key, value]);
                    assert(member.is_member());
                    let next = trivia_end(s, end);
                    lemma_trivia_end(s, end);
                    if is_at(s, next, ',') {
                        lemma_trivia_end(s, next + 1);
                        lemma_lex_members(s, trivia_end(s, next + 1));
                    }
                }
            }
        }
    }
}

/// The syntax tree of a text has the shape of a value.
pub proof fn lemma_lex_text(s: Seq<char>)
    ensures
        match lex_text(s) {
            Ok(t) => t.is_value(),
            Err(f) => 0 <= f.position <= s.len(),
        },
{
    lemma_trivia_end(s, 0);
    lemma_lex_value(s, trivia_end(s, 0));
    if let Ok((tree, end)) = lex_value(s, trivia_end(s, 0)) {
        lemma_trivia_end(s, end);
    }
}

/// Lines and columns are counted from one and grow by at most one with
/// every character.
pub proof fn lemma_location_bounds(s: Seq<char>, pos: int)
    requires
        0 <= pos <= s.len(),
    ensures
        1 <= line_at(s, pos) <= pos + 1,
        1 <= column_at(s, pos) <= pos + 1,
    decreases pos,
{
    if pos > 0 {
        lemma_location_bounds(s, pos - 1);
    }
}

/// The syntax tree of the whole text `s`: one value, with nothing but white
/// space and comments before and behind it.
pub open spec fn lex_text(s: Seq<char>) -> Result<SyntaxTree, Failure> {
    match lex_value(s, trivia_end(s, 0)) {
        Err(f) => Err(f),
        Ok((tree, end)) => {
            if trivia_end(s, end) >= s.len() {
                Ok(tree)
            } else {
                Err(Failure { position: trivia_end(s, end), expected: Expected::TextEnd })
            }
        },
    }
}

} // verus!
