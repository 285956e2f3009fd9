//! The scanner: it reads a text into the syntax tree that the grammar
//! defines for it.

use crate::chars::{
    char_is_digit, char_is_hex_digit, char_is_identifier_part, char_is_identifier_start,
    char_is_line_terminator, char_is_space, has_prefix_at, to_chars, to_string,
};
use crate::error::{ErrorView, JsonError, Location};
use crate::grammar::{
    block_comment_end, column_at, decimal_end, digits_end, escape_piece, exponent_end,
    false_text, hex_digits_end, identifier_parts, infinity_text, is_at, leaf_at, lemma_lex_key,
    lemma_lex_text, lemma_lex_value, lemma_location_bounds, lemma_number_end, lemma_prepend_last,
    lemma_prepend_more, lemma_prepend_none,
    lemma_trivia_end, lex_items, lex_key, lex_members,
    lex_string, lex_text, lex_value, line_at, line_comment_end, location_at, nan_text, null_text,
    number_end, numeric_end, prepend_all, string_parts, string_piece, syntax_error, trivia_end,
    true_text, two_hex_digits_at, Expected, Failure, Lexed, LexedRun, Piece,
};
use crate::places::{lemma_lex_text_placed, placed_in};
use crate::syntax::{trees_of, Rule, SyntaxNode, SyntaxTree};
use vstd::prelude::*;
use vstd::string::*;

verus! {

/// A position in a text together with its line and column.
#[derive(Copy, Clone, Debug)]
struct Cursor {
    pos: usize,
    line: usize,
    column: usize,
}

/// A failed match: where, and what was wanted there.
#[derive(Copy, Clone, Debug)]
struct Fail {
    cursor: Cursor,
    expected: Expected,
}

impl Cursor {
    /// Whether the cursor stands in the text `s` and knows its line and column.
    spec fn at(self, s: Seq<char>) -> bool {
        &&& self.pos <= s.len()
        &&& self.line == line_at(s, self.pos as int)
        &&& self.column == column_at(s, self.pos as int)
    }

    /// The cursor at the beginning of a text.
    fn start(s: &Vec<char>) -> (r: Cursor)
        ensures
            r.at(s@),
            r.pos == 0,
    {
        Cursor { pos: 0, line: 1, column: 1 }
    }

    /// The cursor behind the character that this one stands at.
    fn step(self, s: &Vec<char>) -> (r: Cursor)
        requires
            self.at(s@),
            self.pos < s.len(),
            s.len() < usize::MAX,
        ensures
            r.at(s@),
            r.pos == self.pos + 1,
    {
        proof {
            lemma_location_bounds(s@, self.pos as int);
        }
        if s[self.pos] == '\n' {
            Cursor { pos: self.pos + 1, line: self.line + 1, column: 1 }
        } else {
            Cursor { pos: self.pos + 1, line: self.line, column: self.column + 1 }
        }
    }

    /// The cursor `n` characters on.
    fn skip(self, s: &Vec<char>, n: usize) -> (r: Cursor)
        requires
            self.at(s@),
            self.pos + n <= s.len(),
            s.len() < usize::MAX,
        ensures
            r.at(s@),
            r.pos == self.pos + n,
    {
        let mut c = self;
        let mut i: usize = 0;
        while i < n
            invariant
                c.at(s@),
                i <= n,
                c.pos == self.pos + i,
                self.pos + n <= s.len(),
                s.len() < usize::MAX,
            decreases n - i,
        {
            c = c.step(s);
            i += 1;
        }
        c
    }

    /// The location that the cursor stands at.
    fn location(self, s: &Vec<char>) -> (r: Location)
        requires
            self.at(s@),
        ensures
            r == location_at(s@, self.pos as int),
    {
        Location { line: self.line, column: self.column }
    }

    /// Whether the character `k` places on is `c`.
    fn sees(self, s: &Vec<char>, k: usize, c: char) -> (r: bool)
        requires
            self.pos <= s.len(),
        ensures
            r == is_at(s@, self.pos + k, c),
    {
        k < s.len() - self.pos && s[self.pos + k] == c
    }
}

impl Fail {
    /// Whether this is the failure `f` in the text `s`.
    spec fn is(self, s: Seq<char>, f: Failure) -> bool {
        self.cursor.at(s) && self.cursor.pos == f.position && self.expected == f.expected
    }
}

/// Whether `r` is the outcome `l` of matching one node in the text `s`.
spec fn lexed(r: Result<(SyntaxNode, Cursor), Fail>, s: Seq<char>, l: Lexed) -> bool {
    match l {
        Ok((t, end)) => r matches Ok((n, c)) && n@ == t && c.at(s) && c.pos == end,
        Err(f) => r matches Err(x) && x.is(s, f),
    }
}

/// Whether `r` is the outcome `l` of matching a run of nodes in the text `s`.
spec fn lexed_run(r: Result<(Vec<SyntaxNode>, Cursor), Fail>, s: Seq<char>, l: LexedRun) -> bool {
    match l {
        Ok((ts, end)) => r matches Ok((ns, c)) && trees_of(ns@) == ts && c.at(s) && c.pos == end,
        Err(f) => r matches Err(x) && x.is(s, f),
    }
}

proof fn lemma_trees_push(ns: Seq<SyntaxNode>, n: SyntaxNode)
    ensures
        trees_of(ns.push(n)) == trees_of(ns).push(n@),
{
    assert(trees_of(ns.push(n)) =~= trees_of(ns).push(n@));
}

proof fn lemma_trees_empty()
    ensures
        trees_of(Seq::empty()) == Seq::<SyntaxTree>::empty(),
{
    assert(trees_of(Seq::empty()) =~= Seq::<SyntaxTree>::empty());
}

proof fn lemma_literals()
    ensures
        "null"@ == null_text(),
        "true"@ == true_text(),
        "false"@ == false_text(),
        "Infinity"@ == infinity_text(),
        "NaN"@ == nan_text(),
{
    reveal_strlit("null");
    reveal_strlit("true");
    reveal_strlit("false");
    reveal_strlit("Infinity");
    reveal_strlit("NaN");
    assert("null"@ =~= null_text());
    assert("true"@ =~= true_text());
    assert("false"@ =~= false_text());
    assert("Infinity"@ =~= infinity_text());
    assert("NaN"@ =~= nan_text());
}

/// Passes over white space and comments.
fn skip_trivia(s: &Vec<char>, cur: Cursor) -> (r: Cursor)
    requires
        cur.at(s@),
        s.len() < usize::MAX,
    ensures
        r.at(s@),
        r.pos == trivia_end(s@, cur.pos as int),
{
    let mut c = cur;
    let mut done = false;
    while !done
        invariant
            c.at(s@),
            s.len() < usize::MAX,
            trivia_end(s@, c.pos as int) == trivia_end(s@, cur.pos as int),
            done ==> trivia_end(s@, c.pos as int) == c.pos,
        decreases s.len() - c.pos, if done { 0int } else { 1int },
    {
        if c.pos >= s.len() {
            done = true;
        } else if char_is_space(s[c.pos]) {
            c = c.step(s);
        } else if c.sees(s, 0, '/') && c.sees(s, 1, '/') {
            let mut e = c.skip(s, 2);
            while e.pos < s.len() && !char_is_line_terminator(s[e.pos])
                invariant
                    e.at(s@),
                    s.len() < usize::MAX,
                    c.pos + 2 <= e.pos,
                    line_comment_end(s@, e.pos as int) == line_comment_end(s@, c.pos + 2),
                decreases s.len() - e.pos,
            {
                e = e.step(s);
            }
            c = e;
        } else if c.sees(s, 0, '/') && c.sees(s, 1, '*') {
            let mut e = c.skip(s, 2);
            let mut closed = false;
            while !closed && e.pos + 1 < s.len()
                invariant
                    e.at(s@),
                    s.len() < usize::MAX,
                    c.pos + 2 <= e.pos,
                    !closed ==> block_comment_end(s@, e.pos as int) == block_comment_end(
                        s@,
                        c.pos + 2,
                    ),
                    closed ==> block_comment_end(s@, c.pos + 2) == Some(e.pos as int),
                decreases s.len() - e.pos, if closed { 0int } else { 1int },
            {
                if s[e.pos] == '*' && s[e.pos + 1] == '/' {
                    e = e.skip(s, 2);
                    closed = true;
                } else {
                    e = e.step(s);
                }
            }
            if closed {
                c = e;
            } else {
                done = true;
            }
        } else {
            done = true;
        }
    }
    c
}

/// Passes over decimal digits.
fn scan_digits(s: &Vec<char>, cur: Cursor) -> (r: Cursor)
    requires
        cur.at(s@),
        s.len() < usize::MAX,
    ensures
        r.at(s@),
        r.pos == digits_end(s@, cur.pos as int),
        r.pos >= cur.pos,
{
    let mut c = cur;
    while c.pos < s.len() && char_is_digit(s[c.pos])
        invariant
            c.at(s@),
            s.len() < usize::MAX,
            c.pos >= cur.pos,
            digits_end(s@, c.pos as int) == digits_end(s@, cur.pos as int),
        decreases s.len() - c.pos,
    {
        c = c.step(s);
    }
    c
}

/// Passes over hexadecimal digits.
fn scan_hex_digits(s: &Vec<char>, cur: Cursor) -> (r: Cursor)
    requires
        cur.at(s@),
        s.len() < usize::MAX,
    ensures
        r.at(s@),
        r.pos == hex_digits_end(s@, cur.pos as int),
        r.pos >= cur.pos,
{
    let mut c = cur;
    while c.pos < s.len() && char_is_hex_digit(s[c.pos])
        invariant
            c.at(s@),
            s.len() < usize::MAX,
            c.pos >= cur.pos,
            hex_digits_end(s@, c.pos as int) == hex_digits_end(s@, cur.pos as int),
        decreases s.len() - c.pos,
    {
        c = c.step(s);
    }
    c
}

/// Passes over an exponent, if one stands here.
fn scan_exponent(s: &Vec<char>, cur: Cursor) -> (r: Cursor)
    requires
        cur.at(s@),
        s.len() < usize::MAX,
    ensures
        r.at(s@),
        r.pos == exponent_end(s@, cur.pos as int),
{
    if cur.sees(s, 0, 'e') || cur.sees(s, 0, 'E') {
        let digits = if cur.sees(s, 1, '+') || cur.sees(s, 1, '-') {
            cur.skip(s, 2)
        } else {
            cur.step(s)
        };
        let end = scan_digits(s, digits);
        if end.pos > digits.pos {
            end
        } else {
            cur
        }
    } else {
        cur
    }
}

/// Passes over a decimal literal, if one stands here.
fn scan_decimal(s: &Vec<char>, cur: Cursor) -> (r: Option<Cursor>)
    requires
        cur.at(s@),
        s.len() < usize::MAX,
    ensures
        match decimal_end(s@, cur.pos as int) {
            Some(end) => r matches Some(c) && c.at(s@) && c.pos == end,
            None => r is None,
        },
{
    if cur.pos < s.len() && char_is_digit(s[cur.pos]) {
        let whole = if s[cur.pos] == '0' {
            cur.step(s)
        } else {
            scan_digits(s, cur)
        };
        if whole.sees(s, 0, '.') {
            let fraction = scan_digits(s, whole.step(s));
            Some(scan_exponent(s, fraction))
        } else {
            Some(scan_exponent(s, whole))
        }
    } else if cur.sees(s, 0, '.') {
        let fraction = scan_digits(s, cur.step(s));
        if fraction.pos > cur.pos + 1 {
            Some(scan_exponent(s, fraction))
        } else {
            None
        }
    } else {
        None
    }
}

/// Passes over an unsigned numeric literal, if one stands here.
fn scan_numeric(s: &Vec<char>, cur: Cursor) -> (r: Option<Cursor>)
    requires
        cur.at(s@),
        s.len() < usize::MAX,
    ensures
        match numeric_end(s@, cur.pos as int) {
            Some(end) => r matches Some(c) && c.at(s@) && c.pos == end,
            None => r is None,
        },
{
    proof {
        lemma_literals();
    }
    if cur.sees(s, 0, '0') && (cur.sees(s, 1, 'x') || cur.sees(s, 1, 'X')) {
        let end = scan_hex_digits(s, cur.skip(s, 2));
        if end.pos > cur.pos + 2 {
            return Some(end);
        }
    }
    proof {
        if !(0 <= cur.pos + 2 <= s.len()) {
            assert(hex_digits_end(s@, cur.pos + 2) == cur.pos + 2);
        }
    }
    match scan_decimal(s, cur) {
        Some(end) => Some(end),
        None => {
            if has_prefix_at(s, cur.pos, "Infinity") {
                Some(cur.skip(s, 8))
            } else if has_prefix_at(s, cur.pos, "NaN") {
                Some(cur.skip(s, 3))
            } else {
                None
            }
        },
    }
}

/// Passes over a number, if one stands here.
fn scan_number(s: &Vec<char>, cur: Cursor) -> (r: Option<Cursor>)
    requires
        cur.at(s@),
        s.len() < usize::MAX,
    ensures
        match number_end(s@, cur.pos as int) {
            Some(end) => r matches Some(c) && c.at(s@) && c.pos == end,
            None => r is None,
        },
{
    if cur.sees(s, 0, '+') || cur.sees(s, 0, '-') {
        scan_numeric(s, cur.step(s))
    } else {
        scan_numeric(s, cur)
    }
}

/// The leaf for the text between two cursors.
fn leaf_between(rule: Rule, s: &Vec<char>, from: Cursor, to: Cursor) -> (r: SyntaxNode)
    requires
        from.at(s@),
        from.pos <= to.pos <= s.len(),
    ensures
        r@ == leaf_at(rule, s@, from.pos as int, to.pos as int),
{
    SyntaxNode::leaf(rule, to_string(s, from.pos, to.pos), from.location(s))
}

/// Whether two hexadecimal digits stand `k` places on.
fn sees_two_hex_digits(s: &Vec<char>, cur: Cursor, k: usize) -> (r: bool)
    requires
        cur.pos <= s.len(),
        k <= 4,
        s.len() < usize::MAX,
    ensures
        r == two_hex_digits_at(s@, cur.pos + k),
{
    k + 1 < s.len() - cur.pos && char_is_hex_digit(s[cur.pos + k]) && char_is_hex_digit(
        s[cur.pos + k + 1],
    )
}

/// What of a string stands at one place, as the scanner holds it.
enum Scanned {
    Part(SyntaxNode, Cursor),
    Skip(Cursor),
    Close,
    Bad,
}

impl Scanned {
    /// Whether this is the piece `p` of the text `s`.
    spec fn is(self, s: Seq<char>, p: Piece) -> bool {
        match p {
            Piece::Part(t, next) => self matches Scanned::Part(n, c) && n@ == t && c.at(s) && c.pos
                == next,
            Piece::Skip(next) => self matches Scanned::Skip(c) && c.at(s) && c.pos == next,
            Piece::Close => self is Close,
            Piece::Bad => self is Bad,
        }
    }
}

/// Reads the escape whose backslash stands just before `cur`.
fn scan_escape(s: &Vec<char>, cur: Cursor) -> (r: Scanned)
    requires
        cur.at(s@),
        s.len() < usize::MAX,
    ensures
        r.is(s@, escape_piece(s@, cur.pos as int)),
{
    if cur.pos >= s.len() {
        return Scanned::Bad;
    }
    let c = s[cur.pos];
    if !(char_is_digit(c) || c == 'x' || c == 'u' || char_is_line_terminator(c)) {
        let next = cur.step(s);
        Scanned::Part(leaf_between(Rule::CharEscapeSequence, s, cur, next), next)
    } else if c == '0' {
        let next = cur.step(s);
        Scanned::Part(leaf_between(Rule::NulEscapeSequence, s, cur, next), next)
    } else if c == 'x' && sees_two_hex_digits(s, cur, 1) {
        let from = cur.step(s);
        let next = from.skip(s, 2);
        Scanned::Part(leaf_between(Rule::HexEscapeSequence, s, from, next), next)
    } else if c == 'u' && sees_two_hex_digits(s, cur, 1) && sees_two_hex_digits(s, cur, 3) {
        let from = cur.step(s);
        let next = from.skip(s, 4);
        Scanned::Part(leaf_between(Rule::UnicodeEscapeSequence, s, from, next), next)
    } else if c == '\r' && cur.sees(s, 1, '\n') {
        Scanned::Skip(cur.skip(s, 2))
    } else if char_is_line_terminator(c) {
        Scanned::Skip(cur.step(s))
    } else {
        Scanned::Bad
    }
}

/// Reads what stands at `cur` inside a string that `quote` closes.
fn scan_piece(s: &Vec<char>, cur: Cursor, quote: char) -> (r: Scanned)
    requires
        cur.at(s@),
        s.len() < usize::MAX,
    ensures
        r.is(s@, string_piece(s@, cur.pos as int, quote)),
{
    if cur.pos >= s.len() {
        return Scanned::Bad;
    }
    let c = s[cur.pos];
    if c == quote {
        Scanned::Close
    } else if c == '\\' {
        scan_escape(s, cur.step(s))
    } else if char_is_line_terminator(c) {
        Scanned::Bad
    } else {
        let next = cur.step(s);
        Scanned::Part(leaf_between(Rule::CharLiteral, s, cur, next), next)
    }
}

/// Reads the string whose opening quote stands at `cur`.
fn scan_string(s: &Vec<char>, cur: Cursor) -> (r: Result<(SyntaxNode, Cursor), Fail>)
    requires
        cur.at(s@),
        s.len() < usize::MAX,
        is_at(s@, cur.pos as int, '"') || is_at(s@, cur.pos as int, '\''),
    ensures
        lexed(r, s@, lex_string(s@, cur.pos as int)),
{
    let quote = s[cur.pos];
    let first = cur.step(s);
    let mut parts: Vec<SyntaxNode> = Vec::new();
    let mut c = first;
    proof {
        lemma_trees_empty();
        lemma_prepend_none(string_parts(s@, first.pos as int, quote));
    }
    loop
        invariant
            c.at(s@),
            s.len() < usize::MAX,
            cur.at(s@),
            first.pos == cur.pos + 1,
            is_at(s@, cur.pos as int, '"') || is_at(s@, cur.pos as int, '\''),
            quote == s@[cur.pos as int],
            string_parts(s@, first.pos as int, quote) == prepend_all(
                trees_of(parts@),
                string_parts(s@, c.pos as int, quote),
            ),
        decreases s.len() - c.pos,
    {
        match scan_piece(s, c, quote) {
            Scanned::Part(node, next) => {
                proof {
                    lemma_trees_push(parts@, node);
                    lemma_prepend_more(
                        trees_of(parts@),
                        node@,
                        string_parts(s@, next.pos as int, quote),
                    );
                }
                parts.push(node);
                c = next;
            },
            Scanned::Skip(next) => {
                c = next;
            },
            Scanned::Close => {
                proof {
                    lemma_prepend_last(trees_of(parts@), c.pos + 1);
                }
                let end = c.step(s);
                return Ok((SyntaxNode::branch(Rule::String, cur.location(s), parts), end));
            },
            Scanned::Bad => {
                return Err(Fail { cursor: c, expected: Expected::StringEnd });
            },
        }
    }
}

/// Reads the object key that begins at `cur`.
fn scan_key(s: &Vec<char>, cur: Cursor) -> (r: Result<(SyntaxNode, Cursor), Fail>)
    requires
        cur.at(s@),
        s.len() < usize::MAX,
    ensures
        lexed(r, s@, lex_key(s@, cur.pos as int)),
{
    if cur.sees(s, 0, '"') || cur.sees(s, 0, '\'') {
        return scan_string(s, cur);
    }
    let mut parts: Vec<SyntaxNode> = Vec::new();
    let mut c = cur;
    let mut done = false;
    proof {
        lemma_trees_empty();
        assert(trees_of(parts@) + identifier_parts(s@, cur.pos as int, true).0
            =~= identifier_parts(s@, cur.pos as int, true).0);
    }
    while !done
        invariant
            c.at(s@),
            cur.at(s@),
            cur.pos <= c.pos,
            s.len() < usize::MAX,
            !done ==> identifier_parts(s@, cur.pos as int, true).0 == trees_of(parts@)
                + identifier_parts(s@, c.pos as int, c.pos == cur.pos).0,
            !done ==> identifier_parts(s@, cur.pos as int, true).1 == identifier_parts(
                s@,
                c.pos as int,
                c.pos == cur.pos,
            ).1,
            done ==> identifier_parts(s@, cur.pos as int, true) == (trees_of(parts@), c.pos as int),
        decreases s.len() - c.pos, if done { 0int } else { 1int },
    {
        let ghost before = trees_of(parts@);
        let ghost rest = identifier_parts(s@, c.pos as int, c.pos == cur.pos);
        if c.pos >= s.len() {
            done = true;
            proof {
                assert(before + rest.0 =~= before);
            }
        } else if s[c.pos] == '\\' && c.sees(s, 1, 'u') && sees_two_hex_digits(s, c, 2)
            && sees_two_hex_digits(s, c, 4) {
            let from = c.skip(s, 2);
            let next = from.skip(s, 4);
            let node = leaf_between(Rule::UnicodeEscapeSequence, s, from, next);
            proof {
                lemma_trees_push(parts@, node);
                let after = identifier_parts(s@, next.pos as int, false);
                assert(before + (seq![node@] + after.0) =~= before.push(node@) + after.0);
            }
            parts.push(node);
            c = next;
        } else if (c.pos == cur.pos && char_is_identifier_start(s[c.pos])) || (c.pos != cur.pos
            && char_is_identifier_part(s[c.pos])) {
            let next = c.step(s);
            let node = leaf_between(Rule::CharLiteral, s, c, next);
            proof {
                lemma_trees_push(parts@, node);
                let after = identifier_parts(s@, next.pos as int, false);
                assert(before + (seq![node@] + after.0) =~= before.push(node@) + after.0);
            }
            parts.push(node);
            c = next;
        } else {
            done = true;
            proof {
                assert(before + rest.0 =~= before);
            }
        }
    }
    if c.pos > cur.pos {
        Ok((SyntaxNode::branch(Rule::Identifier, cur.location(s), parts), c))
    } else {
        Err(Fail { cursor: cur, expected: Expected::Key })
    }
}

/// Reads the value that begins at `cur`.
fn scan_value(s: &Vec<char>, cur: Cursor) -> (r: Result<(SyntaxNode, Cursor), Fail>)
    requires
        cur.at(s@),
        s.len() < usize::MAX,
    ensures
        lexed(r, s@, lex_value(s@, cur.pos as int)),
    decreases s.len() - cur.pos, 0int,
{
    proof {
        lemma_literals();
    }
    if cur.pos >= s.len() {
        return Err(Fail { cursor: cur, expected: Expected::Value });
    }
    let c = s[cur.pos];
    if has_prefix_at(s, cur.pos, "null") {
        let end = cur.skip(s, 4);
        return Ok((leaf_between(Rule::Null, s, cur, end), end));
    }
    if has_prefix_at(s, cur.pos, "true") {
        let end = cur.skip(s, 4);
        return Ok((leaf_between(Rule::Boolean, s, cur, end), end));
    }
    if has_prefix_at(s, cur.pos, "false") {
        let end = cur.skip(s, 5);
        return Ok((leaf_between(Rule::Boolean, s, cur, end), end));
    }
    if c == '"' || c == '\'' {
        return scan_string(s, cur);
    }
    if let Some(end) = scan_number(s, cur) {
        proof {
            lemma_number_end(s@, cur.pos as int);
        }
        return Ok((leaf_between(Rule::Number, s, cur, end), end));
    }
    if c == '[' {
        let first = skip_trivia(s, cur.step(s));
        proof {
            lemma_trivia_end(s@, cur.pos + 1);
        }
        match scan_items(s, first) {
            Ok((items, end)) => Ok((SyntaxNode::branch(Rule::Array, cur.location(s), items), end)),
            Err(f) => Err(f),
        }
    } else if c == '{' {
        let first = skip_trivia(s, cur.step(s));
        proof {
            lemma_trivia_end(s@, cur.pos + 1);
        }
        match scan_members(s, first) {
            Ok((members, end)) => Ok(
                (SyntaxNode::branch(Rule::Object, cur.location(s), members), end),
            ),
            Err(f) => Err(f),
        }
    } else {
        Err(Fail { cursor: cur, expected: Expected::Value })
    }
}

/// Reads the elements of an array up to its closing bracket.
fn scan_items(s: &Vec<char>, cur: Cursor) -> (r: Result<(Vec<SyntaxNode>, Cursor), Fail>)
    requires
        cur.at(s@),
        s.len() < usize::MAX,
    ensures
        lexed_run(r, s@, lex_items(s@, cur.pos as int)),
    decreases s.len() - cur.pos, 1int,
{
    let mut items: Vec<SyntaxNode> = Vec::new();
    let mut c = cur;
    proof {
        lemma_trees_empty();
        lemma_prepend_none(lex_items(s@, cur.pos as int));
    }
    loop
        invariant
            c.at(s@),
            cur.pos <= c.pos,
            s.len() < usize::MAX,
            lex_items(s@, cur.pos as int) == prepend_all(
                trees_of(items@),
                lex_items(s@, c.pos as int),
            ),
        decreases s.len() - c.pos,
    {
        proof {
            lemma_prepend_last(trees_of(items@), c.pos + 1);
        }
        if c.sees(s, 0, ']') {
            return Ok((items, c.step(s)));
        }
        match scan_value(s, c) {
            Err(f) => {
                return Err(f);
            },
            Ok((node, end)) => {
                proof {
                    lemma_lex_value(s@, c.pos as int);
                    lemma_trivia_end(s@, end.pos as int);
                    lemma_trees_push(items@, node);
                }
                let next = skip_trivia(s, end);
                let ghost before = trees_of(items@);
                items.push(node);
                if next.sees(s, 0, ',') {
                    proof {
                        lemma_trivia_end(s@, next.pos + 1);
                        lemma_prepend_more(
                            before,
                            node@,
                            lex_items(s@, trivia_end(s@, next.pos + 1)),
                        );
                    }
                    c = skip_trivia(s, next.step(s));
                } else if next.sees(s, 0, ']') {
                    proof {
                        assert(before + seq![node@] =~= before.push(node@));
                    }
                    return Ok((items, next.step(s)));
                } else {
                    return Err(Fail { cursor: next, expected: Expected::ArrayEnd });
                }
            },
        }
    }
}

/// Reads the members of an object up to its closing brace.
fn scan_members(s: &Vec<char>, cur: Cursor) -> (r: Result<(Vec<SyntaxNode>, Cursor), Fail>)
    requires
        cur.at(s@),
        s.len() < usize::MAX,
    ensures
        lexed_run(r, s@, lex_members(s@, cur.pos as int)),
    decreases s.len() - cur.pos, 1int,
{
    let mut members: Vec<SyntaxNode> = Vec::new();
    let mut c = cur;
    proof {
        lemma_trees_empty();
        lemma_prepend_none(lex_members(s@, cur.pos as int));
    }
    loop
        invariant
            c.at(s@),
            cur.pos <= c.pos,
            s.len() < usize::MAX,
            lex_members(s@, cur.pos as int) == prepend_all(
                trees_of(members@),
                lex_members(s@, c.pos as int),
            ),
        decreases s.len() - c.pos,
    {
        proof {
            lemma_prepend_last(trees_of(members@), c.pos + 1);
        }
        if c.sees(s, 0, '}') {
            return Ok((members, c.step(s)));
        }
        let (key, key_end) = match scan_key(s, c) {
            Err(f) => {
                return Err(f);
            },
            Ok(found) => found,
        };
        proof {
            lemma_lex_key(s@, c.pos as int);
            lemma_trivia_end(s@, key_end.pos as int);
        }
        let colon = skip_trivia(s, key_end);
        if !colon.sees(s, 0, ':') {
            return Err(Fail { cursor: colon, expected: Expected::Colon });
        }
        proof {
            lemma_trivia_end(s@, colon.pos + 1);
        }
        let start = skip_trivia(s, colon.step(s));
        let (value, end) = match scan_value(s, start) {
            Err(f) => {
                return Err(f);
            },
            Ok(found) => found,
        };
        proof {
            lemma_lex_value(s@, start.pos as int);
            lemma_trivia_end(s@, end.pos as int);
        }
        let ghost key_tree = key@;
        let ghost value_tree = value@;
        let mut pair: Vec<SyntaxNode> = Vec::new();
        pair.push(key);
        pair.push(value);
        assert(trees_of(pair@) =~= seq![key_tree, value_tree]);
        let member = SyntaxNode::branch(Rule::Pair, c.location(s), pair);
        let next = skip_trivia(s, end);
        let ghost before = trees_of(members@);
        proof {
            lemma_trees_push(members@, member);
        }
        let ghost member_tree = member@;
        members.push(member);
        if next.sees(s, 0, ',') {
            proof {
                lemma_trivia_end(s@, next.pos + 1);
                lemma_prepend_more(
                    before,
                    member_tree,
                    lex_members(s@, trivia_end(s@, next.pos + 1)),
                );
            }
            c = skip_trivia(s, next.step(s));
        } else if next.sees(s, 0, '}') {
            proof {
                assert(before + seq![member_tree] =~= before.push(member_tree));
            }
            return Ok((members, next.step(s)));
        } else {
            return Err(Fail { cursor: next, expected: Expected::ObjectEnd });
        }
    }
}

/// What `lex` gives for the text `text`: its syntax tree, or the syntax
/// error that tells where the text leaves the grammar and what was wanted
/// there. A text of more characters than can be counted is a syntax error
/// without a location.
pub open spec fn lex_outcome(text: Seq<char>) -> Result<SyntaxTree, ErrorView> {
    if text.len() >= usize::MAX {
        Err(ErrorView::Syntax("the text is too long"@, None))
    } else {
        match lex_text(text) {
            Ok(tree) => Ok(tree),
            Err(f) => Err(syntax_error(text, f)),
        }
    }
}

/// Reads the characters `s` into their syntax tree.
fn lex_chars(s: &Vec<char>) -> (r: Result<SyntaxNode, JsonError>)
    requires
        s.len() < usize::MAX,
    ensures
        match lex_outcome(s@) {
            Ok(tree) => r matches Ok(node) && node@ == tree,
            Err(e) => r matches Err(x) && x@ == e,
        },
{
    let first = skip_trivia(s, Cursor::start(s));
    match scan_value(s, first) {
        Err(f) => Err(JsonError::Syntax(f.expected.describe(), Some(f.cursor.location(s)))),
        Ok((node, end)) => {
            let last = skip_trivia(s, end);
            if last.pos >= s.len() {
                Ok(node)
            } else {
                Err(JsonError::Syntax(Expected::TextEnd.describe(), Some(last.location(s))))
            }
        },
    }
}

/// Reads a JSON5 text into its syntax tree: one node for every value,
/// member and string component, each with its rule and with the line and
/// column at which it begins. A text that does not follow the grammar is a
/// syntax error at the place where it leaves the grammar. The tree of a
/// text has the shape of a value, and every node of it is located at the
/// first character of what it was matched to.
pub fn lex(input: &str) -> (r: Result<SyntaxNode, JsonError>)
    ensures
        match lex_outcome(input@) {
            Ok(tree) => r matches Ok(node) && node@ == tree && tree.is_value() && placed_in(
                input@,
                tree,
            ),
            Err(e) => r matches Err(x) && x@ == e,
        },
{
    let s = to_chars(input);
    if s.len() == usize::MAX {
        return Err(JsonError::Syntax(String::from_str("the text is too long"), None));
    }
    proof {
        lemma_lex_text(s@);
        lemma_lex_text_placed(s@);
    }
    lex_chars(&s)
}

} // verus!
