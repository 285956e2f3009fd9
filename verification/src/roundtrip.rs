//! The round trip: the text that a value is rendered as is read back as
//! that value.

use crate::builder::{build_items, build_members, build_value, parse_outcome};
use crate::chars::{
    is_digit, is_hex_digit, is_identifier_part, is_identifier_start, is_line_terminator, is_space,
    starts_with,
};
use crate::error::{ErrorView, Location};
use crate::grammar::{
    branch_at, decimal_end, digits_end, exponent_end, false_text, hex_digits_end,
    identifier_parts, infinity_text, is_at, leaf_at, lex_items, lex_key, lex_members, lex_string,
    lex_value, location_at, nan_text, null_text, number_end, numeric_end, prepend, string_parts,
    trivia_end, true_text,
};
use crate::node::{index_of_key, keys_unique, lemma_index_of_key, with_member, JsonValue};
use crate::number::{
    all_digits, decode_float, digit_number, digits_value, is_hex_literal_text, is_infinite_text,
    is_integer_text, is_nan_text, parse_i64_text, sign_length,
};
use crate::serializer::{
    digit_char, has_white_space, integer_text, natural_text, quoted, render, render_items,
    render_key, render_member, render_members,
};
use crate::strings::{decode_from, decode_text};
use crate::syntax::{Rule, SyntaxTree};
use vstd::prelude::*;

verus! {

/// Whether a string with the characters `s` can stand between double
/// quotes as it is: it holds no double quote, no backslash and no line
/// terminator.
pub open spec fn is_plain_text(s: Seq<char>) -> bool {
    forall|i: int|
        0 <= i < s.len() ==> (#[trigger] s[i]) != '"' && s[i] != '\\' && !is_line_terminator(s[i])
}

/// Whether `s` can stand as an object key without quotes: it is an
/// identifier, and it begins with no white space of the grammar (which no
/// identifier does, as far as the general categories of Unicode part the
/// letters from the spaces).
pub open spec fn is_identifier_text(s: Seq<char>) -> bool {
    &&& s.len() > 0
    &&& is_identifier_start(s[0])
    &&& !is_space(s[0])
    &&& forall|i: int| 0 < i < s.len() ==> is_identifier_part(#[trigger] s[i])
}

/// Whether the object key `key` is read back from its text: a key that is
/// written between quotes has to be plain text, and any other key an
/// identifier.
pub open spec fn is_canonical_key(key: Seq<char>) -> bool {
    if has_white_space(key) {
        is_plain_text(key)
    } else {
        is_identifier_text(key)
    }
}

/// Whether the floating-point number with the text `text` is read back from
/// it: the text is one number of the grammar, it is no integer, and it can
/// be decoded.
pub open spec fn is_canonical_float(text: Seq<char>) -> bool {
    &&& number_end(text, 0) == Some(text.len() as int)
    &&& !is_integer_text(text)
    &&& decode_float(text, Location { line: 1, column: 1 }) is Ok
}

/// Whether the value `v` is read back from its canonical text: its strings
/// are plain text, its keys canonical and its floating-point numbers
/// canonical, and no object in it holds a key twice.
pub open spec fn is_canonical(v: JsonValue) -> bool
    decreases v,
{
    match v {
        JsonValue::Float(text, _) => is_canonical_float(text),
        JsonValue::String(s, _) => is_plain_text(s),
        JsonValue::Array(items, _) => forall|i: int|
            0 <= i < items.len() ==> is_canonical(#[trigger] items[i]),
        JsonValue::Object(members, _) => keys_unique(members) && forall|i: int|
            0 <= i < members.len() ==> is_canonical_key((#[trigger] members[i]).0) && is_canonical(
                members[i].1,
            ),
        _ => true,
    }
}

/// Whether the value that ends just before `end` is followed by nothing
/// that could belong to it: by the end of the text, a comma, a closing
/// bracket or a closing brace.
pub open spec fn ends_value(s: Seq<char>, end: int) -> bool {
    end >= s.len() || s[end] == ',' || s[end] == ']' || s[end] == '}'
}

/// Whether `t` stands in `s` at `pos`.
pub open spec fn holds_at(s: Seq<char>, pos: int, t: Seq<char>) -> bool {
    0 <= pos && pos + t.len() <= s.len() && s.subrange(pos, pos + t.len()) == t
}

proof fn lemma_holds_at(s: Seq<char>, pos: int, t: Seq<char>)
    requires
        holds_at(s, pos, t),
    ensures
        forall|k: int| 0 <= k < t.len() ==> #[trigger] s[pos + k] == t[k],
{
    assert forall|k: int| 0 <= k < t.len() implies #[trigger] s[pos + k] == t[k] by {
        assert(s.subrange(pos, pos + t.len())[k] == s[pos + k]);
    }
}

// Numbers

proof fn lemma_digits_end_local(s: Seq<char>, pos: int, t: Seq<char>, k: int)
    requires
        holds_at(s, pos, t),
        ends_value(s, pos + t.len()),
        0 <= k <= t.len(),
    ensures
        digits_end(s, pos + k) == pos + digits_end(t, k),
        k <= digits_end(t, k) <= t.len(),
    decreases t.len() - k,
{
    lemma_holds_at(s, pos, t);
    if k < t.len() {
        assert(s[pos + k] == t[k]);
        if is_digit(t[k]) {
            lemma_digits_end_local(s, pos, t, k + 1);
        }
    }
}

proof fn lemma_hex_digits_end_local(s: Seq<char>, pos: int, t: Seq<char>, k: int)
    requires
        holds_at(s, pos, t),
        ends_value(s, pos + t.len()),
        0 <= k <= t.len(),
    ensures
        hex_digits_end(s, pos + k) == pos + hex_digits_end(t, k),
        k <= hex_digits_end(t, k) <= t.len(),
    decreases t.len() - k,
{
    lemma_holds_at(s, pos, t);
    if k < t.len() {
        assert(s[pos + k] == t[k]);
        if is_hex_digit(t[k]) {
            lemma_hex_digits_end_local(s, pos, t, k + 1);
        }
    }
}

proof fn lemma_is_at_local(s: Seq<char>, pos: int, t: Seq<char>, k: int, c: char)
    requires
        holds_at(s, pos, t),
        ends_value(s, pos + t.len()),
        0 <= k <= t.len(),
        c != ',' && c != ']' && c != '}',
    ensures
        is_at(s, pos + k, c) == is_at(t, k, c),
{
    lemma_holds_at(s, pos, t);
    if k < t.len() {
        assert(s[pos + k] == t[k]);
    }
}

proof fn lemma_exponent_end_local(s: Seq<char>, pos: int, t: Seq<char>, k: int)
    requires
        holds_at(s, pos, t),
        ends_value(s, pos + t.len()),
        0 <= k <= t.len(),
    ensures
        exponent_end(s, pos + k) == pos + exponent_end(t, k),
        k <= exponent_end(t, k) <= t.len(),
{
    lemma_is_at_local(s, pos, t, k, 'e');
    lemma_is_at_local(s, pos, t, k, 'E');
    if is_at(t, k, 'e') || is_at(t, k, 'E') {
        lemma_is_at_local(s, pos, t, k + 1, '+');
        lemma_is_at_local(s, pos, t, k + 1, '-');
        if is_at(t, k + 1, '+') || is_at(t, k + 1, '-') {
            lemma_digits_end_local(s, pos, t, k + 2);
        } else {
            lemma_digits_end_local(s, pos, t, k + 1);
        }
    }
}

proof fn lemma_decimal_end_local(s: Seq<char>, pos: int, t: Seq<char>, k: int)
    requires
        holds_at(s, pos, t),
        ends_value(s, pos + t.len()),
        0 <= k <= t.len(),
    ensures
        match decimal_end(t, k) {
            Some(end) => decimal_end(s, pos + k) == Some(pos + end) && k <= end <= t.len(),
            None => decimal_end(s, pos + k) is None,
        },
{
    lemma_holds_at(s, pos, t);
    lemma_is_at_local(s, pos, t, k, '.');
    if k < t.len() {
        assert(s[pos + k] == t[k]);
        if is_digit(t[k]) {
            lemma_digits_end_local(s, pos, t, k);
            let whole = if t[k] == '0' {
                k + 1
            } else {
                digits_end(t, k)
            };
            lemma_is_at_local(s, pos, t, whole, '.');
            if is_at(t, whole, '.') {
                lemma_digits_end_local(s, pos, t, whole + 1);
                lemma_exponent_end_local(s, pos, t, digits_end(t, whole + 1));
            } else {
                lemma_exponent_end_local(s, pos, t, whole);
            }
        } else if t[k] == '.' {
            lemma_digits_end_local(s, pos, t, k + 1);
            lemma_exponent_end_local(s, pos, t, digits_end(t, k + 1));
        }
    }
}

proof fn lemma_starts_with_local(s: Seq<char>, pos: int, t: Seq<char>, k: int, word: Seq<char>)
    requires
        holds_at(s, pos, t),
        ends_value(s, pos + t.len()),
        0 <= k <= t.len(),
        forall|i: int| 0 <= i < word.len() ==> (#[trigger] word[i]) != ',' && word[i] != ']' && word[i] != '}',
    ensures
        starts_with(s, pos + k, word) == starts_with(t, k, word),
{
    lemma_holds_at(s, pos, t);
    if k + word.len() <= t.len() {
        assert(s.subrange(pos + k, pos + k + word.len()) =~= t.subrange(k, k + word.len()));
    } else if pos + k + word.len() <= s.len() {
        let j = t.len() - k;
        assert(s.subrange(pos + k, pos + k + word.len())[j] == s[pos + t.len()]);
        assert(word[j] != s[pos + t.len()]);
    }
}

proof fn lemma_numeric_end_local(s: Seq<char>, pos: int, t: Seq<char>, k: int)
    requires
        holds_at(s, pos, t),
        ends_value(s, pos + t.len()),
        0 <= k <= t.len(),
    ensures
        match numeric_end(t, k) {
            Some(end) => numeric_end(s, pos + k) == Some(pos + end) && k <= end <= t.len(),
            None => numeric_end(s, pos + k) is None,
        },
{
    lemma_is_at_local(s, pos, t, k, '0');
    if is_at(t, k, '0') {
        lemma_is_at_local(s, pos, t, k + 1, 'x');
        lemma_is_at_local(s, pos, t, k + 1, 'X');
        if is_at(t, k + 1, 'x') || is_at(t, k + 1, 'X') {
            lemma_hex_digits_end_local(s, pos, t, k + 2);
        }
    }
    lemma_decimal_end_local(s, pos, t, k);
    lemma_starts_with_local(s, pos, t, k, infinity_text());
    lemma_starts_with_local(s, pos, t, k, nan_text());
}

/// A number is matched in a text as it is matched alone, where nothing
/// that could belong to it follows.
proof fn lemma_number_end_local(s: Seq<char>, pos: int, t: Seq<char>)
    requires
        holds_at(s, pos, t),
        ends_value(s, pos + t.len()),
    ensures
        match number_end(t, 0) {
            Some(end) => number_end(s, pos) == Some(pos + end) && 0 <= end <= t.len(),
            None => number_end(s, pos) is None,
        },
{
    lemma_is_at_local(s, pos, t, 0, '+');
    lemma_is_at_local(s, pos, t, 0, '-');
    if is_at(t, 0, '+') || is_at(t, 0, '-') {
        lemma_numeric_end_local(s, pos, t, 1);
    } else {
        lemma_numeric_end_local(s, pos, t, 0);
    }
}

/// The decimal text of a natural number is made of digits, begins with a
/// zero only where the number is zero, and spells the number.
pub proof fn lemma_natural_text(n: int)
    requires
        n >= 0,
    ensures
        natural_text(n).len() >= 1,
        all_digits(natural_text(n), 10),
        forall|i: int| 0 <= i < natural_text(n).len() ==> is_digit(#[trigger] natural_text(n)[i]),
        digits_value(natural_text(n), 10) == n,
        natural_text(n)[0] == '0' ==> n == 0,
        n == 0 ==> natural_text(n) == seq!['0'],
    decreases n,
{
    let t = natural_text(n);
    if n < 10 {
        assert(t == seq![digit_char(n)]);
        assert(t.drop_last() =~= Seq::<char>::empty());
        assert(digits_value(t.drop_last(), 10) == 0);
        assert(digit_number(t.last()) == n);
    } else {
        lemma_natural_text(n / 10);
        let front = natural_text(n / 10);
        assert(t.drop_last() =~= front);
        assert(t.last() == digit_char(n % 10));
        assert(digit_number(t.last()) == n % 10);
        assert forall|i: int| 0 <= i < t.len() implies is_digit(#[trigger] t[i]) && digit_number(
            t[i],
        ) < 10 by {
            if i < front.len() {
                assert(t[i] == front[i]);
            }
        }
        assert(t[0] == front[0]);
    }
}

/// The digits `t` that stand in `s` at `pos` are passed over as a whole.
proof fn lemma_digits_run(s: Seq<char>, pos: int, t: Seq<char>, k: int)
    requires
        holds_at(s, pos, t),
        ends_value(s, pos + t.len()),
        0 <= k <= t.len(),
        forall|i: int| 0 <= i < t.len() ==> is_digit(#[trigger] t[i]),
    ensures
        digits_end(s, pos + k) == pos + t.len(),
    decreases t.len() - k,
{
    lemma_holds_at(s, pos, t);
    if k < t.len() {
        assert(s[pos + k] == t[k]);
        lemma_digits_run(s, pos, t, k + 1);
    }
}

/// The decimal text of an integer is read as that integer.
pub proof fn lemma_integer_text(i: int)
    requires
        i64::MIN <= i <= i64::MAX,
    ensures
        number_end(integer_text(i), 0) == Some(integer_text(i).len() as int),
        is_integer_text(integer_text(i)),
        !is_hex_literal_text(integer_text(i)),
        parse_i64_text(integer_text(i), 10) == Some(i as i64),
        integer_text(i).len() >= 1,
        integer_text(i)[0] == '-' || is_digit(integer_text(i)[0]),
{
    let t = integer_text(i);
    let n = if i < 0 {
        -i
    } else {
        i
    };
    let d = natural_text(n);
    lemma_natural_text(n);
    let sign: int = if i < 0 {
        1
    } else {
        0
    };
    assert(t.len() == sign + d.len());
    assert forall|k: int| 0 <= k < d.len() implies #[trigger] t[sign + k] == d[k] by {}
    assert(holds_at(t, sign, d)) by {
        assert(t.subrange(sign, sign + d.len()) =~= d);
    }
    assert(ends_value(t, sign + d.len()));
    lemma_digits_run(t, sign, d, 0);
    lemma_digits_run(t, sign, d, 1);
    assert(t[sign] == d[0]);
    assert(is_digit(d[0]));
    // matching
    assert(numeric_end(t, sign) == Some(t.len() as int)) by {
        if d[0] == '0' {
            assert(d == seq!['0']);
        }
        assert(!is_at(t, sign + 1, 'x') && !is_at(t, sign + 1, 'X')) by {
            if sign + 1 < t.len() {
                assert(t[sign + 1] == d[1]);
                assert(is_digit(d[1]));
            }
        }
        let whole = if t[sign] == '0' {
            sign + 1
        } else {
            digits_end(t, sign)
        };
        assert(whole == t.len());
    }
    // classification
    assert forall|k: int| 0 <= k < t.len() implies (#[trigger] t[k]) == '-' || is_digit(t[k]) by {
        if k >= sign {
            assert(t[sign + (k - sign)] == d[k - sign]);
        }
    }
    assert(!t.contains('.') && !t.contains('e') && !t.contains('E'));
    assert(!is_infinite_text(t) && !is_nan_text(t)) by {
        assert(infinity_text()[0] == 'I');
        assert(nan_text()[0] == 'N');
        assert((seq!['-'] + infinity_text())[1] == 'I');
        assert((seq!['-'] + nan_text())[1] == 'N');
        if t.len() > 1 {
            assert(t[sign + (1 - sign)] == d[1 - sign]);
        }
    }
    // value
    assert(sign_length(t) == sign);
    assert(t.skip(sign) =~= d);
}

// Strings and keys

/// One literal component for each of the `n` characters of `s` from `start` on.
spec fn literal_parts(s: Seq<char>, start: int, n: int) -> Seq<SyntaxTree> {
    Seq::new(n as nat, |j: int| leaf_at(Rule::CharLiteral, s, start + j, start + j + 1))
}

proof fn lemma_string_parts_plain(s: Seq<char>, start: int, x: Seq<char>, k: int)
    requires
        holds_at(s, start, x),
        is_plain_text(x),
        is_at(s, start + x.len(), '"'),
        0 <= k <= x.len(),
    ensures
        string_parts(s, start + k, '"') == Ok::<_, crate::grammar::Failure>(
            (literal_parts(s, start, x.len() as int).skip(k), start + x.len() + 1),
        ),
    decreases x.len() - k,
{
    lemma_holds_at(s, start, x);
    let parts = literal_parts(s, start, x.len() as int);
    if k < x.len() {
        assert(s[start + k] == x[k]);
        lemma_string_parts_plain(s, start, x, k + 1);
        assert(seq![parts[k]] + parts.skip(k + 1) =~= parts.skip(k));
    } else {
        assert(parts.skip(k) =~= Seq::<SyntaxTree>::empty());
    }
}

proof fn lemma_identifier_parts_plain(s: Seq<char>, start: int, key: Seq<char>, k: int)
    requires
        holds_at(s, start, key),
        is_identifier_text(key),
        is_at(s, start + key.len(), ':'),
        0 <= k <= key.len(),
    ensures
        identifier_parts(s, start + k, k == 0) == (
            literal_parts(s, start, key.len() as int).skip(k),
            start + key.len(),
        ),
    decreases key.len() - k,
{
    lemma_holds_at(s, start, key);
    let parts = literal_parts(s, start, key.len() as int);
    if k < key.len() {
        assert(s[start + k] == key[k]);
        assert(key[k] != '\\');
        lemma_identifier_parts_plain(s, start, key, k + 1);
        assert(seq![parts[k]] + parts.skip(k + 1) =~= parts.skip(k));
    } else {
        assert(parts.skip(k) =~= Seq::<SyntaxTree>::empty());
    }
}

/// Literal components stand for their characters.
proof fn lemma_decode_literals(parts: Seq<SyntaxTree>, x: Seq<char>, k: int, location: Location)
    requires
        parts.len() == x.len(),
        forall|j: int|
            0 <= j < parts.len() ==> (#[trigger] parts[j]).rule == Rule::CharLiteral && parts[j].text
                == seq![x[j]],
        0 <= k <= x.len(),
    ensures
        decode_from(parts, k, location) == Ok::<_, ErrorView>(x.skip(k)),
    decreases x.len() - k,
{
    if k < x.len() {
        lemma_decode_literals(parts, x, k + 1, location);
        assert(parts[k].text + x.skip(k + 1) =~= x.skip(k));
    } else {
        assert(x.skip(k) =~= Seq::<char>::empty());
    }
}

proof fn lemma_literal_parts(s: Seq<char>, start: int, x: Seq<char>)
    requires
        holds_at(s, start, x),
    ensures
        literal_parts(s, start, x.len() as int).len() == x.len(),
        forall|j: int|
            0 <= j < x.len() ==> (#[trigger] literal_parts(s, start, x.len() as int)[j]).rule
                == Rule::CharLiteral && literal_parts(s, start, x.len() as int)[j].text == seq![
                x[j],
            ],
{
    lemma_holds_at(s, start, x);
    assert forall|j: int| 0 <= j < x.len() implies (#[trigger] literal_parts(
        s,
        start,
        x.len() as int,
    )[j]).text == seq![x[j]] by {
        assert(s.subrange(start + j, start + j + 1) =~= seq![s[start + j]]);
    }
}

/// A plain string between double quotes is read back as it is.
proof fn lemma_lex_string_quoted(s: Seq<char>, pos: int, x: Seq<char>)
    requires
        holds_at(s, pos, quoted(x)),
        is_plain_text(x),
    ensures
        lex_string(s, pos) matches Ok((t, end)) && end == pos + x.len() + 2 && t.rule
            == Rule::String && t.location == location_at(s, pos) && decode_text(t) == Ok::<
            _,
            ErrorView,
        >(x),
{
    let q = quoted(x);
    lemma_holds_at(s, pos, q);
    assert(q.len() == x.len() + 2);
    assert(s[pos + 0] == q[0]);
    assert(s[pos + (x.len() as int + 1)] == q[x.len() as int + 1]);
    assert(holds_at(s, pos + 1, x)) by {
        assert forall|j: int| 0 <= j < x.len() implies s[pos + 1 + j] == x[j] by {
            assert(s[pos + (j + 1)] == q[j + 1]);
        }
        assert(s.subrange(pos + 1, pos + 1 + x.len()) =~= x);
    }
    lemma_string_parts_plain(s, pos + 1, x, 0);
    let parts = literal_parts(s, pos + 1, x.len() as int);
    assert(parts.skip(0) =~= parts);
    lemma_literal_parts(s, pos + 1, x);
    lemma_decode_literals(parts, x, 0, location_at(s, pos));
    assert(x.skip(0) =~= x);
}

/// A canonical key is read back as it is.
proof fn lemma_lex_key_rendered(s: Seq<char>, pos: int, key: Seq<char>)
    requires
        holds_at(s, pos, render_key(key)),
        is_canonical_key(key),
        is_at(s, pos + render_key(key).len(), ':'),
    ensures
        lex_key(s, pos) matches Ok((t, end)) && end == pos + render_key(key).len() && t.is_text()
            && decode_text(t) == Ok::<_, ErrorView>(key),
        !is_space(s[pos]),
        s[pos] != '/' && s[pos] != '}',
{
    lemma_holds_at(s, pos, render_key(key));
    if has_white_space(key) {
        assert(s[pos + 0] == quoted(key)[0]);
        lemma_lex_string_quoted(s, pos, key);
        crate::grammar::lemma_lex_key(s, pos);
    } else {
        assert(s[pos + 0] == key[0]);
        lemma_identifier_parts_plain(s, pos, key, 0);
        let parts = literal_parts(s, pos, key.len() as int);
        assert(parts.skip(0) =~= parts);
        lemma_literal_parts(s, pos, key);
        lemma_decode_literals(parts, key, 0, location_at(s, pos));
        assert(key.skip(0) =~= key);
        crate::grammar::lemma_lex_key(s, pos);
    }
}

// Values

/// Whether a value can begin with `c`.
spec fn begins_value(c: char) -> bool {
    c == 'n' || c == 't' || c == 'f' || c == '"' || c == '[' || c == '{' || c == '+' || c == '-'
        || c == '.' || c == 'I' || c == 'N' || is_digit(c)
}

/// Whether the value `v` is read from the text `s` at `pos`: it is matched
/// there to the end of its text, and what is matched stands for the value
/// but for the locations.
pub open spec fn reads_as(s: Seq<char>, pos: int, v: JsonValue) -> bool {
    &&& lex_value(s, pos) matches Ok((t, end))
    &&& end == pos + render(v).len()
    &&& build_value(t) matches Ok(w)
    &&& w.unlocated() == v.unlocated()
}

/// The text of the elements from index `k` on, with the commas between
/// them and the bracket behind them.
spec fn items_tail(items: Seq<JsonValue>, k: int) -> Seq<char>
    decreases items.len() - k,
{
    if k < 0 || k >= items.len() {
        Seq::empty()
    } else if k == items.len() - 1 {
        render(items[k]) + seq![']']
    } else {
        render(items[k]) + seq![','] + items_tail(items, k + 1)
    }
}

/// The text of the members from index `k` on, with the commas between them
/// and the brace behind them.
spec fn members_tail(members: Seq<(Seq<char>, JsonValue)>, k: int) -> Seq<char>
    decreases members.len() - k,
{
    if k < 0 || k >= members.len() {
        Seq::empty()
    } else if k == members.len() - 1 {
        render_member(members[k].0, render(members[k].1)) + seq!['}']
    } else {
        render_member(members[k].0, render(members[k].1)) + seq![','] + members_tail(members, k + 1)
    }
}

proof fn lemma_items_tail(items: Seq<JsonValue>, k: int)
    requires
        0 <= k < items.len(),
    ensures
        render_items(items, items.len() as int) + seq![']'] == (if k == 0 {
            Seq::<char>::empty()
        } else {
            render_items(items, k) + seq![',']
        }) + items_tail(items, k),
    decreases items.len() - k,
{
    let n = items.len() as int;
    let head = if k == 0 {
        Seq::<char>::empty()
    } else {
        render_items(items, k) + seq![',']
    };
    if k == n - 1 {
        assert(render_items(items, n) + seq![']'] =~= head + items_tail(items, k));
    } else {
        lemma_items_tail(items, k + 1);
        assert(render_items(items, k + 1) + seq![','] + items_tail(items, k + 1) =~= head
            + items_tail(items, k));
    }
}

proof fn lemma_members_tail(members: Seq<(Seq<char>, JsonValue)>, k: int)
    requires
        0 <= k < members.len(),
    ensures
        render_members(members, members.len() as int) + seq!['}'] == (if k == 0 {
            Seq::<char>::empty()
        } else {
            render_members(members, k) + seq![',']
        }) + members_tail(members, k),
    decreases members.len() - k,
{
    let n = members.len() as int;
    let head = if k == 0 {
        Seq::<char>::empty()
    } else {
        render_members(members, k) + seq![',']
    };
    if k == n - 1 {
        assert(render_members(members, n) + seq!['}'] =~= head + members_tail(members, k));
    } else {
        lemma_members_tail(members, k + 1);
        assert(render_members(members, k + 1) + seq![','] + members_tail(members, k + 1) =~= head
            + members_tail(members, k));
    }
}

proof fn lemma_holds_split(s: Seq<char>, pos: int, a: Seq<char>, b: Seq<char>)
    requires
        holds_at(s, pos, a + b),
    ensures
        holds_at(s, pos, a),
        holds_at(s, pos + a.len(), b),
{
    lemma_holds_at(s, pos, a + b);
    assert forall|k: int| 0 <= k < a.len() implies s[pos + k] == a[k] by {
        assert((a + b)[k] == a[k]);
    }
    assert forall|k: int| 0 <= k < b.len() implies s[pos + a.len() + k] == b[k] by {
        assert(s[pos + (a.len() + k)] == (a + b)[a.len() + k]);
    }
    assert(s.subrange(pos, pos + a.len()) =~= a);
    assert(s.subrange(pos + a.len(), pos + a.len() + b.len()) =~= b);
}

/// The text of a canonical value begins with a character that begins a
/// value.
proof fn lemma_render_first(v: JsonValue)
    requires
        is_canonical(v),
    ensures
        render(v).len() > 0,
        begins_value(render(v)[0]),
{
    match v {
        JsonValue::Integer(i, _) => {
            lemma_integer_text(i as int);
        },
        JsonValue::Float(text, _) => {
            assert(infinity_text()[0] == 'I');
            assert(nan_text()[0] == 'N');
            if text.len() > 0 {
                if starts_with(text, 0, infinity_text()) {
                    assert(text.subrange(0, 8)[0] == 'I');
                }
                if starts_with(text, 0, nan_text()) {
                    assert(text.subrange(0, 3)[0] == 'N');
                }
            }
        },
        _ => {},
    }
}

/// What begins a value is no white space, begins no comment and is none of
/// the marks that part and close.
proof fn lemma_begins_value(s: Seq<char>, pos: int)
    requires
        0 <= pos < s.len(),
        begins_value(s[pos]),
    ensures
        trivia_end(s, pos) == pos,
        s[pos] != ']' && s[pos] != '}' && s[pos] != ',' && s[pos] != ':',
{
}

proof fn lemma_mark(s: Seq<char>, pos: int)
    requires
        0 <= pos < s.len(),
        s[pos] == ',' || s[pos] == ']' || s[pos] == '}' || s[pos] == ':',
    ensures
        trivia_end(s, pos) == pos,
{
}

/// Where every element is built, all of them are.
proof fn lemma_build_items_all(ts: Seq<SyntaxTree>, m: int)
    requires
        0 <= m <= ts.len(),
        forall|j: int| 0 <= j < ts.len() ==> build_value(#[trigger] ts[j]) is Ok,
    ensures
        build_items(ts, m) matches Ok(ws) && ws.len() == m && forall|j: int|
            0 <= j < m ==> build_value(ts[j]) == Ok::<_, ErrorView>(#[trigger] ws[j]),
    decreases m,
{
    if m > 0 {
        lemma_build_items_all(ts, m - 1);
    }
}

/// Where every member is built and no key comes twice, the members are
/// built one behind the other.
proof fn lemma_build_members_all(ts: Seq<SyntaxTree>, m: int, keys: Seq<Seq<char>>)
    requires
        0 <= m <= ts.len(),
        keys.len() == ts.len(),
        forall|i: int, j: int| 0 <= i < j < keys.len() ==> keys[i] != keys[j],
        forall|j: int|
            0 <= j < ts.len() ==> (#[trigger] ts[j]).children.len() == 2 && decode_text(
                ts[j].children[0],
            ) == Ok::<_, ErrorView>(keys[j]) && build_value(ts[j].children[1]) is Ok,
    ensures
        build_members(ts, m) matches Ok(ms) && ms.len() == m && forall|j: int|
            0 <= j < m ==> (#[trigger] ms[j]).0 == keys[j] && build_value(ts[j].children[1]) == Ok::<
                _,
                ErrorView,
            >(ms[j].1),
    decreases m,
{
    if m > 0 {
        lemma_build_members_all(ts, m - 1, keys);
        let before = build_members(ts, m - 1)->Ok_0;
        let key = keys[m - 1];
        assert(ts[m - 1].children.len() == 2);
        lemma_index_of_key(before, key);
        if let Some(i) = index_of_key(before, key) {
            assert(before[i].0 == keys[i]);
            assert(false);
        }
        let v = build_value(ts[m - 1].children[1])->Ok_0;
        let after = with_member(before, key, v);
        assert(after == before.push((key, v)));
        assert forall|j: int| 0 <= j < m implies (#[trigger] after[j]).0 == keys[j] && build_value(
            ts[j].children[1],
        ) == Ok::<_, ErrorView>(after[j].1) by {
            if j < m - 1 {
                assert(after[j] == before[j]);
            }
        }
    }
}

/// A word is found only where its first character stands.
proof fn lemma_first_of_word(s: Seq<char>, pos: int, word: Seq<char>)
    requires
        word.len() > 0,
        starts_with(s, pos, word),
    ensures
        0 <= pos < s.len(),
        s[pos] == word[0],
{
    assert(s.subrange(pos, pos + word.len())[0] == s[pos]);
}

/// What begins with none of the letters of the three words and with no
/// quote is none of the words and no string.
proof fn lemma_no_word(s: Seq<char>, pos: int)
    requires
        0 <= pos < s.len(),
    ensures
        s[pos] != 'n' ==> !starts_with(s, pos, null_text()),
        s[pos] != 't' ==> !starts_with(s, pos, true_text()),
        s[pos] != 'f' ==> !starts_with(s, pos, false_text()),
{
    if starts_with(s, pos, null_text()) {
        lemma_first_of_word(s, pos, null_text());
    }
    if starts_with(s, pos, true_text()) {
        lemma_first_of_word(s, pos, true_text());
    }
    if starts_with(s, pos, false_text()) {
        lemma_first_of_word(s, pos, false_text());
    }
}

proof fn lemma_reads_literal(s: Seq<char>, pos: int, v: JsonValue)
    requires
        v is Null || v is Bool,
        holds_at(s, pos, render(v)),
    ensures
        reads_as(s, pos, v),
{
    let r = render(v);
    lemma_holds_at(s, pos, r);
    assert(s[pos + 0] == r[0]);
    lemma_no_word(s, pos);
    assert(true_text() != false_text()) by {
        assert(true_text().len() != false_text().len());
    }
}

proof fn lemma_reads_number(s: Seq<char>, pos: int, v: JsonValue)
    requires
        v is Integer || v is Float,
        is_canonical(v),
        holds_at(s, pos, render(v)),
        ends_value(s, pos + render(v).len()),
    ensures
        reads_as(s, pos, v),
{
    let r = render(v);
    lemma_holds_at(s, pos, r);
    lemma_render_first(v);
    assert(s[pos + 0] == r[0]);
    lemma_no_word(s, pos);
    if let JsonValue::Integer(i, _) = v {
        lemma_integer_text(i as int);
    }
    lemma_number_end_local(s, pos, r);
    assert(number_end(s, pos) == Some(pos + r.len()));
    assert(s[pos] != 'n' && s[pos] != 't' && s[pos] != 'f' && s[pos] != '"' && s[pos] != '\'') by {
        assert(infinity_text()[0] == 'I');
        assert(nan_text()[0] == 'N');
        if starts_with(r, 0, infinity_text()) {
            lemma_first_of_word(r, 0, infinity_text());
        }
        if starts_with(r, 0, nan_text()) {
            lemma_first_of_word(r, 0, nan_text());
        }
        if starts_with(r, 1, infinity_text()) {
            lemma_first_of_word(r, 1, infinity_text());
        }
        if starts_with(r, 1, nan_text()) {
            lemma_first_of_word(r, 1, nan_text());
        }
    }
    let t = leaf_at(Rule::Number, s, pos, pos + r.len());
    assert(lex_value(s, pos) == Ok::<_, crate::grammar::Failure>((t, pos + r.len())));
    assert(t.text == r);
}

proof fn lemma_reads_string(s: Seq<char>, pos: int, v: JsonValue)
    requires
        v is String,
        is_canonical(v),
        holds_at(s, pos, render(v)),
    ensures
        reads_as(s, pos, v),
{
    let x = v->String_0;
    let r = render(v);
    lemma_holds_at(s, pos, r);
    assert(s[pos + 0] == r[0]);
    lemma_no_word(s, pos);
    lemma_lex_string_quoted(s, pos, x);
}

/// What begins with a bracket or a brace is no number.
proof fn lemma_no_number(s: Seq<char>, pos: int)
    requires
        0 <= pos < s.len(),
        s[pos] == '[' || s[pos] == '{',
    ensures
        number_end(s, pos) is None,
        !starts_with(s, pos, null_text()),
        !starts_with(s, pos, true_text()),
        !starts_with(s, pos, false_text()),
{
    lemma_no_word(s, pos);
    assert(infinity_text()[0] == 'I');
    assert(nan_text()[0] == 'N');
    if starts_with(s, pos, infinity_text()) {
        lemma_first_of_word(s, pos, infinity_text());
    }
    if starts_with(s, pos, nan_text()) {
        lemma_first_of_word(s, pos, nan_text());
    }
}

proof fn lemma_reads_empty(s: Seq<char>, pos: int, v: JsonValue)
    requires
        (v matches JsonValue::Array(items, _) && items.len() == 0) || (v matches JsonValue::Object(
            members,
            _,
        ) && members.len() == 0),
        holds_at(s, pos, render(v)),
    ensures
        reads_as(s, pos, v),
{
    let r = render(v);
    lemma_holds_at(s, pos, r);
    assert(r.len() == 2);
    assert(s[pos + 0] == r[0]);
    assert(s[pos + 1] == r[1]);
    lemma_no_number(s, pos);
    lemma_mark(s, pos + 1);
    let t = lex_value(s, pos)->Ok_0.0;
    assert(t.children =~= Seq::<SyntaxTree>::empty());
    let w = build_value(t)->Ok_0;
    match v {
        JsonValue::Array(items, _) => {
            assert(w.unlocated()->Array_0 =~= v.unlocated()->Array_0);
        },
        JsonValue::Object(members, _) => {
            assert(w.unlocated()->Object_0 =~= v.unlocated()->Object_0);
        },
        _ => {},
    }
}

/// The text of an array with elements is a bracket and the text of its
/// elements with their closing bracket.
proof fn lemma_array_layout(s: Seq<char>, pos: int, items: Seq<JsonValue>, v: JsonValue)
    requires
        v matches JsonValue::Array(x, _) && x == items,
        items.len() > 0,
        holds_at(s, pos, render(v)),
    ensures
        s[pos] == '[',
        0 <= pos < s.len(),
        holds_at(s, pos + 1, items_tail(items, 0)),
        render(v).len() == 1 + items_tail(items, 0).len(),
{
    let r = render(v);
    let n = items.len() as int;
    let inner = render_items(items, n);
    lemma_items_tail(items, 0);
    let tail = items_tail(items, 0);
    assert(r =~= seq!['['] + tail) by {
        assert(Seq::<char>::empty() + tail =~= tail);
        assert(seq!['['] + inner + seq![']'] =~= seq!['['] + (inner + seq![']']));
    }
    lemma_holds_split(s, pos, seq!['['], tail);
    lemma_holds_at(s, pos, seq!['[']);
    assert(s[pos + 0] == seq!['['][0]);
}

/// The text of an object with members is a brace and the text of its
/// members with their closing brace.
proof fn lemma_object_layout(
    s: Seq<char>,
    pos: int,
    members: Seq<(Seq<char>, JsonValue)>,
    v: JsonValue,
)
    requires
        v matches JsonValue::Object(x, _) && x == members,
        members.len() > 0,
        holds_at(s, pos, render(v)),
    ensures
        s[pos] == '{',
        0 <= pos < s.len(),
        holds_at(s, pos + 1, members_tail(members, 0)),
        render(v).len() == 1 + members_tail(members, 0).len(),
{
    let r = render(v);
    let n = members.len() as int;
    let inner = render_members(members, n);
    lemma_members_tail(members, 0);
    let tail = members_tail(members, 0);
    assert(r =~= seq!['{'] + tail) by {
        assert(Seq::<char>::empty() + tail =~= tail);
        assert(seq!['{'] + inner + seq!['}'] =~= seq!['{'] + (inner + seq!['}']));
    }
    lemma_holds_split(s, pos, seq!['{'], tail);
    lemma_holds_at(s, pos, seq!['{']);
    assert(s[pos + 0] == seq!['{'][0]);
}

/// An array whose elements are read is read.
proof fn lemma_array_of_items(s: Seq<char>, pos: int, items: Seq<JsonValue>, v: JsonValue)
    requires
        v matches JsonValue::Array(x, _) && x == items,
        0 <= pos < s.len(),
        s[pos] == '[',
        trivia_end(s, pos + 1) == pos + 1,
        lex_items(s, pos + 1) matches Ok((ts, end)) && end == pos + render(v).len() && ts.len()
            == items.len() && forall|j: int|
            0 <= j < ts.len() ==> (build_value(#[trigger] ts[j]) matches Ok(w) && w.unlocated()
                == items[j].unlocated()),
    ensures
        reads_as(s, pos, v),
{
    lemma_no_number(s, pos);
    let n = items.len() as int;
    let (ts, end) = lex_items(s, pos + 1)->Ok_0;
    let t = branch_at(Rule::Array, s, pos, ts);
    assert(lex_value(s, pos) == Ok::<_, crate::grammar::Failure>((t, end)));
    lemma_build_items_all(ts, n);
    let ws = build_items(ts, n)->Ok_0;
    let w = build_value(t)->Ok_0;
    assert(w == JsonValue::Array(ws, Some(t.location)));
    assert(w.unlocated()->Array_0 =~= v.unlocated()->Array_0);
}

/// An object whose members are read is read.
proof fn lemma_object_of_members(
    s: Seq<char>,
    pos: int,
    members: Seq<(Seq<char>, JsonValue)>,
    v: JsonValue,
)
    requires
        v matches JsonValue::Object(x, _) && x == members,
        keys_unique(members),
        0 <= pos < s.len(),
        s[pos] == '{',
        trivia_end(s, pos + 1) == pos + 1,
        lex_members(s, pos + 1) matches Ok((ts, end)) && end == pos + render(v).len() && ts.len()
            == members.len() && forall|j: int|
            0 <= j < ts.len() ==> (#[trigger] ts[j]).children.len() == 2 && decode_text(
                ts[j].children[0],
            ) == Ok::<_, ErrorView>(members[j].0) && (build_value(ts[j].children[1]) matches Ok(w)
                && w.unlocated() == members[j].1.unlocated()),
    ensures
        reads_as(s, pos, v),
{
    lemma_no_number(s, pos);
    let n = members.len() as int;
    let (ts, end) = lex_members(s, pos + 1)->Ok_0;
    let t = branch_at(Rule::Object, s, pos, ts);
    assert(lex_value(s, pos) == Ok::<_, crate::grammar::Failure>((t, end)));
    let keys = Seq::new(members.len(), |j: int| members[j].0);
    assert forall|i: int, j: int| 0 <= i < j < keys.len() implies keys[i] != keys[j] by {
        assert(members[i].0 != members[j].0);
    }
    lemma_build_members_all(ts, n, keys);
    let ms = build_members(ts, n)->Ok_0;
    let w = build_value(t)->Ok_0;
    assert(w == JsonValue::Object(ms, Some(t.location)));
    assert(w.unlocated()->Object_0 =~= v.unlocated()->Object_0);
}

/// A canonical value is read from its text, wherever that stands and
/// whatever follows it that cannot belong to it.
pub proof fn lemma_reads_rendered(s: Seq<char>, pos: int, v: JsonValue)
    requires
        is_canonical(v),
        holds_at(s, pos, render(v)),
        ends_value(s, pos + render(v).len()),
    ensures
        reads_as(s, pos, v),
    decreases v, 0int,
{
    match v {
        JsonValue::Null(_) | JsonValue::Bool(_, _) => {
            lemma_reads_literal(s, pos, v);
        },
        JsonValue::Integer(_, _) | JsonValue::Float(_, _) => {
            lemma_reads_number(s, pos, v);
        },
        JsonValue::String(_, _) => {
            lemma_reads_string(s, pos, v);
        },
        JsonValue::Array(items, _) => {
            if items.len() == 0 {
                lemma_reads_empty(s, pos, v);
            } else {
                lemma_array_layout(s, pos, items, v);
                lemma_reads_items(s, pos + 1, items, 0);
                lemma_array_of_items(s, pos, items, v);
            }
        },
        JsonValue::Object(members, _) => {
            if members.len() == 0 {
                lemma_reads_empty(s, pos, v);
            } else {
                lemma_object_layout(s, pos, members, v);
                lemma_reads_members(s, pos + 1, members, 0);
                lemma_object_of_members(s, pos, members, v);
            }
        },
    }
}

/// Canonical elements are read from their text one by one.
proof fn lemma_reads_items(s: Seq<char>, pos: int, items: Seq<JsonValue>, k: int)
    requires
        0 <= k < items.len(),
        forall|i: int| 0 <= i < items.len() ==> is_canonical(#[trigger] items[i]),
        holds_at(s, pos, items_tail(items, k)),
    ensures
        lex_items(s, pos) matches Ok((ts, end)) && end == pos + items_tail(items, k).len()
            && ts.len() == items.len() - k && forall|j: int|
            0 <= j < ts.len() ==> (build_value(#[trigger] ts[j]) matches Ok(w) && w.unlocated()
                == items[k + j].unlocated()),
        trivia_end(s, pos) == pos,
    decreases items, items.len() - k,
{
    let n = items.len() as int;
    let first = render(items[k]);
    let rest = if k == n - 1 {
        seq![']']
    } else {
        seq![','] + items_tail(items, k + 1)
    };
    assert(items_tail(items, k) =~= first + rest);
    lemma_holds_split(s, pos, first, rest);
    lemma_holds_at(s, pos + first.len(), rest);
    let e = pos + first.len();
    assert(s[e + 0] == rest[0]);
    lemma_render_first(items[k]);
    lemma_holds_at(s, pos, first);
    assert(s[pos + 0] == first[0]);
    lemma_begins_value(s, pos);
    lemma_reads_rendered(s, pos, items[k]);
    lemma_mark(s, e);
    let t = lex_value(s, pos)->Ok_0.0;
    if k == n - 1 {
        let ts = lex_items(s, pos)->Ok_0.0;
        assert(ts == seq![t]);
    } else {
        let tail = items_tail(items, k + 1);
        lemma_holds_split(s, e, seq![','], tail);
        lemma_render_first(items[k + 1]);
        lemma_holds_at(s, e + 1, tail);
        assert(s[e + 1 + 0] == tail[0]);
        assert(tail[0] == render(items[k + 1])[0]);
        lemma_begins_value(s, e + 1);
        lemma_reads_items(s, e + 1, items, k + 1);
        let more = lex_items(s, e + 1)->Ok_0.0;
        let ts = lex_items(s, pos)->Ok_0.0;
        assert(ts == seq![t] + more);
        assert forall|j: int| 0 <= j < ts.len() implies (build_value(#[trigger] ts[j]) matches Ok(
            w,
        ) && w.unlocated() == items[k + j].unlocated()) by {
            if j > 0 {
                assert(ts[j] == more[j - 1]);
            }
        }
    }
}

/// Where the parts of the member at index `k` stand in the text.
struct MemberLayout {
    /// Where the colon stands.
    colon: int,
    /// Where the value ends.
    end: int,
}

/// Where the parts of the member at index `k` stand when its text begins
/// at `pos`.
spec fn member_layout(pos: int, members: Seq<(Seq<char>, JsonValue)>, k: int) -> MemberLayout {
    let colon = pos + render_key(members[k].0).len();
    MemberLayout { colon, end: colon + 1 + render(members[k].1).len() }
}

proof fn lemma_member_layout(s: Seq<char>, pos: int, members: Seq<(Seq<char>, JsonValue)>, k: int)
    requires
        0 <= k < members.len(),
        holds_at(s, pos, members_tail(members, k)),
    ensures
        ({
            let l = member_layout(pos, members, k);
            &&& holds_at(s, pos, render_key(members[k].0))
            &&& is_at(s, l.colon, ':')
            &&& holds_at(s, l.colon + 1, render(members[k].1))
            &&& 0 <= l.end < s.len()
            &&& k == members.len() - 1 ==> s[l.end] == '}' && l.end + 1 == pos + members_tail(
                members,
                k,
            ).len()
            &&& k < members.len() - 1 ==> s[l.end] == ',' && holds_at(
                s,
                l.end + 1,
                members_tail(members, k + 1),
            ) && l.end + 1 + members_tail(members, k + 1).len() == pos + members_tail(
                members,
                k,
            ).len()
        }),
{
    let n = members.len() as int;
    let key_text = render_key(members[k].0);
    let value_text = render(members[k].1);
    let rest = if k == n - 1 {
        seq!['}']
    } else {
        seq![','] + members_tail(members, k + 1)
    };
    assert(members_tail(members, k) =~= key_text + (seq![':'] + (value_text + rest)));
    lemma_holds_split(s, pos, key_text, seq![':'] + (value_text + rest));
    let colon = pos + key_text.len();
    lemma_holds_split(s, colon, seq![':'], value_text + rest);
    lemma_holds_at(s, colon, seq![':']);
    assert(s[colon + 0] == seq![':'][0]);
    lemma_holds_split(s, colon + 1, value_text, rest);
    let e = colon + 1 + value_text.len();
    lemma_holds_at(s, e, rest);
    assert(s[e + 0] == rest[0]);
    if k < n - 1 {
        lemma_holds_split(s, e, seq![','], members_tail(members, k + 1));
    }
}

/// One member in front of the members that follow it.
proof fn lemma_members_step(
    s: Seq<char>,
    pos: int,
    colon: int,
    key_tree: SyntaxTree,
    value_tree: SyntaxTree,
    end: int,
)
    requires
        0 <= pos < colon < end < s.len(),
        s[pos] != '}',
        lex_key(s, pos) == Ok::<_, crate::grammar::Failure>((key_tree, colon)),
        is_at(s, colon, ':'),
        trivia_end(s, colon + 1) == colon + 1,
        lex_value(s, colon + 1) == Ok::<_, crate::grammar::Failure>((value_tree, end)),
        s[end] == ',' || s[end] == '}',
        s[end] == ',' ==> trivia_end(s, end + 1) == end + 1,
    ensures
        lex_members(s, pos) == if s[end] == ',' {
            prepend(
                branch_at(Rule::Pair, s, pos, seq![key_tree, value_tree]),
                lex_members(s, end + 1),
            )
        } else {
            Ok((seq![branch_at(Rule::Pair, s, pos, seq![key_tree, value_tree])], end + 1))
        },
{
    lemma_mark(s, colon);
    lemma_mark(s, end);
}

/// Canonical members are read from their text one by one.
proof fn lemma_reads_members(s: Seq<char>, pos: int, members: Seq<(Seq<char>, JsonValue)>, k: int)
    requires
        0 <= k < members.len(),
        forall|i: int|
            0 <= i < members.len() ==> is_canonical_key((#[trigger] members[i]).0) && is_canonical(
                members[i].1,
            ),
        holds_at(s, pos, members_tail(members, k)),
    ensures
        lex_members(s, pos) matches Ok((ts, end)) && end == pos + members_tail(members, k).len()
            && ts.len() == members.len() - k && forall|j: int|
            0 <= j < ts.len() ==> (#[trigger] ts[j]).children.len() == 2 && decode_text(
                ts[j].children[0],
            ) == Ok::<_, ErrorView>(members[k + j].0) && (build_value(ts[j].children[1]) matches Ok(
                w,
            ) && w.unlocated() == members[k + j].1.unlocated()),
        trivia_end(s, pos) == pos,
    decreases members, members.len() - k,
{
    let n = members.len() as int;
    let key = members[k].0;
    let value = members[k].1;
    let l = member_layout(pos, members, k);
    lemma_member_layout(s, pos, members, k);
    lemma_lex_key_rendered(s, pos, key);
    let start = l.colon + 1;
    lemma_render_first(value);
    lemma_holds_at(s, start, render(value));
    assert(s[start + 0] == render(value)[0]);
    lemma_begins_value(s, start);
    lemma_reads_rendered(s, start, value);
    let key_tree = lex_key(s, pos)->Ok_0.0;
    let value_tree = lex_value(s, start)->Ok_0.0;
    let member = branch_at(Rule::Pair, s, pos, seq![key_tree, value_tree]);
    assert(member.children[0] == key_tree && member.children[1] == value_tree);
    assert(member.children.len() == 2);
    if k < n - 1 {
        lemma_reads_members(s, l.end + 1, members, k + 1);
    }
    lemma_members_step(s, pos, l.colon, key_tree, value_tree, l.end);
    if k == n - 1 {
        let ts = lex_members(s, pos)->Ok_0.0;
        assert(ts == seq![member]);
        assert(ts[0] == member);
    } else {
        let more = lex_members(s, l.end + 1)->Ok_0.0;
        let ts = lex_members(s, pos)->Ok_0.0;
        assert(ts == seq![member] + more);
        assert forall|j: int| 0 <= j < ts.len() implies (#[trigger] ts[j]).children.len() == 2
            && decode_text(ts[j].children[0]) == Ok::<_, ErrorView>(members[k + j].0) && (
        build_value(ts[j].children[1]) matches Ok(w) && w.unlocated() == members[k
            + j].1.unlocated()) by {
            if j > 0 {
                assert(ts[j] == more[j - 1]);
            } else {
                assert(ts[0] == member);
            }
        }
    }
}

/// The text of a value does not depend on its locations.
pub proof fn lemma_render_unlocated(v: JsonValue)
    ensures
        render(v.unlocated()) == render(v),
    decreases v, 0int,
{
    match v {
        JsonValue::Array(items, _) => {
            lemma_render_items_unlocated(items, items.len() as int);
        },
        JsonValue::Object(members, _) => {
            lemma_render_members_unlocated(members, members.len() as int);
        },
        _ => {},
    }
}

proof fn lemma_render_items_unlocated(items: Seq<JsonValue>, n: int)
    requires
        0 <= n <= items.len(),
    ensures
        render_items(JsonValue::Array(items, None).unlocated()->Array_0, n) == render_items(
            items,
            n,
        ),
    decreases items, n,
{
    if n > 0 {
        lemma_render_items_unlocated(items, n - 1);
        lemma_render_unlocated(items[n - 1]);
        lemma_render_unlocated(items[0]);
    }
}

proof fn lemma_render_members_unlocated(members: Seq<(Seq<char>, JsonValue)>, n: int)
    requires
        0 <= n <= members.len(),
    ensures
        render_members(JsonValue::Object(members, None).unlocated()->Object_0, n)
            == render_members(members, n),
    decreases members, n,
{
    if n > 0 {
        lemma_render_members_unlocated(members, n - 1);
        lemma_render_unlocated(members[n - 1].1);
        lemma_render_unlocated(members[0].1);
    }
}

/// The round trip: the canonical text of a canonical value is parsed as
/// that value, but for the locations, which parsing adds, and what is
/// parsed is rendered as the same text again. The text must not be longer
/// than can be counted.
pub proof fn lemma_round_trip(v: JsonValue)
    requires
        is_canonical(v),
        render(v).len() < usize::MAX,
    ensures
        parse_outcome(render(v)) matches Ok(w) && w.unlocated() == v.unlocated() && render(w)
            == render(v),
{
    let s = render(v);
    assert(holds_at(s, 0, s)) by {
        assert(s.subrange(0, s.len() as int) =~= s);
    }
    lemma_render_first(v);
    lemma_begins_value(s, 0);
    lemma_reads_rendered(s, 0, v);
    let w = parse_outcome(s)->Ok_0;
    lemma_render_unlocated(v);
    lemma_render_unlocated(w);
}

} // verus!
