//! The number decoder: it tells integers from floating-point numbers by
//! their text, reads the integers, and checks the floating-point literals.

use crate::chars::{has_prefix_at, to_chars};
use crate::error::{ErrorView, JsonError, Location};
use crate::grammar::{digits_end, infinity_text, is_at, nan_text};
use crate::range::{chars_reach_double_limit, reaches_double_limit};
use crate::syntax::SyntaxNode;
use vstd::prelude::*;
use vstd::string::*;

verus! {

// Classification

/// Whether `s` is a hexadecimal literal: `0x` or `0X` and something behind it.
pub open spec fn is_hex_literal_text(s: Seq<char>) -> bool {
    s.len() > 2 && s[0] == '0' && (s[1] == 'x' || s[1] == 'X')
}

/// Whether `s` is `Infinity` or `-Infinity`.
pub open spec fn is_infinite_text(s: Seq<char>) -> bool {
    s == infinity_text() || s == seq!['-'] + infinity_text()
}

/// Whether `s` is `NaN` or `-NaN`.
pub open spec fn is_nan_text(s: Seq<char>) -> bool {
    s == nan_text() || s == seq!['-'] + nan_text()
}

/// Whether the number with the text `s` is an integer: it has no decimal
/// point, it is a hexadecimal literal or has no exponent, and it is neither
/// an infinity nor a NaN.
pub open spec fn is_integer_text(s: Seq<char>) -> bool {
    &&& !s.contains('.')
    &&& is_hex_literal_text(s) || (!s.contains('e') && !s.contains('E'))
    &&& !is_infinite_text(s)
    &&& !is_nan_text(s)
}

fn chars_are_hex_literal(s: &Vec<char>) -> (r: bool)
    ensures
        r == is_hex_literal_text(s@),
{
    s.len() > 2 && s[0] == '0' && (s[1] == 'x' || s[1] == 'X')
}

/// Whether `s` is `lit`, or `lit` behind a minus sign.
fn chars_are_signed(s: &Vec<char>, lit: &str) -> (r: bool)
    requires
        lit@.len() < 100,
    ensures
        r == (s@ == lit@ || s@ == seq!['-'] + lit@),
{
    let n = lit.unicode_len();
    if s.len() == n {
        let r = has_prefix_at(s, 0, lit);
        assert(s@.subrange(0, n as int) =~= s@);
        assert((seq!['-'] + lit@).len() == n + 1);
        r
    } else if s.len() == n + 1 {
        let r = s[0] == '-' && has_prefix_at(s, 1, lit);
        proof {
            let t = seq!['-'] + lit@;
            if r {
                assert(s@ =~= t) by {
                    assert forall|i: int| 0 <= i < s@.len() implies s@[i] == t[i] by {
                        if i > 0 {
                            assert(s@.subrange(1, 1 + n)[i - 1] == lit@[i - 1]);
                        }
                    }
                }
            }
            if s@ == t {
                assert(s@.subrange(1, 1 + n) =~= lit@);
            }
        }
        r
    } else {
        assert((seq!['-'] + lit@).len() == n + 1);
        false
    }
}

fn chars_are_infinite(s: &Vec<char>) -> (r: bool)
    ensures
        r == is_infinite_text(s@),
{
    proof {
        reveal_strlit("Infinity");
        assert("Infinity"@ =~= infinity_text());
    }
    chars_are_signed(s, "Infinity")
}

fn chars_are_nan(s: &Vec<char>) -> (r: bool)
    ensures
        r == is_nan_text(s@),
{
    proof {
        reveal_strlit("NaN");
        assert("NaN"@ =~= nan_text());
    }
    chars_are_signed(s, "NaN")
}

fn chars_contain(s: &Vec<char>, c: char) -> (r: bool)
    ensures
        r == s@.contains(c),
{
    let mut i: usize = 0;
    while i < s.len()
        invariant
            i <= s.len(),
            forall|j: int| 0 <= j < i ==> s@[j] != c,
        decreases s.len() - i,
    {
        if s[i] == c {
            return true;
        }
        i += 1;
    }
    false
}

pub(crate) fn chars_are_integer(s: &Vec<char>) -> (r: bool)
    ensures
        r == is_integer_text(s@),
{
    !chars_contain(s, '.') && (chars_are_hex_literal(s) || (!chars_contain(s, 'e')
        && !chars_contain(s, 'E'))) && !chars_are_infinite(s) && !chars_are_nan(s)
}

/// Tells whether `s` is a hexadecimal literal: `0x` or `0X` and something
/// behind it.
pub fn is_hex_literal(s: &str) -> (r: bool)
    ensures
        r == is_hex_literal_text(s@),
{
    chars_are_hex_literal(&to_chars(s))
}

/// Tells whether `s` is `Infinity` or `-Infinity`.
pub fn is_infinite(s: &str) -> (r: bool)
    ensures
        r == is_infinite_text(s@),
{
    chars_are_infinite(&to_chars(s))
}

/// Tells whether `s` is `NaN` or `-NaN`.
pub fn is_nan(s: &str) -> (r: bool)
    ensures
        r == is_nan_text(s@),
{
    chars_are_nan(&to_chars(s))
}

/// Tells whether the number with the text `s` is an integer rather than a
/// floating-point number.
pub fn is_int(s: &str) -> (r: bool)
    ensures
        r == is_integer_text(s@),
{
    chars_are_integer(&to_chars(s))
}

// Integers

/// The number that the character `c` stands for as a digit: ten and more
/// for the letters, in either case, and 36 for what is no digit at all.
pub open spec fn digit_number(c: char) -> int {
    if '0' <= c <= '9' {
        c as int - '0' as int
    } else if 'a' <= c <= 'z' {
        c as int - 'a' as int + 10
    } else if 'A' <= c <= 'Z' {
        c as int - 'A' as int + 10
    } else {
        36
    }
}

/// Whether all of `s` are digits of the base `radix`.
pub open spec fn all_digits(s: Seq<char>, radix: int) -> bool {
    forall|i: int| 0 <= i < s.len() ==> digit_number(#[trigger] s[i]) < radix
}

/// The number that the digits `s` spell in the base `radix`.
pub open spec fn digits_value(s: Seq<char>, radix: int) -> int
    decreases s.len(),
{
    if s.len() == 0 {
        0
    } else {
        digits_value(s.drop_last(), radix) * radix + digit_number(s.last())
    }
}

/// The number of sign characters that `s` begins with: one or none.
pub open spec fn sign_length(s: Seq<char>) -> int {
    if s.len() > 0 && (s[0] == '+' || s[0] == '-') {
        1
    } else {
        0
    }
}

/// The integer that `s` spells in the base `radix`: a sign, if there is
/// one, and at least one digit behind it.
pub open spec fn integer_value(s: Seq<char>, radix: int) -> Option<int> {
    let digits = s.skip(sign_length(s));
    if digits.len() == 0 || !all_digits(digits, radix) {
        None
    } else if s[0] == '-' {
        Some(-digits_value(digits, radix))
    } else {
        Some(digits_value(digits, radix))
    }
}

/// The signed 64-bit integer that `s` spells in the base `radix`, if it
/// spells an integer and that fits.
pub open spec fn parse_i64_text(s: Seq<char>, radix: int) -> Option<i64> {
    match integer_value(s, radix) {
        Some(v) => if i64::MIN <= v <= i64::MAX {
            Some(v as i64)
        } else {
            None
        },
        None => None,
    }
}

/// The unsigned 32-bit integer that `s` spells in the base `radix`, if it
/// spells one without a minus sign and that fits.
pub open spec fn parse_u32_text(s: Seq<char>, radix: int) -> Option<u32> {
    match integer_value(s, radix) {
        Some(v) => if s[0] != '-' && v <= u32::MAX {
            Some(v as u32)
        } else {
            None
        },
        None => None,
    }
}

/// Digits spell a number that is not negative and not smaller than the
/// number of the digits without the last.
pub proof fn lemma_digits_value_bounds(s: Seq<char>, radix: int)
    requires
        radix >= 1,
    ensures
        digits_value(s, radix) >= 0,
        s.len() > 0 ==> digits_value(s.drop_last(), radix) <= digits_value(s, radix),
    decreases s.len(),
{
    if s.len() > 0 {
        lemma_digits_value_bounds(s.drop_last(), radix);
        let v = digits_value(s.drop_last(), radix);
        assert(v * radix >= v) by (nonlinear_arith)
            requires
                v >= 0,
                radix >= 1,
        ;
    }
}

/// A number never gets smaller by more digits behind it.
pub proof fn lemma_digits_value_prefix(s: Seq<char>, k: int, radix: int)
    requires
        radix >= 1,
        0 <= k <= s.len(),
    ensures
        0 <= digits_value(s.take(k), radix) <= digits_value(s, radix),
    decreases s.len() - k,
{
    lemma_digits_value_bounds(s.take(k), radix);
    if k < s.len() {
        lemma_digits_value_prefix(s.drop_last(), k, radix);
        lemma_digits_value_bounds(s, radix);
        assert(s.drop_last().take(k) =~= s.take(k));
    } else {
        assert(s.take(k) =~= s);
    }
}

fn digit_of(c: char) -> (r: u32)
    ensures
        r == digit_number(c),
{
    if '0' <= c && c <= '9' {
        c as u32 - '0' as u32
    } else if 'a' <= c && c <= 'z' {
        c as u32 - 'a' as u32 + 10
    } else if 'A' <= c && c <= 'Z' {
        c as u32 - 'A' as u32 + 10
    } else {
        36
    }
}

/// The number that the characters of `s` from `from` on spell as digits of
/// the base `radix`, where there is at least one, all are digits and the
/// number is at most `limit`.
fn magnitude(s: &Vec<char>, from: usize, radix: u32, limit: u64) -> (r: Option<u64>)
    requires
        from <= s.len(),
        1 <= radix <= 36,
    ensures
        ({
            let digits = s@.skip(from as int);
            r == if digits.len() > 0 && all_digits(digits, radix as int) && digits_value(
                digits,
                radix as int,
            ) <= limit {
                Some(digits_value(digits, radix as int) as u64)
            } else {
                None
            }
        }),
{
    let ghost digits = s@.skip(from as int);
    if from == s.len() {
        return None;
    }
    let mut value: u64 = 0;
    let mut i: usize = from;
    assert(digits.take(0) =~= Seq::<char>::empty());
    while i < s.len()
        invariant
            from <= i <= s.len(),
            1 <= radix <= 36,
            digits == s@.skip(from as int),
            all_digits(digits.take(i - from), radix as int),
            value == digits_value(digits.take(i - from), radix as int),
            value <= limit,
        decreases s.len() - i,
    {
        let d = digit_of(s[i]);
        let ghost next = digits.take(i - from + 1);
        proof {
            assert(next.drop_last() =~= digits.take(i - from));
            assert(next.last() == s@[i as int]);
            assert(digits[i - from] == s@[i as int]);
        }
        if d >= radix {
            return None;
        }
        assert(value as int * radix as int <= u64::MAX * 36) by (nonlinear_arith)
            requires
                0 <= value as int <= u64::MAX,
                1 <= radix as int <= 36,
        ;
        let wide: u128 = value as u128 * radix as u128 + d as u128;
        if wide > limit as u128 {
            proof {
                if all_digits(digits, radix as int) {
                    assert(value as int * radix as int == value as u128 * radix as u128) by (nonlinear_arith)
                        requires
                            0 <= value as int <= u64::MAX,
                            1 <= radix as int <= 36,
                    ;
                    lemma_digits_value_prefix(digits, i - from + 1, radix as int);
                }
            }
            return None;
        }
        proof {
            assert(value as int * radix as int == value as u128 * radix as u128) by (nonlinear_arith)
                requires
                    0 <= value as int <= u64::MAX,
                    1 <= radix as int <= 36,
            ;
            assert forall|j: int| 0 <= j < next.len() implies digit_number(#[trigger] next[j])
                < radix by {
                if j < i - from {
                    assert(next[j] == digits.take(i - from)[j]);
                }
            }
        }
        value = wide as u64;
        i += 1;
    }
    assert(digits.take(i - from) =~= digits);
    Some(value)
}

/// Reads the characters of `s` from `from` on as a signed 64-bit integer in
/// the base `radix`.
pub(crate) fn chars_to_i64(s: &Vec<char>, from: usize, radix: u32) -> (r: Option<i64>)
    requires
        from <= s.len(),
        1 <= radix <= 36,
    ensures
        r == parse_i64_text(s@.skip(from as int), radix as int),
{
    let ghost text = s@.skip(from as int);
    if from == s.len() {
        return None;
    }
    assert(text[0] == s@[from as int]);
    let negative = s[from] == '-';
    let start = if s[from] == '-' || s[from] == '+' {
        from + 1
    } else {
        from
    };
    let ghost digits = s@.skip(start as int);
    assert(text.skip(sign_length(text)) =~= digits);
    proof {
        lemma_digits_value_bounds(digits, radix as int);
    }
    if negative {
        match magnitude(s, start, radix, 0x8000_0000_0000_0000) {
            Some(m) => {
                assert(m == digits_value(digits, radix as int) && m <= 0x8000_0000_0000_0000);
                if m == 0x8000_0000_0000_0000 {
                    Some(i64::MIN)
                } else {
                    Some(-(m as i64))
                }
            },
            None => None,
        }
    } else {
        match magnitude(s, start, radix, 0x7fff_ffff_ffff_ffff) {
            Some(m) => {
                assert(m == digits_value(digits, radix as int) && m <= 0x7fff_ffff_ffff_ffff);
                Some(m as i64)
            },
            None => None,
        }
    }
}

/// Reads `s` as an unsigned 32-bit integer in the base `radix`.
pub(crate) fn chars_to_u32(s: &Vec<char>, radix: u32) -> (r: Option<u32>)
    requires
        1 <= radix <= 36,
    ensures
        r == parse_u32_text(s@, radix as int),
{
    if s.len() == 0 {
        assert(s@.skip(0) =~= s@);
        return None;
    }
    if s[0] == '-' {
        return None;
    }
    let start: usize = if s[0] == '+' {
        1
    } else {
        0
    };
    let ghost digits = s@.skip(start as int);
    assert(s@.skip(sign_length(s@)) =~= digits);
    proof {
        lemma_digits_value_bounds(digits, radix as int);
    }
    match magnitude(s, start, radix, 0xffff_ffff) {
        Some(m) => {
            assert(m == digits_value(digits, radix as int) && m <= 0xffff_ffff);
            Some(m as u32)
        },
        None => None,
    }
}

/// The integer that the number with the text `text`, read at `location`,
/// stands for. A hexadecimal literal is read in base 16 from behind its
/// prefix, any other text in base 10.
pub open spec fn decode_integer(text: Seq<char>, location: Location) -> Result<i64, ErrorView> {
    let value = if is_hex_literal_text(text) {
        parse_i64_text(text.skip(2), 16)
    } else {
        parse_i64_text(text, 10)
    };
    match value {
        Some(v) => Ok(v),
        None => Err(ErrorView::NumberFormat(Some(location))),
    }
}

/// Reads the integer of a number node, or reports a bad number format at
/// the node's location where its text spells no integer of 64 bits.
pub fn parse_integer(node: &SyntaxNode) -> (r: Result<i64, JsonError>)
    ensures
        match decode_integer(node@.text, node@.location) {
            Ok(v) => r == Ok::<i64, JsonError>(v),
            Err(e) => r matches Err(x) && x@ == e,
        },
{
    let s = to_chars(node.text.as_str());
    let value = if chars_are_hex_literal(&s) {
        chars_to_i64(&s, 2, 16)
    } else {
        assert(s@.skip(0) =~= s@);
        chars_to_i64(&s, 0, 10)
    };
    match value {
        Some(v) => Ok(v),
        None => Err(JsonError::NumberFormat(Some(node.location))),
    }
}

// Floating-point literals

/// The lower-case letter for an ASCII upper-case letter, any other
/// character unchanged.
pub open spec fn lower(c: char) -> char {
    if 'A' <= c <= 'Z' {
        ((c as u32) + 32) as char
    } else {
        c
    }
}

/// Whether `s` from `start` on is the word `word`, in whatever case.
pub open spec fn is_word_at(s: Seq<char>, start: int, word: Seq<char>) -> bool {
    &&& 0 <= start
    &&& s.len() - start == word.len()
    &&& forall|i: int| 0 <= i < word.len() ==> lower(#[trigger] s[start + i]) == word[i]
}

/// Whether `s` from `start` on names an infinity or a NaN: one of the words
/// `inf`, `infinity` and `nan`, in whatever case.
pub open spec fn is_named_float_at(s: Seq<char>, start: int) -> bool {
    ||| is_word_at(s, start, seq!['i', 'n', 'f'])
    ||| is_word_at(s, start, seq!['i', 'n', 'f', 'i', 'n', 'i', 't', 'y'])
    ||| is_word_at(s, start, seq!['n', 'a', 'n'])
}

/// Where the parts of a decimal number stand in a text.
pub struct DecimalParts {
    /// The end of the digits before the point.
    pub whole_end: int,
    /// The beginning of the digits behind the point.
    pub fraction_start: int,
    /// The end of the digits behind the point.
    pub fraction_end: int,
    /// The beginning of the digits of the exponent.
    pub exponent_start: int,
}

/// Where the parts of the decimal number that begins at `start` stand.
pub open spec fn decimal_parts(s: Seq<char>, start: int) -> DecimalParts {
    let whole_end = digits_end(s, start);
    let fraction_start = if is_at(s, whole_end, '.') {
        whole_end + 1
    } else {
        whole_end
    };
    let fraction_end = digits_end(s, fraction_start);
    let exponent_start = if is_at(s, fraction_end + 1, '+') || is_at(s, fraction_end + 1, '-') {
        fraction_end + 2
    } else {
        fraction_end + 1
    };
    DecimalParts { whole_end, fraction_start, fraction_end, exponent_start }
}

/// Whether `s` from `start` on is a decimal number: digits with a point
/// among, before or behind them, and then nothing more or an exponent,
/// which is `e` or `E`, a sign if there is one, and digits.
pub open spec fn is_decimal_at(s: Seq<char>, start: int) -> bool {
    let p = decimal_parts(s, start);
    &&& 0 <= start <= s.len()
    &&& (p.whole_end - start) + (p.fraction_end - p.fraction_start) > 0
    &&& p.fraction_end == s.len() || {
        &&& is_at(s, p.fraction_end, 'e') || is_at(s, p.fraction_end, 'E')
        &&& p.exponent_start < s.len()
        &&& digits_end(s, p.exponent_start) == s.len()
    }
}

/// Whether `s` is the text of a floating-point number: a sign, if there is
/// one, and behind it a decimal number or the name of an infinity or NaN.
pub open spec fn is_float_text(s: Seq<char>) -> bool {
    is_named_float_at(s, sign_length(s)) || is_decimal_at(s, sign_length(s))
}

/// Whether the floating-point number with the text `s` is finite when it
/// is read as a double-precision number: it names no infinity and no NaN,
/// and it stays below the double limit, above which numbers are rounded to
/// infinity.
pub open spec fn is_finite_float_text(s: Seq<char>) -> bool {
    !is_named_float_at(s, sign_length(s)) && !reaches_double_limit(s, sign_length(s))
}

/// The floating-point literal that the number with the text `text`, read at
/// `location`, stands for: the text itself.
///
/// `Infinity`, `-Infinity`, `NaN` and `-NaN` stand for themselves. Any other
/// text has to be the text of a floating-point number, else its format is
/// bad, and of a finite one, else it is out of range.
pub open spec fn decode_float(text: Seq<char>, location: Location) -> Result<
    Seq<char>,
    ErrorView,
> {
    if is_infinite_text(text) || is_nan_text(text) {
        Ok(text)
    } else if !is_float_text(text) {
        Err(ErrorView::NumberFormat(Some(location)))
    } else if !is_finite_float_text(text) {
        Err(ErrorView::NumberRange(Some(location)))
    } else {
        Ok(text)
    }
}

fn same_letter(c: char, letter: char) -> (r: bool)
    requires
        'a' <= letter <= 'z',
    ensures
        r == (lower(c) == letter),
{
    c == letter || ('A' <= c && c <= 'Z' && c as u32 + 32 == letter as u32)
}

fn chars_are_word(s: &Vec<char>, start: usize, word: &str) -> (r: bool)
    requires
        start <= s.len(),
        forall|i: int| 0 <= i < word@.len() ==> 'a' <= #[trigger] word@[i] <= 'z',
    ensures
        r == is_word_at(s@, start as int, word@),
{
    let n = word.unicode_len();
    if s.len() - start != n {
        return false;
    }
    let mut i: usize = 0;
    while i < n
        invariant
            i <= n,
            n == word@.len(),
            s.len() - start == n,
            forall|i: int| 0 <= i < word@.len() ==> 'a' <= #[trigger] word@[i] <= 'z',
            forall|j: int| 0 <= j < i ==> lower(#[trigger] s@[start + j]) == word@[j],
        decreases n - i,
    {
        if !same_letter(s[start + i], word.get_char(i)) {
            return false;
        }
        i += 1;
    }
    true
}

fn chars_name_float(s: &Vec<char>, start: usize) -> (r: bool)
    requires
        start <= s.len(),
    ensures
        r == is_named_float_at(s@, start as int),
{
    proof {
        reveal_strlit("inf");
        reveal_strlit("infinity");
        reveal_strlit("nan");
        assert("inf"@ =~= seq!['i', 'n', 'f']);
        assert("infinity"@ =~= seq!['i', 'n', 'f', 'i', 'n', 'i', 't', 'y']);
        assert("nan"@ =~= seq!['n', 'a', 'n']);
    }
    chars_are_word(s, start, "inf") || chars_are_word(s, start, "infinity") || chars_are_word(
        s,
        start,
        "nan",
    )
}

/// The position behind the decimal digits that begin at `from`.
pub(crate) fn digits_until(s: &Vec<char>, from: usize) -> (r: usize)
    requires
        from <= s.len(),
    ensures
        r == digits_end(s@, from as int),
        from <= r <= s.len(),
{
    let mut i = from;
    while i < s.len() && '0' <= s[i] && s[i] <= '9'
        invariant
            from <= i <= s.len(),
            digits_end(s@, i as int) == digits_end(s@, from as int),
        decreases s.len() - i,
    {
        i += 1;
    }
    i
}

fn sign_of(s: &Vec<char>) -> (r: usize)
    ensures
        r == sign_length(s@),
{
    if s.len() > 0 && (s[0] == '+' || s[0] == '-') {
        1
    } else {
        0
    }
}

fn chars_are_decimal(s: &Vec<char>, start: usize) -> (r: bool)
    requires
        start <= s.len(),
    ensures
        r == is_decimal_at(s@, start as int),
{
    let whole_end = digits_until(s, start);
    let fraction_start = if whole_end < s.len() && s[whole_end] == '.' {
        whole_end + 1
    } else {
        whole_end
    };
    let fraction_end = digits_until(s, fraction_start);
    if (whole_end - start) + (fraction_end - fraction_start) == 0 {
        return false;
    }
    if fraction_end == s.len() {
        return true;
    }
    if !(s[fraction_end] == 'e' || s[fraction_end] == 'E') {
        return false;
    }
    let exponent_start = if fraction_end + 1 < s.len() && (s[fraction_end + 1] == '+'
        || s[fraction_end + 1] == '-') {
        fraction_end + 2
    } else {
        fraction_end + 1
    };
    if exponent_start >= s.len() {
        return false;
    }
    digits_until(s, exponent_start) == s.len()
}

/// Checks the floating-point literal of a number node and gives its text,
/// or reports a bad number format at the node's location where the text is
/// not that of a floating-point number, and a bad number range where it is
/// that of one that is not finite.
pub fn parse_float(node: &SyntaxNode) -> (r: Result<String, JsonError>)
    ensures
        match decode_float(node@.text, node@.location) {
            Ok(t) => r matches Ok(x) && x@ == t,
            Err(e) => r matches Err(x) && x@ == e,
        },
{
    let s = to_chars(node.text.as_str());
    if chars_are_infinite(&s) || chars_are_nan(&s) {
        return Ok(node.text.clone());
    }
    let start = sign_of(&s);
    if chars_name_float(&s, start) {
        Err(JsonError::NumberRange(Some(node.location)))
    } else if !chars_are_decimal(&s, start) {
        Err(JsonError::NumberFormat(Some(node.location)))
    } else if chars_reach_double_limit(&s, start) {
        Err(JsonError::NumberRange(Some(node.location)))
    } else {
        Ok(node.text.clone())
    }
}

} // verus!
