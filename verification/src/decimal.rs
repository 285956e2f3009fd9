//! Decimal numbers as sequences of digits: how the digits of a number
//! relate to its size.

use crate::chars::is_digit;
use crate::grammar::digits_end;
use crate::number::{all_digits, digit_number, digits_value};
use vstd::arithmetic::power::{lemma_pow0, lemma_pow_adds, lemma_pow_positive, pow};
use vstd::prelude::*;

verus! {

/// Whether all of `s` are the digit zero.
pub open spec fn all_zeros(s: Seq<char>) -> bool {
    forall|i: int| 0 <= i < s.len() ==> #[trigger] s[i] == '0'
}

/// Ten to the power of `n` is ten times ten to the power before.
pub proof fn lemma_pow10(n: nat)
    ensures
        pow(10, n) >= 1,
        pow(10, n + 1) == 10 * pow(10, n),
{
    lemma_pow_positive(10, n);
    vstd::arithmetic::power::lemma_pow1(10);
    lemma_pow_adds(10, 1, n);
}

/// Decimal digits spell a number below the power of ten of their count.
pub proof fn lemma_digits_below_power(s: Seq<char>)
    requires
        all_digits(s, 10),
    ensures
        0 <= digits_value(s, 10) < pow(10, s.len()),
    decreases s.len(),
{
    lemma_pow0(10);
    if s.len() > 0 {
        let front = s.drop_last();
        assert forall|i: int| 0 <= i < front.len() implies digit_number(#[trigger] front[i]) < 10 by {
            assert(front[i] == s[i]);
        }
        lemma_digits_below_power(front);
        lemma_pow10(front.len());
        assert(digit_number(s.last()) < 10);
        assert(0 <= digit_number(s.last()));
    }
}

/// The digits `a` with the digits `b` behind them spell the number of `a`,
/// shifted by the count of `b`, plus the number of `b`.
pub proof fn lemma_digits_concat(a: Seq<char>, b: Seq<char>)
    ensures
        digits_value(a + b, 10) == digits_value(a, 10) * pow(10, b.len()) + digits_value(b, 10),
    decreases b.len(),
{
    lemma_pow0(10);
    if b.len() == 0 {
        assert(a + b =~= a);
    } else {
        let front = b.drop_last();
        assert((a + b).drop_last() =~= a + front);
        assert((a + b).last() == b.last());
        lemma_digits_concat(a, front);
        lemma_pow10(front.len());
        let x = digits_value(a, 10);
        let p = pow(10, front.len());
        assert((x * p + digits_value(front, 10)) * 10 == x * (10 * p) + digits_value(front, 10) * 10)
            by (nonlinear_arith);
    }
}

/// A single digit spells its number.
pub proof fn lemma_single_digit(c: char)
    ensures
        digits_value(seq![c], 10) == digit_number(c),
{
    let s = seq![c];
    assert(s.drop_last() =~= Seq::<char>::empty());
    assert(digits_value(s.drop_last(), 10) == 0);
    assert(s.last() == c);
}

/// Zeros spell zero.
pub proof fn lemma_zeros_value(s: Seq<char>)
    requires
        all_zeros(s),
    ensures
        digits_value(s, 10) == 0,
    decreases s.len(),
{
    if s.len() > 0 {
        let front = s.drop_last();
        assert forall|i: int| 0 <= i < front.len() implies #[trigger] front[i] == '0' by {
            assert(front[i] == s[i]);
        }
        lemma_zeros_value(front);
    }
}

/// Digits that begin with another digit than zero spell a number that is
/// at least the power of ten of their count less one.
pub proof fn lemma_digits_at_least_power(s: Seq<char>)
    requires
        all_digits(s, 10),
        s.len() > 0,
        s[0] != '0',
    ensures
        pow(10, (s.len() - 1) as nat) <= digits_value(s, 10),
{
    let first = seq![s[0]];
    let rest = s.skip(1);
    assert(first + rest =~= s);
    lemma_digits_concat(first, rest);
    assert forall|i: int| 0 <= i < rest.len() implies digit_number(#[trigger] rest[i]) < 10 by {
        assert(rest[i] == s[i + 1]);
    }
    lemma_digits_below_power(rest);
    lemma_single_digit(s[0]);
    assert(digit_number(s[0]) < 10);
    assert(digit_number(s[0]) >= 1);
    let p = pow(10, rest.len());
    let d = digit_number(s[0]);
    assert(d * p >= p) by (nonlinear_arith)
        requires
            d >= 1,
            p >= 0,
    ;
}

/// Of two rows of digits of one length that differ first at index `i`, the
/// one with the greater digit there spells the greater number.
pub proof fn lemma_digits_differ(a: Seq<char>, b: Seq<char>, i: int)
    requires
        all_digits(a, 10),
        all_digits(b, 10),
        a.len() == b.len(),
        0 <= i < a.len(),
        a.take(i) == b.take(i),
        digit_number(a[i]) < digit_number(b[i]),
    ensures
        digits_value(a, 10) < digits_value(b, 10),
{
    let n = a.len() as int;
    let front = a.take(i);
    let ra = a.skip(i + 1);
    let rb = b.skip(i + 1);
    assert(a =~= (front + seq![a[i]]) + ra);
    assert(b =~= (front + seq![b[i]]) + rb);
    lemma_digits_concat(front + seq![a[i]], ra);
    lemma_digits_concat(front + seq![b[i]], rb);
    lemma_digits_concat(front, seq![a[i]]);
    lemma_digits_concat(front, seq![b[i]]);
    lemma_single_digit(a[i]);
    lemma_single_digit(b[i]);
    assert forall|j: int| 0 <= j < ra.len() implies digit_number(#[trigger] ra[j]) < 10 by {
        assert(ra[j] == a[i + 1 + j]);
    }
    assert forall|j: int| 0 <= j < rb.len() implies digit_number(#[trigger] rb[j]) < 10 by {
        assert(rb[j] == b[i + 1 + j]);
    }
    lemma_digits_below_power(ra);
    lemma_digits_below_power(rb);
    let p = pow(10, ra.len());
    let x = digits_value(front + seq![a[i]], 10);
    let y = digits_value(front + seq![b[i]], 10);
    assert(x + 1 <= y);
    assert(x * p + p <= y * p) by (nonlinear_arith)
        requires
            x + 1 <= y,
            p >= 0,
    ;
}

/// The digits from `from` up to where the digits end are digits.
pub proof fn lemma_digits_end_digits(s: Seq<char>, from: int)
    requires
        0 <= from <= s.len(),
    ensures
        from <= digits_end(s, from) <= s.len(),
        forall|i: int| from <= i < digits_end(s, from) ==> is_digit(#[trigger] s[i]),
        all_digits(s.subrange(from, digits_end(s, from)), 10),
    decreases s.len() - from,
{
    if from < s.len() && is_digit(s[from]) {
        lemma_digits_end_digits(s, from + 1);
        assert(digits_end(s, from) == digits_end(s, from + 1));
    }
    let t = s.subrange(from, digits_end(s, from));
    assert forall|i: int| 0 <= i < t.len() implies digit_number(#[trigger] t[i]) < 10 by {
        assert(t[i] == s[from + i]);
        assert(is_digit(s[from + i]));
    }
}

} // verus!
