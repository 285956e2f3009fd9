//! The range of the finite double-precision numbers, in decimal digits.

use crate::decimal::{
    all_zeros, lemma_digits_at_least_power, lemma_digits_below_power, lemma_digits_concat,
    lemma_digits_differ, lemma_digits_end_digits, lemma_zeros_value,
};
use crate::grammar::{digits_end, is_at};
use crate::number::{
    all_digits, decimal_parts, digit_number, digits_until, digits_value, is_decimal_at,
    lemma_digits_value_prefix,
};
use vstd::arithmetic::power::{lemma_pow_adds, lemma_pow_increases, lemma_pow_positive, pow};
use vstd::prelude::*;

verus! {

/// The number of digits of the double limit.
pub const LIMIT_LENGTH: usize = 309;

/// The decimal digits of the double limit: of the least whole number that
/// is rounded to infinity when it is read as a double-precision number. It
/// lies halfway between the greatest finite double and two to the power of
/// 1024, and is two to the power of 1024 less two to the power of 970, as
/// `limit::lemma_double_limit` proves.
pub open spec fn double_limit_digits() -> Seq<char> {
    seq![
        '1', '7', '9', '7', '6', '9', '3', '1', '3', '4', '8', '6', '2', '3', '1', '5',
        '8', '0', '7', '9', '3', '7', '2', '8', '9', '7', '1', '4', '0', '5', '3', '0',
        '3', '4', '1', '5', '0', '7', '9', '9', '3', '4', '1', '3', '2', '7', '1', '0',
        '0', '3', '7', '8', '2', '6', '9', '3', '6', '1', '7', '3', '7', '7', '8', '9',
        '8', '0', '4', '4', '4', '9', '6', '8', '2', '9', '2', '7', '6', '4', '7', '5',
        '0', '9', '4', '6', '6', '4', '9', '0', '1', '7', '9', '7', '7', '5', '8', '7',
        '2', '0', '7', '0', '9', '6', '3', '3', '0', '2', '8', '6', '4', '1', '6', '6',
        '9', '2', '8', '8', '7', '9', '1', '0', '9', '4', '6', '5', '5', '5', '5', '4',
        '7', '8', '5', '1', '9', '4', '0', '4', '0', '2', '6', '3', '0', '6', '5', '7',
        '4', '8', '8', '6', '7', '1', '5', '0', '5', '8', '2', '0', '6', '8', '1', '9',
        '0', '8', '9', '0', '2', '0', '0', '0', '7', '0', '8', '3', '8', '3', '6', '7',
        '6', '2', '7', '3', '8', '5', '4', '8', '4', '5', '8', '1', '7', '7', '1', '1',
        '5', '3', '1', '7', '6', '4', '4', '7', '5', '7', '3', '0', '2', '7', '0', '0',
        '6', '9', '8', '5', '5', '5', '7', '1', '3', '6', '6', '9', '5', '9', '6', '2',
        '2', '8', '4', '2', '9', '1', '4', '8', '1', '9', '8', '6', '0', '8', '3', '4',
        '9', '3', '6', '4', '7', '5', '2', '9', '2', '7', '1', '9', '0', '7', '4', '1',
        '6', '8', '4', '4', '4', '3', '6', '5', '5', '1', '0', '7', '0', '4', '3', '4',
        '2', '7', '1', '1', '5', '5', '9', '6', '9', '9', '5', '0', '8', '0', '9', '3',
        '0', '4', '2', '8', '8', '0', '1', '7', '7', '9', '0', '4', '1', '7', '4', '4',
        '9', '7', '7', '9', '2',
    ]
}

/// The double limit.
pub open spec fn double_limit() -> int {
    digits_value(double_limit_digits(), 10)
}

/// The digit of the double limit at index `i`.
pub(crate) fn double_limit_digit(i: usize) -> (r: char)
    requires
        i < LIMIT_LENGTH,
    ensures
        r == double_limit_digits()[i as int],
{
    match i {
        0 => '1', 1 => '7', 2 => '9', 3 => '7', 4 => '6', 5 => '9',
        6 => '3', 7 => '1', 8 => '3', 9 => '4', 10 => '8', 11 => '6',
        12 => '2', 13 => '3', 14 => '1', 15 => '5', 16 => '8', 17 => '0',
        18 => '7', 19 => '9', 20 => '3', 21 => '7', 22 => '2', 23 => '8',
        24 => '9', 25 => '7', 26 => '1', 27 => '4', 28 => '0', 29 => '5',
        30 => '3', 31 => '0', 32 => '3', 33 => '4', 34 => '1', 35 => '5',
        36 => '0', 37 => '7', 38 => '9', 39 => '9', 40 => '3', 41 => '4',
        42 => '1', 43 => '3', 44 => '2', 45 => '7', 46 => '1', 47 => '0',
        48 => '0', 49 => '3', 50 => '7', 51 => '8', 52 => '2', 53 => '6',
        54 => '9', 55 => '3', 56 => '6', 57 => '1', 58 => '7', 59 => '3',
        60 => '7', 61 => '7', 62 => '8', 63 => '9', 64 => '8', 65 => '0',
        66 => '4', 67 => '4', 68 => '4', 69 => '9', 70 => '6', 71 => '8',
        72 => '2', 73 => '9', 74 => '2', 75 => '7', 76 => '6', 77 => '4',
        78 => '7', 79 => '5', 80 => '0', 81 => '9', 82 => '4', 83 => '6',
        84 => '6', 85 => '4', 86 => '9', 87 => '0', 88 => '1', 89 => '7',
        90 => '9', 91 => '7', 92 => '7', 93 => '5', 94 => '8', 95 => '7',
        96 => '2', 97 => '0', 98 => '7', 99 => '0', 100 => '9', 101 => '6',
        102 => '3', 103 => '3', 104 => '0', 105 => '2', 106 => '8', 107 => '6',
        108 => '4', 109 => '1', 110 => '6', 111 => '6', 112 => '9', 113 => '2',
        114 => '8', 115 => '8', 116 => '7', 117 => '9', 118 => '1', 119 => '0',
        120 => '9', 121 => '4', 122 => '6', 123 => '5', 124 => '5', 125 => '5',
        126 => '5', 127 => '4', 128 => '7', 129 => '8', 130 => '5', 131 => '1',
        132 => '9', 133 => '4', 134 => '0', 135 => '4', 136 => '0', 137 => '2',
        138 => '6', 139 => '3', 140 => '0', 141 => '6', 142 => '5', 143 => '7',
        144 => '4', 145 => '8', 146 => '8', 147 => '6', 148 => '7', 149 => '1',
        150 => '5', 151 => '0', 152 => '5', 153 => '8', 154 => '2', 155 => '0',
        156 => '6', 157 => '8', 158 => '1', 159 => '9', 160 => '0', 161 => '8',
        162 => '9', 163 => '0', 164 => '2', 165 => '0', 166 => '0', 167 => '0',
        168 => '7', 169 => '0', 170 => '8', 171 => '3', 172 => '8', 173 => '3',
        174 => '6', 175 => '7', 176 => '6', 177 => '2', 178 => '7', 179 => '3',
        180 => '8', 181 => '5', 182 => '4', 183 => '8', 184 => '4', 185 => '5',
        186 => '8', 187 => '1', 188 => '7', 189 => '7', 190 => '1', 191 => '1',
        192 => '5', 193 => '3', 194 => '1', 195 => '7', 196 => '6', 197 => '4',
        198 => '4', 199 => '7', 200 => '5', 201 => '7', 202 => '3', 203 => '0',
        204 => '2', 205 => '7', 206 => '0', 207 => '0', 208 => '6', 209 => '9',
        210 => '8', 211 => '5', 212 => '5', 213 => '5', 214 => '7', 215 => '1',
        216 => '3', 217 => '6', 218 => '6', 219 => '9', 220 => '5', 221 => '9',
        222 => '6', 223 => '2', 224 => '2', 225 => '8', 226 => '4', 227 => '2',
        228 => '9', 229 => '1', 230 => '4', 231 => '8', 232 => '1', 233 => '9',
        234 => '8', 235 => '6', 236 => '0', 237 => '8', 238 => '3', 239 => '4',
        240 => '9', 241 => '3', 242 => '6', 243 => '4', 244 => '7', 245 => '5',
        246 => '2', 247 => '9', 248 => '2', 249 => '7', 250 => '1', 251 => '9',
        252 => '0', 253 => '7', 254 => '4', 255 => '1', 256 => '6', 257 => '8',
        258 => '4', 259 => '4', 260 => '4', 261 => '3', 262 => '6', 263 => '5',
        264 => '5', 265 => '1', 266 => '0', 267 => '7', 268 => '0', 269 => '4',
        270 => '3', 271 => '4', 272 => '2', 273 => '7', 274 => '1', 275 => '1',
        276 => '5', 277 => '5', 278 => '9', 279 => '6', 280 => '9', 281 => '9',
        282 => '5', 283 => '0', 284 => '8', 285 => '0', 286 => '9', 287 => '3',
        288 => '0', 289 => '4', 290 => '2', 291 => '8', 292 => '8', 293 => '0',
        294 => '1', 295 => '7', 296 => '7', 297 => '9', 298 => '0', 299 => '4',
        300 => '1', 301 => '7', 302 => '4', 303 => '4', 304 => '9', 305 => '7',
        306 => '7', 307 => '9', 308 => '2',
        _ => '0',
    }
}

/// The digits of the double limit are 309 digits, and the first is no zero.
pub proof fn lemma_double_limit_digits()
    ensures
        double_limit_digits().len() == LIMIT_LENGTH,
        all_digits(double_limit_digits(), 10),
        double_limit_digits()[0] != '0',
{
}

/// Whether `mantissa` times ten to the power of `exponent` is at least
/// `bound`.
pub open spec fn reaches(mantissa: int, exponent: int, bound: int) -> bool {
    if exponent >= 0 {
        mantissa * pow(10, exponent as nat) >= bound
    } else {
        mantissa >= bound * pow(10, (-exponent) as nat)
    }
}

/// The digits of the mantissa of the decimal number that begins at `start`:
/// those before the point and those behind it.
pub open spec fn mantissa_digits(s: Seq<char>, start: int) -> Seq<char> {
    let p = decimal_parts(s, start);
    s.subrange(start, p.whole_end) + s.subrange(p.fraction_start, p.fraction_end)
}

/// The exponent that the decimal number that begins at `start` is written
/// with; zero where it has none.
pub open spec fn written_exponent(s: Seq<char>, start: int) -> int {
    let p = decimal_parts(s, start);
    if p.fraction_end >= s.len() {
        0
    } else if is_at(s, p.fraction_end + 1, '-') {
        -digits_value(s.skip(p.exponent_start), 10)
    } else {
        digits_value(s.skip(p.exponent_start), 10)
    }
}

/// Whether the decimal number that begins at `start` is at least the double
/// limit, so that no finite double stands for it. The number is its
/// mantissa, read as a whole number, times ten to the power of the written
/// exponent less the count of digits behind the point.
pub open spec fn reaches_double_limit(s: Seq<char>, start: int) -> bool {
    let p = decimal_parts(s, start);
    reaches(
        digits_value(mantissa_digits(s, start), 10),
        written_exponent(s, start) - (p.fraction_end - p.fraction_start),
        double_limit(),
    )
}

/// The first 309 of the digits `d`, with zeros behind them where they are
/// fewer.
pub open spec fn padded(d: Seq<char>) -> Seq<char> {
    if d.len() >= LIMIT_LENGTH {
        d.take(LIMIT_LENGTH as int)
    } else {
        d + Seq::new((LIMIT_LENGTH - d.len()) as nat, |i: int| '0')
    }
}

proof fn lemma_limit_bounds()
    ensures
        pow(10, 308) <= double_limit() < pow(10, 309),
{
    lemma_double_limit_digits();
    lemma_digits_at_least_power(double_limit_digits());
    lemma_digits_below_power(double_limit_digits());
}

/// A number whose first digit stands at another power of ten than that of
/// the double limit is told from it by that power alone.
proof fn lemma_reaches_far(d: Seq<char>, e: int)
    requires
        all_digits(d, 10),
        d.len() > 0,
        d[0] != '0',
        d.len() + e != LIMIT_LENGTH,
    ensures
        reaches(digits_value(d, 10), e, double_limit()) == (d.len() + e > LIMIT_LENGTH),
{
    let m = digits_value(d, 10);
    let l = double_limit();
    let sig = d.len() as int;
    lemma_limit_bounds();
    lemma_digits_at_least_power(d);
    lemma_digits_below_power(d);
    lemma_pow_positive(10, (sig - 1) as nat);
    if e >= 0 {
        let p = pow(10, e as nat);
        lemma_pow_positive(10, e as nat);
        if sig + e > 309 {
            lemma_pow_adds(10, (sig - 1) as nat, e as nat);
            lemma_pow_increases(10, 309, (sig - 1 + e) as nat);
            assert(m * p >= pow(10, (sig - 1) as nat) * p) by (nonlinear_arith)
                requires
                    m >= pow(10, (sig - 1) as nat),
                    p >= 0,
            ;
        } else {
            lemma_pow_adds(10, sig as nat, e as nat);
            lemma_pow_increases(10, (sig + e) as nat, 308);
            assert(m * p < pow(10, sig as nat) * p) by (nonlinear_arith)
                requires
                    m < pow(10, sig as nat),
                    p > 0,
            ;
        }
    } else {
        let k = (-e) as nat;
        let p = pow(10, k);
        lemma_pow_positive(10, k);
        if sig + e > 309 {
            lemma_pow_adds(10, 309, k);
            lemma_pow_increases(10, 309 + k, (sig - 1) as nat);
            assert(l * p < pow(10, 309) * p) by (nonlinear_arith)
                requires
                    l < pow(10, 309),
                    p > 0,
            ;
        } else {
            lemma_pow_adds(10, 308, k);
            lemma_pow_increases(10, sig as nat, 308 + k);
            assert(l * p >= pow(10, 308) * p) by (nonlinear_arith)
                requires
                    l >= pow(10, 308),
                    p >= 0,
            ;
        }
    }
}

/// A number whose first digit stands at the power of ten of the double
/// limit is told from it by its first 309 digits.
proof fn lemma_reaches_near(d: Seq<char>, e: int)
    requires
        all_digits(d, 10),
        d.len() > 0,
        d.len() + e == LIMIT_LENGTH,
    ensures
        reaches(digits_value(d, 10), e, double_limit()) == (digits_value(padded(d), 10)
            >= double_limit()),
        padded(d).len() == LIMIT_LENGTH,
        all_digits(padded(d), 10),
{
    let m = digits_value(d, 10);
    let l = double_limit();
    let p = padded(d);
    if e >= 0 {
        let zeros = Seq::new(e as nat, |i: int| '0');
        assert(p =~= d + zeros);
        lemma_digits_concat(d, zeros);
        lemma_zeros_value(zeros);
    } else {
        let k = (-e) as nat;
        let tail = d.skip(LIMIT_LENGTH as int);
        assert(d =~= p + tail);
        lemma_digits_concat(p, tail);
        assert forall|i: int| 0 <= i < tail.len() implies digit_number(#[trigger] tail[i]) < 10 by {
            assert(tail[i] == d[LIMIT_LENGTH + i]);
        }
        lemma_digits_below_power(tail);
        let t = digits_value(tail, 10);
        let q = pow(10, k);
        let x = digits_value(p, 10);
        assert((x * q + t >= l * q) == (x >= l)) by (nonlinear_arith)
            requires
                0 <= t < q,
        ;
    }
    assert forall|i: int| 0 <= i < p.len() implies digit_number(#[trigger] p[i]) < 10 by {
        if i < d.len() {
            assert(p[i] == d[i]);
        }
    }
}

/// Zeros in front of digits change nothing of their number.
proof fn lemma_leading_zeros(d: Seq<char>, z: int)
    requires
        0 <= z <= d.len(),
        all_zeros(d.take(z)),
    ensures
        digits_value(d, 10) == digits_value(d.skip(z), 10),
{
    assert(d =~= d.take(z) + d.skip(z));
    lemma_digits_concat(d.take(z), d.skip(z));
    lemma_zeros_value(d.take(z));
}

/// Nothing times a power of ten reaches the double limit.
proof fn lemma_zero_reaches_nothing(e: int)
    ensures
        !reaches(0, e, double_limit()),
{
    lemma_limit_bounds();
    lemma_pow_positive(10, 308);
    if e < 0 {
        let l = double_limit();
        let p = pow(10, (-e) as nat);
        lemma_pow_positive(10, (-e) as nat);
        assert(l * p > 0) by (nonlinear_arith)
            requires
                l > 0,
                p > 0,
        ;
    }
}

/// The greatest exponent that is read exactly: ten to the power of 30.
const EXPONENT_CAP: u128 = 1_000_000_000_000_000_000_000_000_000_000;

/// The number that the digits of `s` from `from` on spell, where it is at
/// most the cap.
fn exponent_magnitude(s: &Vec<char>, from: usize) -> (r: Option<u128>)
    requires
        from <= s.len(),
        digits_end(s@, from as int) == s.len(),
    ensures
        match r {
            Some(v) => v == digits_value(s@.skip(from as int), 10) && v <= EXPONENT_CAP,
            None => digits_value(s@.skip(from as int), 10) > EXPONENT_CAP,
        },
{
    let ghost digits = s@.skip(from as int);
    proof {
        lemma_digits_end_digits(s@, from as int);
        assert(digits =~= s@.subrange(from as int, s.len() as int));
    }
    let mut value: u128 = 0;
    let mut i: usize = from;
    assert(digits.take(0) =~= Seq::<char>::empty());
    while i < s.len()
        invariant
            from <= i <= s.len(),
            digits == s@.skip(from as int),
            all_digits(digits, 10),
            value == digits_value(digits.take(i - from), 10),
            value <= EXPONENT_CAP,
        decreases s.len() - i,
    {
        let ghost next = digits.take(i - from + 1);
        proof {
            assert(next.drop_last() =~= digits.take(i - from));
            assert(next.last() == s@[i as int]);
            assert(digits[i - from] == s@[i as int]);
            assert(digit_number(digits[i - from]) < 10);
        }
        let d: u128 = (s[i] as u32 - '0' as u32) as u128;
        let wide: u128 = value * 10 + d;
        if wide > EXPONENT_CAP {
            proof {
                lemma_digits_value_prefix(digits, i - from + 1, 10);
            }
            return None;
        }
        value = wide;
        i += 1;
    }
    assert(digits.take(i - from) =~= digits);
    Some(value)
}

/// The digit at index `i` of the mantissa.
fn mantissa_digit(s: &Vec<char>, start: usize, whole_end: usize, fraction_start: usize, fraction_end: usize, i: usize) -> (r: char)
    requires
        start <= whole_end <= fraction_start <= fraction_end <= s.len(),
        i < (whole_end - start) + (fraction_end - fraction_start),
    ensures
        r == (s@.subrange(start as int, whole_end as int) + s@.subrange(
            fraction_start as int,
            fraction_end as int,
        ))[i as int],
{
    if i < whole_end - start {
        s[start + i]
    } else {
        s[fraction_start + (i - (whole_end - start))]
    }
}

/// Tells whether the decimal number that begins at `start` is at least the
/// double limit.
pub(crate) fn chars_reach_double_limit(s: &Vec<char>, start: usize) -> (r: bool)
    requires
        start <= s.len(),
        is_decimal_at(s@, start as int),
    ensures
        r == reaches_double_limit(s@, start as int),
{
    let whole_end = digits_until(s, start);
    let fraction_start = if whole_end < s.len() && s[whole_end] == '.' {
        whole_end + 1
    } else {
        whole_end
    };
    let fraction_end = digits_until(s, fraction_start);
    let count = (whole_end - start) + (fraction_end - fraction_start);
    let ghost all = mantissa_digits(s@, start as int);
    let ghost parts = decimal_parts(s@, start as int);
    proof {
        lemma_digits_end_digits(s@, start as int);
        lemma_digits_end_digits(s@, fraction_start as int);
        assert forall|i: int| 0 <= i < all.len() implies digit_number(#[trigger] all[i]) < 10 by {
            if i < whole_end - start {
                assert(all[i] == s@.subrange(start as int, whole_end as int)[i]);
            } else {
                assert(all[i] == s@.subrange(fraction_start as int, fraction_end as int)[i - (
                whole_end - start)]);
            }
        }
    }
    // The zeros that the mantissa begins with.
    let mut zeros: usize = 0;
    while zeros < count && mantissa_digit(s, start, whole_end, fraction_start, fraction_end, zeros)
        == '0'
        invariant
            start <= whole_end <= fraction_start <= fraction_end <= s.len(),
            count == (whole_end - start) + (fraction_end - fraction_start),
            all == s@.subrange(start as int, whole_end as int) + s@.subrange(
                fraction_start as int,
                fraction_end as int,
            ),
            zeros <= count,
            all_zeros(all.take(zeros as int)),
        decreases count - zeros,
    {
        zeros += 1;
        assert forall|i: int| 0 <= i < zeros implies #[trigger] all.take(zeros as int)[i] == '0' by {
            if i < zeros - 1 {
                assert(all.take(zeros - 1)[i] == '0');
            }
        }
    }
    let ghost exponent = written_exponent(s@, start as int) - (fraction_end - fraction_start);
    let ghost d = all.skip(zeros as int);
    proof {
        lemma_leading_zeros(all, zeros as int);
        assert forall|i: int| 0 <= i < d.len() implies digit_number(#[trigger] d[i]) < 10 by {
            assert(d[i] == all[zeros + i]);
        }
    }
    if zeros == count {
        proof {
            assert(d =~= Seq::<char>::empty());
            lemma_zero_reaches_nothing(exponent);
        }
        return false;
    }
    let significant = count - zeros;
    assert(d[0] == all[zeros as int]);
    // The power of ten that the first digit stands at, against that of the limit.
    let above: bool;
    let below: bool;
    if fraction_end == s.len() {
        let place: i128 = significant as i128 - (fraction_end - fraction_start) as i128;
        above = place > 309;
        below = place < 309;
    } else {
        let negative = fraction_end + 1 < s.len() && s[fraction_end + 1] == '-';
        let exponent_start = if fraction_end + 1 < s.len() && (s[fraction_end + 1] == '+'
            || s[fraction_end + 1] == '-') {
            fraction_end + 2
        } else {
            fraction_end + 1
        };
        match exponent_magnitude(s, exponent_start) {
            Some(v) => {
                let written: i128 = if negative {
                    -(v as i128)
                } else {
                    v as i128
                };
                let place: i128 = significant as i128 + written - (fraction_end
                    - fraction_start) as i128;
                above = place > 309;
                below = place < 309;
            },
            None => {
                above = !negative;
                below = negative;
            },
        }
    }
    assert(above == (d.len() + exponent > LIMIT_LENGTH));
    assert(below == (d.len() + exponent < LIMIT_LENGTH));
    if above || below {
        proof {
            lemma_reaches_far(d, exponent);
        }
        return above;
    }
    proof {
        lemma_reaches_near(d, exponent);
        lemma_double_limit_digits();
    }
    let ghost p = padded(d);
    let ghost limit = double_limit_digits();
    let mut i: usize = 0;
    assert(p.take(0) =~= limit.take(0));
    while i < LIMIT_LENGTH
        invariant
            start <= whole_end <= fraction_start <= fraction_end <= s.len(),
            count == (whole_end - start) + (fraction_end - fraction_start),
            all == s@.subrange(start as int, whole_end as int) + s@.subrange(
                fraction_start as int,
                fraction_end as int,
            ),
            zeros < count,
            significant == count - zeros,
            d == all.skip(zeros as int),
            p == padded(d),
            limit == double_limit_digits(),
            p.len() == LIMIT_LENGTH,
            limit.len() == LIMIT_LENGTH,
            all_digits(p, 10),
            all_digits(limit, 10),
            i <= LIMIT_LENGTH,
            p.take(i as int) == limit.take(i as int),
            reaches_double_limit(s@, start as int) == (digits_value(p, 10) >= double_limit()),
        decreases LIMIT_LENGTH - i,
    {
        let a = if i < significant {
            mantissa_digit(s, start, whole_end, fraction_start, fraction_end, zeros + i)
        } else {
            '0'
        };
        let b = double_limit_digit(i);
        assert(a == p[i as int]) by {
            if i < significant {
                assert(d[i as int] == all[zeros + i]);
            }
        }
        assert(digit_number(p[i as int]) < 10 && digit_number(limit[i as int]) < 10);
        if a != b {
            proof {
                if a < b {
                    lemma_digits_differ(p, limit, i as int);
                } else {
                    lemma_digits_differ(limit, p, i as int);
                }
            }
            return a > b;
        }
        i += 1;
        assert(p.take(i as int) =~= limit.take(i as int)) by {
            assert forall|j: int| 0 <= j < i implies p.take(i as int)[j] == limit.take(i as int)[j] by {
                if j < i - 1 {
                    assert(p.take(i - 1)[j] == limit.take(i - 1)[j]);
                }
            }
        }
    }
    assert(p =~= limit) by {
        assert(p.take(LIMIT_LENGTH as int) =~= p);
        assert(limit.take(LIMIT_LENGTH as int) =~= limit);
    }
    true
}

} // verus!
