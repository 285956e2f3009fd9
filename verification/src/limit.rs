//! The double limit as a difference of powers of two.

use crate::number::{digit_number, digits_value};
use crate::range::{double_limit, double_limit_digits};
use vstd::arithmetic::power2::{lemma2_to64, lemma_pow2_adds, pow2};
use vstd::prelude::*;

verus! {

/// Three more digits behind digits: a thousand times their number, and the
/// number of the three.
proof fn lemma_window(d: Seq<char>, a: int)
    requires
        0 <= a,
        a + 3 <= d.len(),
    ensures
        digits_value(d.take(a + 3), 10) == digits_value(d.take(a), 10) * 1000 + digit_number(d[a])
            * 100 + digit_number(d[a + 1]) * 10 + digit_number(d[a + 2]),
{
    let t0 = d.take(a);
    let t1 = d.take(a + 1);
    let t2 = d.take(a + 2);
    let t3 = d.take(a + 3);
    assert(t3.drop_last() =~= t2);
    assert(t2.drop_last() =~= t1);
    assert(t1.drop_last() =~= t0);
    assert(digits_value(t1, 10) == digits_value(t0, 10) * 10 + digit_number(d[a]));
    assert(digits_value(t2, 10) == digits_value(t1, 10) * 10 + digit_number(d[a + 1]));
    assert(digits_value(t3, 10) == digits_value(t2, 10) * 10 + digit_number(d[a + 2]));
}

proof fn lemma_limit_prefix_39()
    ensures
        digits_value(double_limit_digits().take(39), 10) == 179769313486231580793728971405303415079int,
{
    let d = double_limit_digits();
    assert(d.take(0) =~= Seq::<char>::empty());
    lemma_window(d, 0);
    assert(digits_value(d.take(3), 10) == 179int);
    lemma_window(d, 3);
    assert(digits_value(d.take(6), 10) == 179769int);
    lemma_window(d, 6);
    assert(digits_value(d.take(9), 10) == 179769313int);
    lemma_window(d, 9);
    assert(digits_value(d.take(12), 10) == 179769313486int);
    lemma_window(d, 12);
    assert(digits_value(d.take(15), 10) == 179769313486231int);
    lemma_window(d, 15);
    assert(digits_value(d.take(18), 10) == 179769313486231580int);
    lemma_window(d, 18);
    assert(digits_value(d.take(21), 10) == 179769313486231580793int);
    lemma_window(d, 21);
    assert(digits_value(d.take(24), 10) == 179769313486231580793728int);
    lemma_window(d, 24);
    assert(digits_value(d.take(27), 10) == 179769313486231580793728971int);
    lemma_window(d, 27);
    assert(digits_value(d.take(30), 10) == 179769313486231580793728971405int);
    lemma_window(d, 30);
    assert(digits_value(d.take(33), 10) == 179769313486231580793728971405303int);
    lemma_window(d, 33);
    assert(digits_value(d.take(36), 10) == 179769313486231580793728971405303415int);
    lemma_window(d, 36);
    assert(digits_value(d.take(39), 10) == 179769313486231580793728971405303415079int);
}

proof fn lemma_limit_prefix_78()
    ensures
        digits_value(double_limit_digits().take(78), 10) == 179769313486231580793728971405303415079934132710037826936173778980444968292764int,
{
    let d = double_limit_digits();
    lemma_limit_prefix_39();
    lemma_window(d, 39);
    assert(digits_value(d.take(42), 10) == 179769313486231580793728971405303415079934int);
    lemma_window(d, 42);
    assert(digits_value(d.take(45), 10) == 179769313486231580793728971405303415079934132int);
    lemma_window(d, 45);
    assert(digits_value(d.take(48), 10) == 179769313486231580793728971405303415079934132710int);
    lemma_window(d, 48);
    assert(digits_value(d.take(51), 10) == 179769313486231580793728971405303415079934132710037int);
    lemma_window(d, 51);
    assert(digits_value(d.take(54), 10) == 179769313486231580793728971405303415079934132710037826int);
    lemma_window(d, 54);
    assert(digits_value(d.take(57), 10) == 179769313486231580793728971405303415079934132710037826936int);
    lemma_window(d, 57);
    assert(digits_value(d.take(60), 10) == 179769313486231580793728971405303415079934132710037826936173int);
    lemma_window(d, 60);
    assert(digits_value(d.take(63), 10) == 179769313486231580793728971405303415079934132710037826936173778int);
    lemma_window(d, 63);
    assert(digits_value(d.take(66), 10) == 179769313486231580793728971405303415079934132710037826936173778980int);
    lemma_window(d, 66);
    assert(digits_value(d.take(69), 10) == 179769313486231580793728971405303415079934132710037826936173778980444int);
    lemma_window(d, 69);
    assert(digits_value(d.take(72), 10) == 179769313486231580793728971405303415079934132710037826936173778980444968int);
    lemma_window(d, 72);
    assert(digits_value(d.take(75), 10) == 179769313486231580793728971405303415079934132710037826936173778980444968292int);
    lemma_window(d, 75);
    assert(digits_value(d.take(78), 10) == 179769313486231580793728971405303415079934132710037826936173778980444968292764int);
}

proof fn lemma_limit_prefix_117()
    ensures
        digits_value(double_limit_digits().take(117), 10) == 179769313486231580793728971405303415079934132710037826936173778980444968292764750946649017977587207096330286416692887int,
{
    let d = double_limit_digits();
    lemma_limit_prefix_78();
    lemma_window(d, 78);
    assert(digits_value(d.take(81), 10) == 179769313486231580793728971405303415079934132710037826936173778980444968292764750int);
    lemma_window(d, 81);
    assert(digits_value(d.take(84), 10) == 179769313486231580793728971405303415079934132710037826936173778980444968292764750946int);
    lemma_window(d, 84);
    assert(digits_value(d.take(87), 10) == 179769313486231580793728971405303415079934132710037826936173778980444968292764750946649int);
    lemma_window(d, 87);
    assert(digits_value(d.take(90), 10) == 179769313486231580793728971405303415079934132710037826936173778980444968292764750946649017int);
    lemma_window(d, 90);
    assert(digits_value(d.take(93), 10) == 179769313486231580793728971405303415079934132710037826936173778980444968292764750946649017977int);
    lemma_window(d, 93);
    assert(digits_value(d.take(96), 10) == 179769313486231580793728971405303415079934132710037826936173778980444968292764750946649017977587int);
    lemma_window(d, 96);
    assert(digits_value(d.take(99), 10) == 179769313486231580793728971405303415079934132710037826936173778980444968292764750946649017977587207int);
    lemma_window(d, 99);
    assert(digits_value(d.take(102), 10) == 179769313486231580793728971405303415079934132710037826936173778980444968292764750946649017977587207096int);
    lemma_window(d, 102);
    assert(digits_value(d.take(105), 10) == 179769313486231580793728971405303415079934132710037826936173778980444968292764750946649017977587207096330int);
    lemma_window(d, 105);
    assert(digits_value(d.take(108), 10) == 179769313486231580793728971405303415079934132710037826936173778980444968292764750946649017977587207096330286int);
    lemma_window(d, 108);
    assert(digits_value(d.take(111), 10) == 179769313486231580793728971405303415079934132710037826936173778980444968292764750946649017977587207096330286416int);
    lemma_window(d, 111);
    assert(digits_value(d.take(114), 10) == 179769313486231580793728971405303415079934132710037826936173778980444968292764750946649017977587207096330286416692int);
    lemma_window(d, 114);
    assert(digits_value(d.take(117), 10) == 179769313486231580793728971405303415079934132710037826936173778980444968292764750946649017977587207096330286416692887int);
}

proof fn lemma_limit_prefix_156()
    ensures
        digits_value(double_limit_digits().take(156), 10) == 179769313486231580793728971405303415079934132710037826936173778980444968292764750946649017977587207096330286416692887910946555547851940402630657488671505820int,
{
    let d = double_limit_digits();
    lemma_limit_prefix_117();
    lemma_window(d, 117);
    assert(digits_value(d.take(120), 10) == 179769313486231580793728971405303415079934132710037826936173778980444968292764750946649017977587207096330286416692887910int);
    lemma_window(d, 120);
    assert(digits_value(d.take(123), 10) == 179769313486231580793728971405303415079934132710037826936173778980444968292764750946649017977587207096330286416692887910946int);
    lemma_window(d, 123);
    assert(digits_value(d.take(126), 10) == 179769313486231580793728971405303415079934132710037826936173778980444968292764750946649017977587207096330286416692887910946555int);
    lemma_window(d, 126);
    assert(digits_value(d.take(129), 10) == 179769313486231580793728971405303415079934132710037826936173778980444968292764750946649017977587207096330286416692887910946555547int);
    lemma_window(d, 129);
    assert(digits_value(d.take(132), 10) == 179769313486231580793728971405303415079934132710037826936173778980444968292764750946649017977587207096330286416692887910946555547851int);
    lemma_window(d, 132);
    assert(digits_value(d.take(135), 10) == 179769313486231580793728971405303415079934132710037826936173778980444968292764750946649017977587207096330286416692887910946555547851940int);
    lemma_window(d, 135);
    assert(digits_value(d.take(138), 10) == 179769313486231580793728971405303415079934132710037826936173778980444968292764750946649017977587207096330286416692887910946555547851940402int);
    lemma_window(d, 138);
    assert(digits_value(d.take(141), 10) == 179769313486231580793728971405303415079934132710037826936173778980444968292764750946649017977587207096330286416692887910946555547851940402630int);
    lemma_window(d, 141);
    assert(digits_value(d.take(144), 10) == 179769313486231580793728971405303415079934132710037826936173778980444968292764750946649017977587207096330286416692887910946555547851940402630657int);
    lemma_window(d, 144);
    assert(digits_value(d.take(147), 10) == 179769313486231580793728971405303415079934132710037826936173778980444968292764750946649017977587207096330286416692887910946555547851940402630657488int);
    lemma_window(d, 147);
    assert(digits_value(d.take(150), 10) == 179769313486231580793728971405303415079934132710037826936173778980444968292764750946649017977587207096330286416692887910946555547851940402630657488671int);
    lemma_window(d, 150);
    assert(digits_value(d.take(153), 10) == 179769313486231580793728971405303415079934132710037826936173778980444968292764750946649017977587207096330286416692887910946555547851940402630657488671505int);
    lemma_window(d, 153);
    assert(digits_value(d.take(156), 10) == 179769313486231580793728971405303415079934132710037826936173778980444968292764750946649017977587207096330286416692887910946555547851940402630657488671505820int);
}

proof fn lemma_limit_prefix_195()
    ensures
        digits_value(double_limit_digits().take(195), 10) == 179769313486231580793728971405303415079934132710037826936173778980444968292764750946649017977587207096330286416692887910946555547851940402630657488671505820681908902000708383676273854845817711531int,
{
    let d = double_limit_digits();
    lemma_limit_prefix_156();
    lemma_window(d, 156);
    assert(digits_value(d.take(159), 10) == 179769313486231580793728971405303415079934132710037826936173778980444968292764750946649017977587207096330286416692887910946555547851940402630657488671505820681int);
    lemma_window(d, 159);
    assert(digits_value(d.take(162), 10) == 179769313486231580793728971405303415079934132710037826936173778980444968292764750946649017977587207096330286416692887910946555547851940402630657488671505820681908int);
    lemma_window(d, 162);
    assert(digits_value(d.take(165), 10) == 179769313486231580793728971405303415079934132710037826936173778980444968292764750946649017977587207096330286416692887910946555547851940402630657488671505820681908902int);
    lemma_window(d, 165);
    assert(digits_value(d.take(168), 10) == 179769313486231580793728971405303415079934132710037826936173778980444968292764750946649017977587207096330286416692887910946555547851940402630657488671505820681908902000int);
    lemma_window(d, 168);
    assert(digits_value(d.take(171), 10) == 179769313486231580793728971405303415079934132710037826936173778980444968292764750946649017977587207096330286416692887910946555547851940402630657488671505820681908902000708int);
    lemma_window(d, 171);
    assert(digits_value(d.take(174), 10) == 179769313486231580793728971405303415079934132710037826936173778980444968292764750946649017977587207096330286416692887910946555547851940402630657488671505820681908902000708383int);
    lemma_window(d, 174);
    assert(digits_value(d.take(177), 10) == 179769313486231580793728971405303415079934132710037826936173778980444968292764750946649017977587207096330286416692887910946555547851940402630657488671505820681908902000708383676int);
    lemma_window(d, 177);
    assert(digits_value(d.take(180), 10) == 179769313486231580793728971405303415079934132710037826936173778980444968292764750946649017977587207096330286416692887910946555547851940402630657488671505820681908902000708383676273int);
    lemma_window(d, 180);
    assert(digits_value(d.take(183), 10) == 179769313486231580793728971405303415079934132710037826936173778980444968292764750946649017977587207096330286416692887910946555547851940402630657488671505820681908902000708383676273854int);
    lemma_window(d, 183);
    assert(digits_value(d.take(186), 10) == 179769313486231580793728971405303415079934132710037826936173778980444968292764750946649017977587207096330286416692887910946555547851940402630657488671505820681908902000708383676273854845int);
    lemma_window(d, 186);
    assert(digits_value(d.take(189), 10) == 179769313486231580793728971405303415079934132710037826936173778980444968292764750946649017977587207096330286416692887910946555547851940402630657488671505820681908902000708383676273854845817int);
    lemma_window(d, 189);
    assert(digits_value(d.take(192), 10) == 179769313486231580793728971405303415079934132710037826936173778980444968292764750946649017977587207096330286416692887910946555547851940402630657488671505820681908902000708383676273854845817711int);
    lemma_window(d, 192);
    assert(digits_value(d.take(195), 10) == 179769313486231580793728971405303415079934132710037826936173778980444968292764750946649017977587207096330286416692887910946555547851940402630657488671505820681908902000708383676273854845817711531int);
}

proof fn lemma_limit_prefix_234()
    ensures
        digits_value(double_limit_digits().take(234), 10) == 179769313486231580793728971405303415079934132710037826936173778980444968292764750946649017977587207096330286416692887910946555547851940402630657488671505820681908902000708383676273854845817711531764475730270069855571366959622842914819int,
{
    let d = double_limit_digits();
    lemma_limit_prefix_195();
    lemma_window(d, 195);
    assert(digits_value(d.take(198), 10) == 179769313486231580793728971405303415079934132710037826936173778980444968292764750946649017977587207096330286416692887910946555547851940402630657488671505820681908902000708383676273854845817711531764int);
    lemma_window(d, 198);
    assert(digits_value(d.take(201), 10) == 179769313486231580793728971405303415079934132710037826936173778980444968292764750946649017977587207096330286416692887910946555547851940402630657488671505820681908902000708383676273854845817711531764475int);
    lemma_window(d, 201);
    assert(digits_value(d.take(204), 10) == 179769313486231580793728971405303415079934132710037826936173778980444968292764750946649017977587207096330286416692887910946555547851940402630657488671505820681908902000708383676273854845817711531764475730int);
    lemma_window(d, 204);
    assert(digits_value(d.take(207), 10) == 179769313486231580793728971405303415079934132710037826936173778980444968292764750946649017977587207096330286416692887910946555547851940402630657488671505820681908902000708383676273854845817711531764475730270int);
    lemma_window(d, 207);
    assert(digits_value(d.take(210), 10) == 179769313486231580793728971405303415079934132710037826936173778980444968292764750946649017977587207096330286416692887910946555547851940402630657488671505820681908902000708383676273854845817711531764475730270069int);
    lemma_window(d, 210);
    assert(digits_value(d.take(213), 10) == 179769313486231580793728971405303415079934132710037826936173778980444968292764750946649017977587207096330286416692887910946555547851940402630657488671505820681908902000708383676273854845817711531764475730270069855int);
    lemma_window(d, 213);
    assert(digits_value(d.take(216), 10) == 179769313486231580793728971405303415079934132710037826936173778980444968292764750946649017977587207096330286416692887910946555547851940402630657488671505820681908902000708383676273854845817711531764475730270069855571int);
    lemma_window(d, 216);
    assert(digits_value(d.take(219), 10) == 179769313486231580793728971405303415079934132710037826936173778980444968292764750946649017977587207096330286416692887910946555547851940402630657488671505820681908902000708383676273854845817711531764475730270069855571366int);
    lemma_window(d, 219);
    assert(digits_value(d.take(222), 10) == 179769313486231580793728971405303415079934132710037826936173778980444968292764750946649017977587207096330286416692887910946555547851940402630657488671505820681908902000708383676273854845817711531764475730270069855571366959int);
    lemma_window(d, 222);
    assert(digits_value(d.take(225), 10) == 179769313486231580793728971405303415079934132710037826936173778980444968292764750946649017977587207096330286416692887910946555547851940402630657488671505820681908902000708383676273854845817711531764475730270069855571366959622int);
    lemma_window(d, 225);
    assert(digits_value(d.take(228), 10) == 179769313486231580793728971405303415079934132710037826936173778980444968292764750946649017977587207096330286416692887910946555547851940402630657488671505820681908902000708383676273854845817711531764475730270069855571366959622842int);
    lemma_window(d, 228);
    assert(digits_value(d.take(231), 10) == 179769313486231580793728971405303415079934132710037826936173778980444968292764750946649017977587207096330286416692887910946555547851940402630657488671505820681908902000708383676273854845817711531764475730270069855571366959622842914int);
    lemma_window(d, 231);
    assert(digits_value(d.take(234), 10) == 179769313486231580793728971405303415079934132710037826936173778980444968292764750946649017977587207096330286416692887910946555547851940402630657488671505820681908902000708383676273854845817711531764475730270069855571366959622842914819int);
}

proof fn lemma_limit_prefix_273()
    ensures
        digits_value(double_limit_digits().take(273), 10) == 179769313486231580793728971405303415079934132710037826936173778980444968292764750946649017977587207096330286416692887910946555547851940402630657488671505820681908902000708383676273854845817711531764475730270069855571366959622842914819860834936475292719074168444365510704342int,
{
    let d = double_limit_digits();
    lemma_limit_prefix_234();
    lemma_window(d, 234);
    assert(digits_value(d.take(237), 10) == 179769313486231580793728971405303415079934132710037826936173778980444968292764750946649017977587207096330286416692887910946555547851940402630657488671505820681908902000708383676273854845817711531764475730270069855571366959622842914819860int);
    lemma_window(d, 237);
    assert(digits_value(d.take(240), 10) == 179769313486231580793728971405303415079934132710037826936173778980444968292764750946649017977587207096330286416692887910946555547851940402630657488671505820681908902000708383676273854845817711531764475730270069855571366959622842914819860834int);
    lemma_window(d, 240);
    assert(digits_value(d.take(243), 10) == 179769313486231580793728971405303415079934132710037826936173778980444968292764750946649017977587207096330286416692887910946555547851940402630657488671505820681908902000708383676273854845817711531764475730270069855571366959622842914819860834936int);
    lemma_window(d, 243);
    assert(digits_value(d.take(246), 10) == 179769313486231580793728971405303415079934132710037826936173778980444968292764750946649017977587207096330286416692887910946555547851940402630657488671505820681908902000708383676273854845817711531764475730270069855571366959622842914819860834936475int);
    lemma_window(d, 246);
    assert(digits_value(d.take(249), 10) == 179769313486231580793728971405303415079934132710037826936173778980444968292764750946649017977587207096330286416692887910946555547851940402630657488671505820681908902000708383676273854845817711531764475730270069855571366959622842914819860834936475292int);
    lemma_window(d, 249);
    assert(digits_value(d.take(252), 10) == 179769313486231580793728971405303415079934132710037826936173778980444968292764750946649017977587207096330286416692887910946555547851940402630657488671505820681908902000708383676273854845817711531764475730270069855571366959622842914819860834936475292719int);
    lemma_window(d, 252);
    assert(digits_value(d.take(255), 10) == 179769313486231580793728971405303415079934132710037826936173778980444968292764750946649017977587207096330286416692887910946555547851940402630657488671505820681908902000708383676273854845817711531764475730270069855571366959622842914819860834936475292719074int);
    lemma_window(d, 255);
    assert(digits_value(d.take(258), 10) == 179769313486231580793728971405303415079934132710037826936173778980444968292764750946649017977587207096330286416692887910946555547851940402630657488671505820681908902000708383676273854845817711531764475730270069855571366959622842914819860834936475292719074168int);
    lemma_window(d, 258);
    assert(digits_value(d.take(261), 10) == 179769313486231580793728971405303415079934132710037826936173778980444968292764750946649017977587207096330286416692887910946555547851940402630657488671505820681908902000708383676273854845817711531764475730270069855571366959622842914819860834936475292719074168444int);
    lemma_window(d, 261);
    assert(digits_value(d.take(264), 10) == 179769313486231580793728971405303415079934132710037826936173778980444968292764750946649017977587207096330286416692887910946555547851940402630657488671505820681908902000708383676273854845817711531764475730270069855571366959622842914819860834936475292719074168444365int);
    lemma_window(d, 264);
    assert(digits_value(d.take(267), 10) == 179769313486231580793728971405303415079934132710037826936173778980444968292764750946649017977587207096330286416692887910946555547851940402630657488671505820681908902000708383676273854845817711531764475730270069855571366959622842914819860834936475292719074168444365510int);
    lemma_window(d, 267);
    assert(digits_value(d.take(270), 10) == 179769313486231580793728971405303415079934132710037826936173778980444968292764750946649017977587207096330286416692887910946555547851940402630657488671505820681908902000708383676273854845817711531764475730270069855571366959622842914819860834936475292719074168444365510704int);
    lemma_window(d, 270);
    assert(digits_value(d.take(273), 10) == 179769313486231580793728971405303415079934132710037826936173778980444968292764750946649017977587207096330286416692887910946555547851940402630657488671505820681908902000708383676273854845817711531764475730270069855571366959622842914819860834936475292719074168444365510704342int);
}

proof fn lemma_limit_prefix_309()
    ensures
        digits_value(double_limit_digits().take(309), 10) == 179769313486231580793728971405303415079934132710037826936173778980444968292764750946649017977587207096330286416692887910946555547851940402630657488671505820681908902000708383676273854845817711531764475730270069855571366959622842914819860834936475292719074168444365510704342711559699508093042880177904174497792int,
{
    let d = double_limit_digits();
    lemma_limit_prefix_273();
    lemma_window(d, 273);
    assert(digits_value(d.take(276), 10) == 179769313486231580793728971405303415079934132710037826936173778980444968292764750946649017977587207096330286416692887910946555547851940402630657488671505820681908902000708383676273854845817711531764475730270069855571366959622842914819860834936475292719074168444365510704342711int);
    lemma_window(d, 276);
    assert(digits_value(d.take(279), 10) == 179769313486231580793728971405303415079934132710037826936173778980444968292764750946649017977587207096330286416692887910946555547851940402630657488671505820681908902000708383676273854845817711531764475730270069855571366959622842914819860834936475292719074168444365510704342711559int);
    lemma_window(d, 279);
    assert(digits_value(d.take(282), 10) == 179769313486231580793728971405303415079934132710037826936173778980444968292764750946649017977587207096330286416692887910946555547851940402630657488671505820681908902000708383676273854845817711531764475730270069855571366959622842914819860834936475292719074168444365510704342711559699int);
    lemma_window(d, 282);
    assert(digits_value(d.take(285), 10) == 179769313486231580793728971405303415079934132710037826936173778980444968292764750946649017977587207096330286416692887910946555547851940402630657488671505820681908902000708383676273854845817711531764475730270069855571366959622842914819860834936475292719074168444365510704342711559699508int);
    lemma_window(d, 285);
    assert(digits_value(d.take(288), 10) == 179769313486231580793728971405303415079934132710037826936173778980444968292764750946649017977587207096330286416692887910946555547851940402630657488671505820681908902000708383676273854845817711531764475730270069855571366959622842914819860834936475292719074168444365510704342711559699508093int);
    lemma_window(d, 288);
    assert(digits_value(d.take(291), 10) == 179769313486231580793728971405303415079934132710037826936173778980444968292764750946649017977587207096330286416692887910946555547851940402630657488671505820681908902000708383676273854845817711531764475730270069855571366959622842914819860834936475292719074168444365510704342711559699508093042int);
    lemma_window(d, 291);
    assert(digits_value(d.take(294), 10) == 179769313486231580793728971405303415079934132710037826936173778980444968292764750946649017977587207096330286416692887910946555547851940402630657488671505820681908902000708383676273854845817711531764475730270069855571366959622842914819860834936475292719074168444365510704342711559699508093042880int);
    lemma_window(d, 294);
    assert(digits_value(d.take(297), 10) == 179769313486231580793728971405303415079934132710037826936173778980444968292764750946649017977587207096330286416692887910946555547851940402630657488671505820681908902000708383676273854845817711531764475730270069855571366959622842914819860834936475292719074168444365510704342711559699508093042880177int);
    lemma_window(d, 297);
    assert(digits_value(d.take(300), 10) == 179769313486231580793728971405303415079934132710037826936173778980444968292764750946649017977587207096330286416692887910946555547851940402630657488671505820681908902000708383676273854845817711531764475730270069855571366959622842914819860834936475292719074168444365510704342711559699508093042880177904int);
    lemma_window(d, 300);
    assert(digits_value(d.take(303), 10) == 179769313486231580793728971405303415079934132710037826936173778980444968292764750946649017977587207096330286416692887910946555547851940402630657488671505820681908902000708383676273854845817711531764475730270069855571366959622842914819860834936475292719074168444365510704342711559699508093042880177904174int);
    lemma_window(d, 303);
    assert(digits_value(d.take(306), 10) == 179769313486231580793728971405303415079934132710037826936173778980444968292764750946649017977587207096330286416692887910946555547851940402630657488671505820681908902000708383676273854845817711531764475730270069855571366959622842914819860834936475292719074168444365510704342711559699508093042880177904174497int);
    lemma_window(d, 306);
    assert(digits_value(d.take(309), 10) == 179769313486231580793728971405303415079934132710037826936173778980444968292764750946649017977587207096330286416692887910946555547851940402630657488671505820681908902000708383676273854845817711531764475730270069855571366959622842914819860834936475292719074168444365510704342711559699508093042880177904174497792int);
}

/// The double limit is two to the power of 1024 less two to the power of
/// 970: the number halfway between the greatest finite double, which is two
/// to the power of 1024 less two to the power of 971, and two to the power
/// of 1024.
pub proof fn lemma_double_limit()
    ensures
        double_limit() == pow2(1024) - pow2(970),
{
    lemma_limit_prefix_309();
    assert(double_limit_digits().take(309) =~= double_limit_digits());
    lemma2_to64();
    lemma_pow2_adds(64, 64);
    assert(pow2(128) == 340282366920938463463374607431768211456int);
    lemma_pow2_adds(128, 128);
    assert(pow2(256) == 115792089237316195423570985008687907853269984665640564039457584007913129639936int);
    lemma_pow2_adds(256, 256);
    assert(pow2(512) == 13407807929942597099574024998205846127479365820592393377723561443721764030073546976801874298166903427690031858186486050853753882811946569946433649006084096int);
    lemma_pow2_adds(512, 512);
    assert(pow2(1024) == 179769313486231590772930519078902473361797697894230657273430081157732675805500963132708477322407536021120113879871393357658789768814416622492847430639474124377767893424865485276302219601246094119453082952085005768838150682342462881473913110540827237163350510684586298239947245938479716304835356329624224137216int);
    lemma_pow2_adds(512, 256);
    assert(pow2(768) == 1552518092300708935148979488462502555256886017116696611139052038026050952686376886330878408828646477950487730697131073206171580044114814391444287275041181139204454976020849905550265285631598444825262999193716468750892846853816057856int);
    lemma_pow2_adds(768, 128);
    assert(pow2(896) == 528294531135665246352339784916516606518847326036121522127960709026673902556724859474417255887657187894674394993257128678882347559502685537250538978462939576908386683999005084168731517676426441053024232908211188404148028292751561738838396898767036476489538580897737998336int);
    lemma_pow2_adds(896, 64);
    assert(pow2(960) == 9745314011399999080353382387875188310876226857595007526867906457212948690766426102465615065882010259225304916231408668183459169865203094046577987296312653419531277699956473029870789655490053648352799593479218378873685597925394874945746363615468965612827738803104277547081828589991914110976int);
    lemma_pow2_adds(960, 10);
    assert(pow2(970) == 9979201547673599058281863565184192830337256302177287707512736212186059459344820328924789827463178505446712234220962476219862189941967968303695858991424157101600028364755428382587688607221814935913266783722719619966654052275604351944444276342240220787535604534378780208211792476151720049639424int);
}

} // verus!
