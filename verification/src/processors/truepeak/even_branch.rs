//! The even branch of the probe in fixed point.
//!
//! The branch interpolates between the samples: its coefficients alternate in sign and fall off to
//! either side. Here the ones that are positive are shown to outweigh the negative ones three
//! times, so that the branch, which has unity gain, at most doubles what it is given.

use crate::arith::{s_one, s_zero};
use crate::fixed::{
    folded, isqrt, lemma_isqrt, magnitude, reduced, saturated, sin_of, sin_series, tenths,
    Fixed, HALF_PI_RAW, LIMIT, ONE, PI_RAW, SIN_TERMS, TAU_RAW,
};
use crate::fixed_laws::{lemma_products_rise, lemma_quotient_rises};
use crate::prcfmt::PrcFmt;
use crate::processors::truepeak::branches::{
    even_gain, lemma_bessel_grows, lemma_bessel_is_positive, lemma_half, lemma_halves, probe_reach,
    stage_gain, stage_reach, weight, HALF,
};
use crate::processors::truepeak::probe::{
    every_second, halfband_of, unity_gain, HALFBAND_TAPS,
};
use crate::utils::window::{
    bessel_from, from_centre, lemma_windowed_sinc_is_symmetric, s_bessel_i0, s_halves, s_kaiser,
    s_sinc, sum_of, windowed_sinc_at, BESSEL_TERMS,
};
use vstd::arithmetic::div_mod::lemma_fundamental_div_mod_converse;
use vstd::prelude::*;

verus! {

// ------------------------------- The sine -------------------------------

/// A little less than one: the least that the sine of a quarter of a turn is taken for.
pub const SINE_LOW: i64 = 4273492460;

/// A little more than one.
pub const SINE_HIGH: i64 = 4316442132;

/// From its fourth term on, the series of the sine changes by no more than the term before.
proof fn lemma_sin_series_settles(z2: Fixed, k: int, term: Fixed, sum: Fixed)
    requires
        4 <= k,
        0 <= z2.raw <= 3 * ONE,
        magnitude(sum.raw as int) + magnitude(term.raw as int) <= 4 * ONE,
    ensures
        magnitude(sin_series(z2, k, term, sum).raw - sum.raw) <= magnitude(term.raw as int),
    decreases SIN_TERMS + 1 - k,
{
    if k <= SIN_TERMS {
        let t = magnitude(term.raw as int);
        let z = z2.raw as int;
        let q = t * z / (ONE as int);
        assert(0 <= q <= 3 * t) by (nonlinear_arith)
            requires
                q == t * z / (ONE as int),
                0 <= t,
                0 <= z <= 3 * ONE,
        ;
        let p = term.s_mul(z2);
        assert(magnitude(p.raw as int) == q);
        let n = 2 * k * (2 * k + 1);
        assert(72 <= n <= 1000) by (nonlinear_arith)
            requires
                4 <= k <= 14,
                n == 2 * k * (2 * k + 1),
        ;
        let d = Fixed::s_int(n);
        assert(d.raw == n * ONE);
        let e = n * ONE;
        let r = q * ONE / e;
        assert(0 <= r && 2 * r <= t) by (nonlinear_arith)
            requires
                r == q * ONE / e,
                e == n * ONE,
                72 <= n,
                0 <= q <= 3 * t,
        ;
        let next = p.s_div(d).s_neg();
        assert(magnitude(next.raw as int) == r);
        lemma_sin_series_settles(z2, k + 1, next, sum.s_add(next));
    }
}

/// One term of the series of the sine, in units of the last place.
proof fn lemma_sin_step(z: int, k: int, n: int, negative: bool, term: int, sum: int, next: int)
    requires
        1 <= k <= 3,
        0 <= z <= 3 * ONE,
        0 <= term <= 2 * ONE,
        0 <= sum <= 2 * ONE,
        k == 1 && n == 6 || k == 2 && n == 20 || k == 3 && n == 42,
        next == term * z / (ONE as int) / n,
    ensures
        0 <= next <= term,
        sin_series(
            saturated(z),
            k,
            saturated(
                if negative {
                    -term
                } else {
                    term
                },
            ),
            saturated(sum),
        ) == sin_series(
            saturated(z),
            k + 1,
            saturated(
                if negative {
                    next
                } else {
                    -next
                },
            ),
            saturated(
                if negative {
                    sum + next
                } else {
                    sum - next
                },
            ),
        ),
{
    assert(n == 2 * k * (2 * k + 1)) by (nonlinear_arith)
        requires
            k == 1 && n == 6 || k == 2 && n == 20 || k == 3 && n == 42,
    ;
    let d = Fixed::s_int(n);
    assert(d.raw == n * ONE);
    let q = term * z / (ONE as int);
    assert(0 <= q <= 3 * term) by (nonlinear_arith)
        requires
            q == term * z / (ONE as int),
            0 <= term,
            0 <= z <= 3 * ONE,
    ;
    let e = n * ONE;
    assert(q * ONE / e == q / n && 0 <= q / n <= term) by (nonlinear_arith)
        requires
            0 <= q <= 3 * term,
            6 <= n,
            e == n * ONE,
    ;
}

/// The sine a few units before a quarter of a turn is one, but for a half percent.
proof fn lemma_sine_near_quarter(m: int)
    requires
        HALF_PI_RAW - 4 <= m <= HALF_PI_RAW,
    ensures
        ({
            let x = saturated(m);
            SINE_LOW <= sin_series(x.s_mul(x), 1, x, x).raw <= SINE_HIGH
        }),
{
    let x = saturated(m);
    let z = m * m / (ONE as int);
    assert(x.s_mul(x) == saturated(z));
    assert(10597407018 <= z <= 10597407030) by (nonlinear_arith)
        requires
            6746518848 <= m <= 6746518852,
            z == m * m / 0x1_0000_0000,
    ;
    let a = m * z / (ONE as int) / 6;
    assert(2774394667 <= a <= 2774394672) by (nonlinear_arith)
        requires
            6746518848 <= m <= 6746518852,
            10597407018 <= z <= 10597407030,
            a == m * z / 0x1_0000_0000 / 6,
    ;
    lemma_sin_step(z, 1, 6, false, m, m, a);
    let b = a * z / (ONE as int) / 20;
    assert(342277222 <= b <= 342277223) by (nonlinear_arith)
        requires
            2774394667 <= a <= 2774394672,
            10597407018 <= z <= 10597407030,
            b == a * z / 0x1_0000_0000 / 20,
    ;
    lemma_sin_step(z, 2, 20, true, a, m - a, b);
    let c = b * z / (ONE as int) / 42;
    assert(20107980 <= c <= 20107980) by (nonlinear_arith)
        requires
            342277222 <= b <= 342277223,
            10597407018 <= z <= 10597407030,
            c == b * z / 0x1_0000_0000 / 42,
    ;
    lemma_sin_step(z, 3, 42, false, b, m - a + b, c);
    lemma_sin_series_settles(saturated(z), 4, saturated(-c), saturated(m - a + b - c));
}

/// The series of the sine is odd.
proof fn lemma_sin_series_is_odd(z2: Fixed, k: int, term: Fixed, sum: Fixed)
    requires
        1 <= k,
        -LIMIT <= term.raw,
        -LIMIT <= sum.raw,
    ensures
        -LIMIT <= sin_series(z2, k, term, sum).raw,
        sin_series(z2, k, term.s_neg(), sum.s_neg()) == sin_series(z2, k, term, sum).s_neg(),
    decreases SIN_TERMS + 1 - k,
{
    if k <= SIN_TERMS {
        let n = 2 * k * (2 * k + 1);
        assert(0 < n <= 1000) by (nonlinear_arith)
            requires
                1 <= k <= 14,
                n == 2 * k * (2 * k + 1),
        ;
        let d = Fixed::s_int(n);
        assert(d.raw == n * ONE);
        let t = magnitude(term.raw as int);
        let z = magnitude(z2.raw as int);
        assert(0 <= t * z / (ONE as int)) by (nonlinear_arith)
            requires
                0 <= t,
                0 <= z,
        ;
        assert(t == 0 ==> t * z / (ONE as int) == 0) by (nonlinear_arith);
        let p = term.s_mul(z2);
        assert(term.s_neg().s_mul(z2) == p.s_neg());
        let q = magnitude(p.raw as int);
        let e = magnitude(d.raw as int);
        assert(0 <= q * ONE / e) by (nonlinear_arith)
            requires
                0 <= q,
                0 < e,
        ;
        assert(q == 0 ==> q * ONE / e == 0) by (nonlinear_arith)
            requires
                0 < e,
        ;
        assert(p.s_neg().s_div(d) == p.s_div(d).s_neg());
        let next = p.s_div(d).s_neg();
        assert(sum.s_neg().s_add(next.s_neg()) == sum.s_add(next).s_neg());
        lemma_sin_series_is_odd(z2, k + 1, next, sum.s_add(next));
    }
}

/// The phase of the sinc `k` samples of the higher rate from the centre, for odd `k`: an odd number
/// of quarter turns.
pub open spec fn quarters(k: int) -> int {
    PI_RAW * k / 2
}

/// Whether `k` is the distance of a coefficient of the even branch from the centre.
pub open spec fn is_even_tap(k: int) -> bool {
    1 <= k <= 15 && k % 2 == 1
}

/// The sine of an odd number of quarter turns is one or minus one, in turn.
proof fn lemma_sine_of_quarters(k: int)
    requires
        is_even_tap(k),
    ensures
        k % 4 == 1 ==> SINE_LOW <= sin_of(quarters(k)).raw <= SINE_HIGH,
        k % 4 == 3 ==> -SINE_HIGH <= sin_of(quarters(k)).raw <= -SINE_LOW,
{
    let phase = quarters(k);
    let turns = k / 4;
    assert(k == 1 || k == 3 || k == 5 || k == 7 || k == 9 || k == 11 || k == 13 || k == 15);
    lemma_fundamental_div_mod_converse(phase, TAU_RAW as int, turns, phase - turns * TAU_RAW);
    let f = folded(reduced(phase));
    let m = magnitude(f);
    assert(HALF_PI_RAW - 4 <= m <= HALF_PI_RAW);
    assert(f < 0 <==> k % 4 == 3);
    lemma_sine_near_quarter(m);
    if f < 0 {
        let x = saturated(m);
        assert(saturated(f) == x.s_neg());
        assert(x.s_neg().s_mul(x.s_neg()) == x.s_mul(x));
        lemma_sin_series_is_odd(x.s_mul(x), 1, x, x);
    }
}

// ------------------------------- The window -------------------------------

/// One term of the series of the Bessel function, in units of the last place: from the term and the
/// sum before it, and the share of the argument that falls on it, to the next term.
proof fn lemma_bessel_step(h: int, k: int, term: int, sum: int, share: int, next: int)
    requires
        1 <= k < 20,
        0 <= h <= 16 * ONE,
        0 <= term <= 200 * ONE,
        0 <= sum <= 500 * ONE,
        0 <= h - share * (k * k) < k * k,
        0 <= term * share - next * 0x1_0000_0000 < 0x1_0000_0000,
    ensures
        0 <= next <= 3200 * ONE,
        bessel_from(saturated(h), k, saturated(term), saturated(sum)) == bessel_from(
            saturated(h),
            k + 1,
            saturated(next),
            saturated(sum + next),
        ),
{
    let kf = Fixed::s_int(k);
    assert(kf.raw == k * ONE);
    let n = k * k;
    let a = k * ONE;
    assert(1 <= n <= 400 && a * a / (ONE as int) == n * ONE) by (nonlinear_arith)
        requires
            1 <= k < 20,
            n == k * k,
            a == k * ONE,
    ;
    let kk = kf.s_mul(kf);
    assert(kk.raw == n * ONE);
    let e = n * ONE;
    assert(share == h * ONE / e && 0 <= share <= h) by (nonlinear_arith)
        requires
            0 <= h,
            1 <= n,
            e == n * ONE,
            0 <= h - share * n < n,
    ;
    assert(saturated(h).s_div(kk) == saturated(share));
    assert(next == term * share / (ONE as int) && 0 <= next <= 3200 * ONE) by (nonlinear_arith)
        requires
            0 <= term <= 200 * ONE,
            0 <= share <= 16 * ONE,
            0 <= term * share - next * 0x1_0000_0000 < 0x1_0000_0000,
    ;
    assert(saturated(term).s_mul(saturated(share)) == saturated(next));
    lemma_no_term_is_dropped(saturated(next), saturated(sum).s_add(saturated(next)));
}

/// The bound below which a term of the series no longer counts is zero.
proof fn lemma_no_term_is_dropped(next: Fixed, total: Fixed)
    requires
        0 <= next.raw,
    ensures
        !next.s_lt(Fixed::s_dec(1, 18).s_mul(total)),
{
    reveal_with_fuel(tenths, 19);
    assert(Fixed::s_dec(1, 18).raw == 0);
    let m = magnitude(total.raw as int);
    assert(0 * m == 0) by (nonlinear_arith);
}

/// Where the terms of the series at least halve, the rest adds no more than the last of them.
proof fn lemma_bessel_tail(h: Fixed, k: int, term: Fixed, sum: Fixed)
    requires
        1 <= k,
        0 <= h.raw,
        2 * h.raw <= k * k * ONE,
        0 <= term.raw,
        0 <= sum.raw,
        sum.raw + term.raw <= LIMIT,
    ensures
        bessel_from(h, k, term, sum).raw <= sum.raw + term.raw,
    decreases BESSEL_TERMS - k,
{
    if k < BESSEL_TERMS {
        let kf = Fixed::s_int(k);
        assert(kf.raw == k * ONE);
        let n = k * k;
        let a = k * ONE;
        assert(1 <= n <= 2500 && a * a / (ONE as int) == n * ONE) by (nonlinear_arith)
            requires
                1 <= k <= 50,
                n == k * k,
                a == k * ONE,
        ;
        let kk = kf.s_mul(kf);
        assert(kk.raw == n * ONE);
        let e = n * ONE;
        let v = h.raw as int;
        let share = v * ONE / e;
        assert(0 <= share && 2 * share <= ONE) by (nonlinear_arith)
            requires
                share == v * ONE / e,
                0 <= v,
                2 * v <= n * ONE,
                1 <= n,
                e == n * ONE,
        ;
        assert(h.s_div(kk).raw == share);
        let t = term.raw as int;
        let q = t * share / (ONE as int);
        assert(0 <= q && 2 * q <= t) by (nonlinear_arith)
            requires
                q == t * share / (ONE as int),
                0 <= t,
                0 <= share,
                2 * share <= ONE,
        ;
        let next = term.s_mul(h.s_div(kk));
        assert(next.raw == q);
        lemma_no_term_is_dropped(next, sum.s_add(next));
        assert(2 * h.raw <= (k + 1) * (k + 1) * ONE) by (nonlinear_arith)
            requires
                2 * h.raw <= k * k * ONE,
                1 <= k,
        ;
        lemma_bessel_tail(h, k + 1, next, sum.s_add(next));
    }
}

/// The Bessel function of twice the root of `h`, by its series.
pub open spec fn bessel_at(h: int) -> int {
    bessel_from(saturated(h), 1, s_one::<Fixed>(), s_one::<Fixed>()).raw as int
}

/// The Bessel function in the middle of the window.
proof fn lemma_bessel_in_the_middle()
    ensures
        427 * ONE <= bessel_at(16 * ONE) <= 428 * ONE,
{
    lemma_bessel_step(68719476736, 1, 4294967296, 4294967296, 68719476736, 68719476736);
    lemma_bessel_step(68719476736, 2, 68719476736, 73014444032, 17179869184, 274877906944);
    lemma_bessel_step(68719476736, 3, 274877906944, 347892350976, 7635497415, 488671834560);
    lemma_bessel_step(68719476736, 4, 488671834560, 836564185536, 4294967296, 488671834560);
    lemma_bessel_step(68719476736, 5, 488671834560, 1325236020096, 2748779069, 312749974068);
    lemma_bessel_step(68719476736, 6, 312749974068, 1637985994164, 1908874353, 138999988418);
    lemma_bessel_step(68719476736, 7, 138999988418, 1776985982582, 1402438300, 45387751296);
    lemma_bessel_step(68719476736, 8, 45387751296, 1822373733878, 1073741824, 11346937824);
    lemma_bessel_step(68719476736, 9, 11346937824, 1833720671702, 848388601, 2241370432);
    lemma_bessel_grows(saturated(68719476736), 10, saturated(2241370432), saturated(1835962042134));
    lemma_bessel_tail(saturated(68719476736), 10, saturated(2241370432), saturated(1835962042134));
}

/// The Bessel function one sample from the middle.
proof fn lemma_bessel_at_1()
    ensures
        420 * ONE <= bessel_at(68414056847),
{
    lemma_bessel_step(68414056847, 1, 4294967296, 4294967296, 68414056847, 68414056847);
    lemma_bessel_step(68414056847, 2, 68414056847, 72709024143, 17103514211, 272439977506);
    lemma_bessel_step(68414056847, 3, 272439977506, 345149001649, 7601561871, 482185125617);
    lemma_bessel_step(68414056847, 4, 482185125617, 827334127266, 4275878552, 480042080562);
    lemma_bessel_step(68414056847, 5, 480042080562, 1307376207828, 2736562273, 305861478466);
    lemma_bessel_step(68414056847, 6, 305861478466, 1613237686294, 1900390467, 135334263997);
    lemma_bessel_step(68414056847, 7, 135334263997, 1748571950291, 1396205241, 43994376594);
    lemma_bessel_step(68414056847, 8, 43994376594, 1792566326885, 1068969638, 10949711506);
    lemma_bessel_step(68414056847, 9, 10949711506, 1803516038391, 844617985, 2153293059);
    lemma_bessel_grows(saturated(68414056847), 10, saturated(2153293059), saturated(1805669331450));
}

/// The Bessel function three samples from the middle.
proof fn lemma_bessel_at_3()
    ensures
        bessel_at(65970697671) <= 369 * ONE,
{
    lemma_bessel_step(65970697671, 1, 4294967296, 4294967296, 65970697671, 65970697671);
    lemma_bessel_step(65970697671, 2, 65970697671, 70265664967, 16492674417, 253327479062);
    lemma_bessel_step(65970697671, 3, 253327479062, 323593144029, 7330077519, 432345564294);
    lemma_bessel_step(65970697671, 4, 432345564294, 755938708323, 4123168604, 415051741706);
    lemma_bessel_step(65970697671, 5, 415051741706, 1170990450029, 2638827906, 255007790040);
    lemma_bessel_step(65970697671, 6, 255007790040, 1425998240069, 1832519379, 108803323713);
    lemma_bessel_step(65970697671, 7, 108803323713, 1534801563782, 1346340768, 34106511252);
    lemma_bessel_step(65970697671, 8, 34106511252, 1568908075034, 1030792151, 8185562700);
    lemma_bessel_step(65970697671, 9, 8185562700, 1577093637734, 814453057, 1552225221);
    lemma_bessel_tail(saturated(65970697671), 10, saturated(1552225221), saturated(1578645862955));
}

/// The Bessel function five samples from the middle.
proof fn lemma_bessel_at_5()
    ensures
        278 * ONE <= bessel_at(61083979321),
{
    lemma_bessel_step(61083979321, 1, 4294967296, 4294967296, 61083979321, 61083979321);
    lemma_bessel_step(61083979321, 2, 61083979321, 65378946617, 15270994830, 217187482027);
    lemma_bessel_step(61083979321, 3, 217187482027, 282566428644, 6787108813, 343209848119);
    lemma_bessel_step(61083979321, 4, 343209848119, 625776276763, 3817748707, 305075420505);
    lemma_bessel_step(61083979321, 5, 305075420505, 930851697268, 2443359172, 173554016939);
    lemma_bessel_step(61083979321, 6, 173554016939, 1104405714207, 1696777203, 68564549887);
    lemma_bessel_step(61083979321, 7, 68564549887, 1172970264094, 1246611822, 19900821721);
    lemma_bessel_step(61083979321, 8, 19900821721, 1192871085815, 954437176, 4422404822);
    lemma_bessel_grows(saturated(61083979321), 9, saturated(4422404822), saturated(1197293490637));
}

/// The Bessel function seven samples from the middle.
proof fn lemma_bessel_at_7()
    ensures
        bessel_at(53753901801) <= 182 * ONE,
{
    lemma_bessel_step(53753901801, 1, 4294967296, 4294967296, 53753901801, 53753901801);
    lemma_bessel_step(53753901801, 2, 53753901801, 58048869097, 13438475450, 168189986072);
    lemma_bessel_step(53753901801, 3, 168189986072, 226238855169, 5972655755, 233887901587);
    lemma_bessel_step(53753901801, 4, 233887901587, 460126756756, 3359618862, 182952314094);
    lemma_bessel_step(53753901801, 5, 182952314094, 643079070850, 2150156072, 91589994038);
    lemma_bessel_step(53753901801, 6, 91589994038, 734669064888, 1493163938, 31841657166);
    lemma_bessel_step(53753901801, 7, 31841657166, 766510722054, 1097018404, 8132980187);
    lemma_bessel_step(53753901801, 8, 8132980187, 774643702241, 839904715, 1590449457);
    lemma_bessel_tail(saturated(53753901801), 9, saturated(1590449457), saturated(776234151698));
}

/// The Bessel function eleven samples from the middle.
proof fn lemma_bessel_at_11()
    ensures
        bessel_at(31763669275) <= 42 * ONE,
{
    lemma_bessel_step(31763669275, 1, 4294967296, 4294967296, 31763669275, 31763669275);
    lemma_bessel_step(31763669275, 2, 31763669275, 36058636571, 7940917318, 58727495239);
    lemma_bessel_step(31763669275, 3, 58727495239, 94786131810, 3529296586, 48258050449);
    lemma_bessel_step(31763669275, 4, 48258050449, 143044182259, 1985229329, 22305943330);
    lemma_bessel_step(31763669275, 5, 22305943330, 165350125589, 1270546771, 6598593730);
    lemma_bessel_tail(saturated(31763669275), 6, saturated(6598593730), saturated(171948719319));
}

// ------------------------------- The coefficients -------------------------------

/// The Bessel function rises with its argument.
proof fn lemma_bessel_rises(
    g: Fixed,
    h: Fixed,
    k: int,
    term: Fixed,
    sum: Fixed,
    other: Fixed,
    total: Fixed,
)
    requires
        1 <= k,
        0 <= g.raw <= h.raw,
        0 <= term.raw <= other.raw,
        0 <= sum.raw <= total.raw,
    ensures
        bessel_from(g, k, term, sum).raw <= bessel_from(h, k, other, total).raw,
    decreases BESSEL_TERMS - k,
{
    if k < BESSEL_TERMS {
        let kf = Fixed::s_int(k);
        assert(kf.raw == k * ONE);
        let a = k * ONE;
        assert(0 < a * a / (ONE as int)) by (nonlinear_arith)
            requires
                a == k * ONE,
                1 <= k,
        ;
        let kk = kf.s_mul(kf);
        lemma_quotient_rises(g, h, kk);
        lemma_products_rise(term, g.s_div(kk), other, h.s_div(kk));
        let p = term.s_mul(g.s_div(kk));
        let q = other.s_mul(h.s_div(kk));
        lemma_no_term_is_dropped(p, sum.s_add(p));
        lemma_no_term_is_dropped(q, total.s_add(q));
        lemma_bessel_rises(g, h, k + 1, p, sum.s_add(p), q, total.s_add(q));
    }
}

/// The coefficient of the prototype `k` samples from its centre.
#[verifier::opaque]
pub open spec fn tap(k: int) -> Fixed {
    halfband_of::<Fixed>(HALFBAND_TAPS as int)[15 - k]
}

/// What the window leaves of one, `k` samples from the middle, under the root.
pub open spec fn rest_at(k: int) -> int {
    let share = k * ONE / 15;
    ONE - share * share / (ONE as int)
}

/// The window `k` samples from the middle.
pub open spec fn window_at(k: int) -> Fixed {
    s_kaiser(s_halves::<Fixed>(2 * k), s_halves(30), Fixed::s_int(8))
}

/// The window `k` samples from the middle, where `root` is the root of what is left of one.
proof fn lemma_window(k: int, root: int)
    requires
        1 <= k <= 15,
        0 <= root <= ONE,
        root * root <= rest_at(k) * ONE,
        rest_at(k) * ONE < (root + 1) * (root + 1),
    ensures
        ONE <= bessel_at(16 * ONE),
        window_at(k) == saturated(
            bessel_at(16 * root * root / (ONE as int)) * ONE / bessel_at(16 * ONE),
        ),
        0 < bessel_at(16 * root * root / (ONE as int)) <= bessel_at(16 * ONE),
{
    lemma_half();
    lemma_halves(2 * k);
    lemma_halves(30);
    let at = s_halves::<Fixed>(2 * k);
    let reach = s_halves::<Fixed>(30);
    assert(at.raw == k * ONE && reach.raw == 15 * ONE);
    let share = k * ONE / 15;
    let d = 15 * ONE;
    assert(k * ONE * ONE / d == share && 0 <= share <= ONE) by (nonlinear_arith)
        requires
            1 <= k <= 15,
            d == 15 * ONE,
            share == k * ONE / 15,
    ;
    assert(at.s_div(reach).raw == share);
    let sq = share * share / (ONE as int);
    assert(0 <= sq <= ONE) by (nonlinear_arith)
        requires
            0 <= share <= ONE,
            sq == share * share / (ONE as int),
    ;
    let part = at.s_div(reach);
    assert(part.s_mul(part).raw == sq);
    let rest = s_one::<Fixed>().s_sub(part.s_mul(part)).s_max(s_zero());
    assert(rest.raw == rest_at(k));
    let n = rest.raw * ONE;
    lemma_isqrt(n);
    let r = isqrt(n);
    assert(r == root) by (nonlinear_arith)
        requires
            0 <= r,
            0 <= root,
            r * r <= n,
            n < (r + 1) * (r + 1),
            root * root <= n,
            n < (root + 1) * (root + 1),
    ;
    let beta = Fixed::s_int(8);
    assert(beta.raw == 8 * ONE);
    let x = beta.s_mul(rest.s_sqrt());
    assert(rest.s_sqrt().raw == root);
    lemma_half_square(x, root);
    lemma_half_square(beta, ONE as int);
    assert(16 * ONE * ONE / (ONE as int) == 16 * ONE);
    lemma_bessel_is_positive(beta);
    lemma_bessel_is_positive(x);
    let sq_root = 16 * root * root / (ONE as int);
    assert(0 <= sq_root <= 16 * ONE) by (nonlinear_arith)
        requires
            0 <= root <= ONE,
            sq_root == 16 * root * root / (ONE as int),
    ;
    let one = s_one::<Fixed>();
    lemma_bessel_rises(saturated(sq_root), saturated(16 * ONE), 1, one, one, one, one);
}

/// The argument of the series for eight times `root`.
proof fn lemma_half_square(x: Fixed, root: int)
    requires
        0 <= root <= ONE,
        x.raw == 8 * ONE * root / (ONE as int),
    ensures
        s_bessel_i0(x).raw == bessel_at(16 * root * root / (ONE as int)),
{
    lemma_half();
    assert(8 * ONE * root / (ONE as int) == 8 * root) by (nonlinear_arith);
    let half = x.s_mul(Fixed::s_dec(5, 1));
    assert(8 * root * HALF / (ONE as int) == 4 * root) by (nonlinear_arith);
    assert(half.raw == 4 * root);
    let m = 4 * root;
    let sq = m * m / (ONE as int);
    assert(sq == 16 * root * root / (ONE as int) && 0 <= sq <= 16 * ONE) by (nonlinear_arith)
        requires
            m == 4 * root,
            sq == m * m / (ONE as int),
            0 <= root <= ONE,
    ;
    assert(half.s_mul(half) == saturated(sq));
}

/// The magnitude of a coefficient: half a sinc, whose sine and phase are given, under the window.
pub open spec fn scaled_tap(sine: int, phase: int, window: int) -> int {
    HALF * (sine * ONE / phase) / (ONE as int) * window / (ONE as int)
}

/// The coefficients of the even branch alternate in sign.
proof fn lemma_tap(k: int, w: int)
    requires
        is_even_tap(k),
        0 <= w <= ONE,
        window_at(k) == saturated(w),
    ensures
        k % 4 == 1 ==> tap(k).raw == scaled_tap(sin_of(quarters(k)).raw as int, quarters(k), w),
        k % 4 == 3 ==> tap(k).raw == -scaled_tap(-sin_of(quarters(k)).raw, quarters(k), w),
        0 <= scaled_tap(magnitude(sin_of(quarters(k)).raw as int), quarters(k), w) <= ONE,
{
    reveal(tap);
    lemma_half();
    lemma_halves(2 * k);
    lemma_sine_of_quarters(k);
    let half = Fixed::s_dec(5, 1);
    let at = s_halves::<Fixed>(2 * k);
    assert(at.raw == k * ONE);
    let arg = half.s_mul(at);
    assert(HALF * (k * ONE) / (ONE as int) == k * HALF) by (nonlinear_arith);
    assert(arg.raw == k * HALF);
    let turn = Fixed::s_pi().s_mul(arg);
    let phase = quarters(k);
    assert(PI_RAW * (k * HALF) / (ONE as int) == PI_RAW * k / 2) by (nonlinear_arith)
        requires
            1 <= k,
    ;
    assert(turn.raw == phase);
    let sine = sin_of(phase);
    let s = magnitude(sine.raw as int);
    let q = s * ONE / phase;
    assert(0 <= q <= ONE) by (nonlinear_arith)
        requires
            q == s * ONE / phase,
            0 <= s <= SINE_HIGH,
            6746518852 <= phase,
            SINE_HIGH <= 6746518852,
    ;
    let sinc = s_sinc(2 * k, arg);
    assert(magnitude(sinc.raw as int) == q);
    let c = HALF * q / (ONE as int);
    assert(0 <= c <= ONE) by (nonlinear_arith)
        requires
            c == HALF * q / (ONE as int),
            0 <= q <= ONE,
    ;
    assert(magnitude(half.s_mul(sinc).raw as int) == c);
    assert(0 <= c * w / (ONE as int) <= ONE && (c == 0 ==> c * w / (ONE as int) == 0))
        by (nonlinear_arith)
        requires
            0 <= c <= ONE,
            0 <= w <= ONE,
    ;
    if k % 4 == 3 {
        assert(sinc.raw == -q);
        assert(half.s_mul(sinc).raw == -c);
        assert(half.s_mul(sinc).s_mul(window_at(k)).raw == -(c * w / (ONE as int)));
    }
    assert(from_centre(15 - k, 31) == 2 * k);
    assert(tap(k) == windowed_sinc_at(15 - k, 31, half, half, Fixed::s_int(8)));
    assert(tap(k) == half.s_mul(sinc).s_mul(window_at(k)));
}

/// A negative coefficient reaches down no further than `-top`, where the Bessel function is at most
/// `b`.
proof fn lemma_negative_tap(k: int, root: int, h: int, b: int, top: int)
    requires
        is_even_tap(k),
        k % 4 == 3,
        0 <= root <= ONE,
        root * root <= rest_at(k) * ONE,
        rest_at(k) * ONE < (root + 1) * (root + 1),
        0 <= 16 * root * root - h * 0x1_0000_0000 < 0x1_0000_0000,
        bessel_at(h) <= b * ONE,
        0 <= b <= 427,
        0 <= top,
        SINE_HIGH * b * ONE < (top + 1) * (2 * k * HALF_PI_RAW * 427),
    ensures
        -top <= tap(k).raw <= 0,
{
    lemma_window(k, root);
    lemma_bessel_in_the_middle();
    lemma_sine_of_quarters(k);
    assert(h == 16 * root * root / (ONE as int)) by (nonlinear_arith)
        requires
            0 <= 16 * root * root - h * 0x1_0000_0000 < 0x1_0000_0000,
    ;
    let bes = bessel_at(h);
    let mid = bessel_at(16 * ONE);
    let w = bes * ONE / mid;
    assert(0 <= w <= ONE && w * 427 <= b * ONE) by (nonlinear_arith)
        requires
            w == bes * ONE / mid,
            0 < bes <= b * ONE,
            427 * ONE <= mid,
            0 <= b <= 427,
    ;
    lemma_tap(k, w);
    let phase = quarters(k);
    let s = -sin_of(phase).raw;
    let q = s * ONE / phase;
    let c = HALF * q / (ONE as int);
    let size = c * w / (ONE as int);
    assert(k * HALF_PI_RAW <= phase);
    assert(0 <= q && q * phase <= SINE_HIGH * ONE) by (nonlinear_arith)
        requires
            q == s * ONE / phase,
            0 <= s <= SINE_HIGH,
            0 < phase,
    ;
    assert(0 <= c && 2 * c <= q) by (nonlinear_arith)
        requires
            c == HALF * q / (ONE as int),
            0 <= q,
    ;
    assert(0 <= size && size * ONE <= c * w) by (nonlinear_arith)
        requires
            size == c * w / (ONE as int),
            0 <= c,
            0 <= w,
    ;
    assert(2 * c * phase <= SINE_HIGH * ONE) by (nonlinear_arith)
        requires
            2 * c <= q,
            q * phase <= SINE_HIGH * ONE,
            0 < phase,
    ;
    assert((2 * c * phase) * (w * 427) <= (SINE_HIGH * ONE) * (b * ONE)) by (nonlinear_arith)
        requires
            0 <= 2 * c * phase <= SINE_HIGH * ONE,
            0 <= w * 427 <= b * ONE,
    ;
    assert(size * (2 * phase * 427) <= SINE_HIGH * b * ONE) by (nonlinear_arith)
        requires
            size * ONE <= c * w,
            (2 * c * phase) * (w * 427) <= (SINE_HIGH * ONE) * (b * ONE),
            0 < phase,
    ;
    let unit = 2 * k * HALF_PI_RAW * 427;
    assert(size * unit <= size * (2 * phase * 427)) by (nonlinear_arith)
        requires
            0 <= size,
            unit <= 2 * phase * 427,
    ;
    assert(size <= top) by (nonlinear_arith)
        requires
            size * unit < (top + 1) * unit,
            0 < unit,
    ;
}

/// A positive coefficient is at least `low`, where the Bessel function is at least `b`. The bounds
/// of the window, of the sinc and of half of it are given.
proof fn lemma_positive_tap(
    k: int,
    root: int,
    h: int,
    b: int,
    window: int,
    sinc: int,
    half: int,
    low: int,
)
    requires
        is_even_tap(k),
        k % 4 == 1,
        0 <= root <= ONE,
        root * root <= rest_at(k) * ONE,
        rest_at(k) * ONE < (root + 1) * (root + 1),
        0 <= 16 * root * root - h * 0x1_0000_0000 < 0x1_0000_0000,
        b * ONE <= bessel_at(h),
        0 <= window,
        0 <= half,
        window * 428 <= b * ONE,
        sinc * quarters(k) <= SINE_LOW * ONE,
        2 * half <= sinc,
        low * ONE <= half * window,
    ensures
        low <= tap(k).raw <= ONE,
{
    lemma_window(k, root);
    lemma_bessel_in_the_middle();
    lemma_sine_of_quarters(k);
    assert(h == 16 * root * root / (ONE as int)) by (nonlinear_arith)
        requires
            0 <= 16 * root * root - h * 0x1_0000_0000 < 0x1_0000_0000,
    ;
    let bes = bessel_at(h);
    let mid = bessel_at(16 * ONE);
    let w = bes * ONE / mid;
    assert(window <= w <= ONE) by (nonlinear_arith)
        requires
            w == bes * ONE / mid,
            b * ONE <= bes <= mid,
            0 < bes,
            0 < mid <= 428 * ONE,
            window * 428 <= b * ONE,
            0 <= window,
    ;
    lemma_tap(k, w);
    let phase = quarters(k);
    let s = sin_of(phase).raw as int;
    let q = s * ONE / phase;
    let c = HALF * q / (ONE as int);
    let size = c * w / (ONE as int);
    assert(sinc <= q) by (nonlinear_arith)
        requires
            q == s * ONE / phase,
            SINE_LOW <= s,
            sinc * phase <= SINE_LOW * ONE,
            0 < phase,
    ;
    assert(half <= c) by (nonlinear_arith)
        requires
            c == HALF * q / (ONE as int),
            2 * half <= sinc <= q,
    ;
    assert(low <= size) by (nonlinear_arith)
        requires
            size == c * w / (ONE as int),
            low * ONE <= half * window,
            0 <= half <= c,
            0 <= window <= w,
    ;
}

/// What is left of one under the root lies between zero and one, and so does its root.
proof fn lemma_rest(k: int)
    requires
        1 <= k <= 15,
    ensures
        0 <= rest_at(k) <= ONE,
        0 <= isqrt(rest_at(k) * ONE) <= ONE,
{
    let share = k * ONE / 15;
    let sq = share * share / (ONE as int);
    assert(0 <= sq <= ONE) by (nonlinear_arith)
        requires
            0 <= share <= ONE,
            sq == share * share / (ONE as int),
    ;
    let n = rest_at(k) * ONE;
    lemma_isqrt(n);
    let r = isqrt(n);
    assert(r <= ONE) by (nonlinear_arith)
        requires
            0 <= r,
            r * r <= n,
            n <= ONE * ONE,
    ;
}

/// What is left of one under the root, given the share of the window and its square.
proof fn lemma_rest_is(k: int, share: int, square: int)
    requires
        0 <= k * 0x1_0000_0000 - 15 * share < 15,
        0 <= share * share - square * 0x1_0000_0000 < 0x1_0000_0000,
    ensures
        rest_at(k) == ONE - square,
{
    assert(share == k * ONE / 15 && square == share * share / (ONE as int)) by (nonlinear_arith)
        requires
            0 <= k * 0x1_0000_0000 - 15 * share < 15,
            0 <= share * share - square * 0x1_0000_0000 < 0x1_0000_0000,
    ;
}

/// The coefficient next to the centre.
proof fn lemma_tap_1()
    ensures
        1334868824 <= tap(1).raw <= ONE,
{
    lemma_rest_is(1, 286331153, 19088743);
    lemma_bessel_at_1();
    lemma_positive_tap(
        1,
        4285412296,
        68414056847,
        420,
        4214687533,
        2720589797,
        1360294898,
        1334868824,
    );
}

/// The coefficient three samples from the centre.
proof fn lemma_tap_3()
    ensures
        -395779491 <= tap(3).raw <= 0,
{
    lemma_rest_is(3, 858993459, 171798691);
    lemma_bessel_at_3();
    lemma_negative_tap(3, 4208191335, 65970697671, 369, 395779491);
}

/// The coefficient five samples from the centre.
proof fn lemma_tap_5()
    ensures
        176711205 <= tap(5).raw <= ONE,
{
    lemma_rest_is(5, 1431655765, 477218588);
    lemma_bessel_at_5();
    lemma_positive_tap(
        5,
        4049334000,
        61083979321,
        278,
        2789721748,
        544117959,
        272058979,
        176711205,
    );
}

/// The coefficient seven samples from the centre.
proof fn lemma_tap_7()
    ensures
        -83660705 <= tap(7).raw <= 0,
{
    lemma_rest_is(7, 2004318071, 935348432);
    lemma_bessel_at_7();
    lemma_negative_tap(7, 3798612002, 53753901801, 182, 83660705);
}

/// The coefficient eleven samples from the centre.
proof fn lemma_tap_11()
    ensures
        -12285837 <= tap(11).raw <= 0,
{
    lemma_rest_is(11, 3149642683, 2309737966);
    lemma_bessel_at_11();
    lemma_negative_tap(11, 2920016275, 31763669275, 42, 12285837);
}

/// The coefficient at either end.
proof fn lemma_tap_15()
    ensures
        -429029 <= tap(15).raw <= 0,
{
    lemma_rest_is(15, 4294967296, 4294967296);
    lemma_bessel_tail(saturated(0), 1, s_one(), s_one());
    lemma_negative_tap(15, 0, 0, 2, 429029);
}

/// The other positive coefficients are not negative.
proof fn lemma_tap_is_not_negative(k: int)
    requires
        is_even_tap(k),
        k % 4 == 1,
    ensures
        0 <= tap(k).raw <= ONE,
{
    lemma_rest(k);
    lemma_isqrt(rest_at(k) * ONE);
    let root = isqrt(rest_at(k) * ONE);
    lemma_window(k, root);
    let h = 16 * root * root / (ONE as int);
    assert(0 <= 16 * root * root - h * 0x1_0000_0000 < 0x1_0000_0000) by (nonlinear_arith)
        requires
            h == 16 * root * root / (ONE as int),
    ;
    lemma_positive_tap(k, root, h, 0, 0, 0, 0, 0);
}

// ------------------------------- The branch -------------------------------

/// The sum of the first `n` coefficients in units of the last place.
pub open spec fn coefficients_sum(coeffs: Seq<Fixed>, n: int) -> int
    decreases n,
{
    if n <= 0 {
        0
    } else {
        coefficients_sum(coeffs, n - 1) + coeffs[n - 1].raw
    }
}

/// A few coefficients that are fractions add up without saturation.
proof fn lemma_sum_is_exact(coeffs: Seq<Fixed>, n: int)
    requires
        0 <= n <= 16,
        n <= coeffs.len(),
        forall|i: int| 0 <= i < n ==> magnitude((#[trigger] coeffs[i]).raw as int) <= ONE,
    ensures
        sum_of(coeffs, n).raw == coefficients_sum(coeffs, n),
        magnitude(coefficients_sum(coeffs, n)) <= n * ONE,
    decreases n,
{
    if n > 0 {
        lemma_sum_is_exact(coeffs, n - 1);
        assert(magnitude(coeffs[n - 1].raw as int) <= ONE);
    }
}

/// Scaled to unity gain, the coefficients weigh no more than before, over their sum.
proof fn lemma_weight_of_unity_gain(coeffs: Seq<Fixed>, n: int)
    requires
        0 <= n <= coeffs.len(),
        0 < sum_of(coeffs, coeffs.len() as int).raw,
    ensures
        weight(unity_gain(coeffs), n) * sum_of(coeffs, coeffs.len() as int).raw <= weight(
            coeffs,
            n,
        ) * ONE,
    decreases n,
{
    if n > 0 {
        lemma_weight_of_unity_gain(coeffs, n - 1);
        let s = sum_of(coeffs, coeffs.len() as int).raw as int;
        let c = magnitude(coeffs[n - 1].raw as int);
        let q = c * ONE / s;
        assert(0 <= q && q * s <= c * ONE) by (nonlinear_arith)
            requires
                q == c * ONE / s,
                0 <= c,
                0 < s,
        ;
        let m = magnitude(unity_gain(coeffs)[n - 1].raw as int);
        assert(m <= q);
        let w = weight(unity_gain(coeffs), n - 1);
        let v = weight(coeffs, n - 1);
        assert((w + m) * s <= (v + c) * ONE) by (nonlinear_arith)
            requires
                w * s <= v * ONE,
                m <= q,
                q * s <= c * ONE,
                0 < s,
        ;
    }
}

/// The coefficients of the even branch before it is scaled to unity gain.
#[verifier::opaque]
pub open spec fn even_coefficients() -> Seq<Fixed> {
    every_second(halfband_of::<Fixed>(HALFBAND_TAPS as int), 0)
}

/// These are the taps, from the outermost to the innermost and back.
proof fn lemma_even_coefficient(i: int)
    requires
        0 <= i < 16,
    ensures
        even_coefficients().len() == 16,
        even_coefficients()[i] == if i < 8 {
            tap(15 - 2 * i)
        } else {
            tap(2 * i - 15)
        },
{
    reveal(tap);
    reveal(even_coefficients);
    if i >= 8 {
        let half = Fixed::s_dec(5, 1);
        lemma_windowed_sinc_is_symmetric(2 * i, 31, half, half, Fixed::s_int(8));
    }
}

/// The sum and the weight of coefficients that are symmetric about the middle, in terms of one half
/// of them, from the innermost to the outermost.
proof fn lemma_symmetric_sums(e: Seq<Fixed>, t: Seq<int>)
    requires
        e.len() == 16,
        t.len() == 8,
        forall|j: int| 0 <= j < 8 ==> (#[trigger] t[j]) == e[7 - j].raw && t[j] == e[8 + j].raw,
    ensures
        coefficients_sum(e, 16) == 2 * (t[0] + t[1] + t[2] + t[3] + t[4] + t[5] + t[6] + t[7]),
        weight(e, 16) == 2 * (magnitude(t[0]) + magnitude(t[1]) + magnitude(t[2]) + magnitude(t[3])
            + magnitude(t[4]) + magnitude(t[5]) + magnitude(t[6]) + magnitude(t[7])),
{
    reveal_with_fuel(coefficients_sum, 17);
    reveal_with_fuel(weight, 17);
}

/// Coefficients that alternate in sign, with the positive ones three times as heavy as the negative,
/// at most double what they are given once they are scaled to unity gain.
proof fn lemma_alternating_at_most_double(e: Seq<Fixed>, t: Seq<int>)
    requires
        e.len() == 16,
        t.len() == 8,
        forall|j: int| 0 <= j < 8 ==> (#[trigger] t[j]) == e[7 - j].raw && t[j] == e[8 + j].raw,
        1334868824 <= t[0] <= ONE,
        -395779491 <= t[1] <= 0,
        176711205 <= t[2] <= ONE,
        -83660705 <= t[3] <= 0,
        0 <= t[4] <= ONE,
        -12285837 <= t[5] <= 0,
        0 <= t[6] <= ONE,
        -429029 <= t[7] <= 0,
    ensures
        weight(unity_gain(e), 16) <= 2 * ONE,
{
    assert forall|i: int| 0 <= i < 16 implies magnitude((#[trigger] e[i]).raw as int) <= ONE by {
        let j = if i < 8 {
            7 - i
        } else {
            i - 8
        };
        assert(t[j] == e[i].raw);
        assert(j == 0 || j == 1 || j == 2 || j == 3 || j == 4 || j == 5 || j == 6 || j == 7);
    }
    lemma_sum_is_exact(e, 16);
    lemma_symmetric_sums(e, t);
    lemma_weight_of_unity_gain(e, 16);
    let s = sum_of(e, 16).raw as int;
    let w = weight(e, 16);
    let g = weight(unity_gain(e), 16);
    assert(w <= 2 * s);
    assert(g <= 2 * ONE) by (nonlinear_arith)
        requires
            g * s <= w * ONE,
            w <= 2 * s,
            0 < s,
    ;
}

/// The coefficients of the even branch are symmetric about the middle.
proof fn lemma_even_coefficients(t: Seq<int>)
    requires
        t == Seq::new(8, |j: int| tap(2 * j + 1).raw as int),
    ensures
        even_coefficients().len() == 16,
        forall|j: int|
            0 <= j < 8 ==> (#[trigger] t[j]) == even_coefficients()[7 - j].raw && t[j]
                == even_coefficients()[8 + j].raw,
{
    lemma_even_coefficient(0);
    assert forall|j: int| 0 <= j < 8 implies (#[trigger] t[j]) == even_coefficients()[7 - j].raw
        && t[j] == even_coefficients()[8 + j].raw by {
        lemma_even_coefficient(7 - j);
        lemma_even_coefficient(8 + j);
    }
}

/// Scaled to unity gain, the coefficients of the even branch weigh no more than two.
proof fn lemma_even_coefficients_weigh_two()
    ensures
        weight(unity_gain(even_coefficients()), 16) <= 2 * ONE,
{
    let t = Seq::new(8, |j: int| tap(2 * j + 1).raw as int);
    lemma_even_coefficients(t);
    lemma_tap_1();
    lemma_tap_3();
    lemma_tap_5();
    lemma_tap_7();
    lemma_tap_is_not_negative(9);
    lemma_tap_11();
    lemma_tap_is_not_negative(13);
    lemma_tap_15();
    lemma_alternating_at_most_double(even_coefficients(), t);
}

/// In fixed point the even branch of the probe at most doubles what it is given.
pub proof fn lemma_even_branch_at_most_doubles()
    ensures
        even_gain() <= 2 * ONE,
{
    lemma_even_coefficients_weigh_two();
    reveal(even_coefficients);
}

/// An interpolation stage at most doubles what it is given.
pub proof fn lemma_stage_at_most_doubles(bound: int)
    requires
        0 <= bound,
    ensures
        0 <= stage_reach(bound) <= 2 * bound,
{
    lemma_even_branch_at_most_doubles();
    let g = stage_gain();
    assert(0 <= g * bound / (ONE as int) <= 2 * bound) by (nonlinear_arith)
        requires
            0 <= bound,
            ONE <= g <= 2 * ONE,
    ;
}

/// The probe makes no peak of samples that is more than four times as large.
pub proof fn lemma_probe_at_most_quadruples(bound: int)
    requires
        0 <= bound,
    ensures
        probe_reach(bound) <= 4 * bound,
{
    lemma_stage_at_most_doubles(bound);
    lemma_stage_at_most_doubles(stage_reach(bound));
}

} // verus!
