//! The branches of the probe in fixed point.
//!
//! The odd branch of a halfband prototype passes the input samples: every coefficient but the
//! middle one falls on a zero of the sinc. In fixed point those coefficients are exactly zero, so
//! the branch is a delay and nothing else.

use crate::arith::{pushed, s_one, s_zero};
use crate::fixed::{
    folded, isqrt, lemma_isqrt, lemma_sine_of_small, magnitude, reduced, tenths, Fixed, LIMIT, ONE,
    PI_RAW, TAU_RAW,
};
use crate::prcfmt::PrcFmt;
use crate::processors::truepeak::probe::{
    dot, doubled, every_second, halfband_of, line2_after, peak_of, probe_branch, HALFBAND_TAPS,
};
use crate::utils::window::{
    bessel_from, from_centre, s_bessel_i0, s_halves, s_kaiser, s_sinc, sum_of, windowed_sinc_at,
    BESSEL_TERMS,
};
use vstd::arithmetic::div_mod::lemma_fundamental_div_mod_converse;
use vstd::prelude::*;

verus! {

/// The delay of the odd branch, in samples.
pub const ODD_DELAY: usize = 7;

/// One half, in units of the last place.
pub const HALF: i64 = 0x8000_0000;

/// A coefficient of one at `at` and zeros everywhere else.
pub open spec fn impulse(len: nat, at: int) -> Seq<Fixed> {
    Seq::new(
        len,
        |i: int|
            if i == at {
                s_one()
            } else {
                s_zero()
            },
    )
}

/// The power series of the Bessel function does not fall below what it starts from.
pub proof fn lemma_bessel_grows(half_sq: Fixed, k: int, term: Fixed, sum: Fixed)
    requires
        1 <= k,
        0 <= half_sq.raw,
        0 <= term.raw,
        0 <= sum.raw,
    ensures
        sum.raw <= bessel_from(half_sq, k, term, sum).raw,
    decreases BESSEL_TERMS - k,
{
    if k < BESSEL_TERMS {
        let kk = Fixed::s_int(k).s_mul(Fixed::s_int(k));
        let a = magnitude(Fixed::s_int(k).raw as int);
        assert(k * ONE <= LIMIT && Fixed::s_int(k).raw == k * ONE);
        assert(0 < a * a / (ONE as int)) by (nonlinear_arith)
            requires
                a == k * ONE,
                1 <= k,
        ;
        assert(0 < kk.raw);
        let share = half_sq.s_div(kk);
        assert(0 <= half_sq.raw * ONE / (kk.raw as int)) by (nonlinear_arith)
            requires
                0 <= half_sq.raw,
                0 < kk.raw,
        ;
        assert(0 <= share.raw);
        let next = term.s_mul(share);
        assert(0 <= term.raw * share.raw / (ONE as int)) by (nonlinear_arith)
            requires
                0 <= term.raw,
                0 <= share.raw,
        ;
        assert(0 <= next.raw);
        let total = sum.s_add(next);
        assert(sum.raw <= total.raw);
        if !next.s_lt(Fixed::s_dec(1, 18).s_mul(total)) {
            lemma_bessel_grows(half_sq, k + 1, next, total);
        }
    }
}

/// The Bessel function is at least one.
pub proof fn lemma_bessel_is_positive(x: Fixed)
    ensures
        ONE <= s_bessel_i0(x).raw,
{
    let half = x.s_mul(Fixed::s_dec(5, 1));
    let m = magnitude(half.raw as int);
    assert(0 <= m * m / (ONE as int)) by (nonlinear_arith);
    lemma_bessel_grows(half.s_mul(half), 1, s_one(), s_one());
}

/// One half.
pub proof fn lemma_half()
    ensures
        Fixed::s_dec(5, 1).raw == HALF,
{
    reveal_with_fuel(tenths, 2);
}

/// Half samples in units of the last place.
pub proof fn lemma_halves(n: int)
    requires
        0 <= n <= 100,
    ensures
        s_halves::<Fixed>(n).raw == n * HALF,
{
    let a = Fixed::s_int(n);
    let two = Fixed::s_int(2);
    assert(a.raw == n * ONE);
    assert(two.raw == 2 * ONE);
    let m = magnitude(a.raw as int);
    let d = magnitude(two.raw as int);
    assert(m * ONE / d == n * HALF) by (nonlinear_arith)
        requires
            m == n * ONE,
            d == 2 * ONE,
            0 <= n,
    ;
}

/// The sinc vanishes at whole numbers of samples of the lower rate.
proof fn lemma_sinc_vanishes(j: int)
    requires
        1 <= j <= 7,
    ensures
        s_sinc(4 * j, Fixed::s_dec(5, 1).s_mul(s_halves::<Fixed>(4 * j))).raw == 0,
{
    lemma_half();
    let at = s_halves::<Fixed>(4 * j);
    lemma_halves(4 * j);
    assert(at.raw == 2 * j * ONE);
    let arg = Fixed::s_dec(5, 1).s_mul(at);
    assert(HALF * (2 * j * ONE) / (ONE as int) == j * ONE) by (nonlinear_arith)
        requires
            1 <= j <= 7,
    ;
    assert(arg.raw == j * ONE);
    let phase = Fixed::s_pi().s_mul(arg);
    assert(PI_RAW * (j * ONE) / (ONE as int) == PI_RAW * j) by (nonlinear_arith)
        requires
            1 <= j <= 7,
    ;
    assert(phase.raw == PI_RAW * j);
    let turns = j / 2;
    lemma_fundamental_div_mod_converse(
        PI_RAW * j,
        TAU_RAW as int,
        turns,
        PI_RAW * j - turns * TAU_RAW,
    );
    assert(magnitude(folded(reduced(phase.raw as int))) <= 4);
    lemma_sine_of_small(phase.raw as int);
    let x = phase.s_sin();
    assert(magnitude(x.raw as int) <= 4 && (j == 1 ==> x.raw == 0));
    let m = magnitude(x.raw as int);
    assert(m * ONE / (PI_RAW * j) == 0) by (nonlinear_arith)
        requires
            0 <= m <= 4,
            j == 1 ==> m == 0,
            1 <= j <= 7,
    ;
    assert(x.s_div(phase).raw == 0);
}

/// The coefficients of the prototype at odd positions: one half in the middle, zero elsewhere.
proof fn lemma_odd_coefficient(i: int)
    requires
        0 <= i < 15,
    ensures
        halfband_of::<Fixed>(HALFBAND_TAPS as int)[2 * i + 1].raw == if i == 7 {
            HALF
        } else {
            0
        },
{
    lemma_half();
    let n = 2 * i + 1;
    let half = Fixed::s_dec(5, 1);
    let distance = from_centre(n, 31);
    let at = s_halves::<Fixed>(distance);
    let sinc = s_sinc(distance, half.s_mul(at));
    let win = s_kaiser(at, s_halves(30), Fixed::s_int(8));
    let w = magnitude(win.raw as int);
    if i == 7 {
        assert(distance == 0);
        lemma_halves(0);
        lemma_halves(30);
        let reach = s_halves::<Fixed>(30);
        assert(reach.raw == 15 * ONE);
        let share = at.s_div(reach);
        let d = magnitude(reach.raw as int);
        assert(0 * ONE / d == 0) by (nonlinear_arith)
            requires
                d > 0,
        ;
        assert(share.raw == 0);
        assert(share.s_mul(share).raw == 0) by {
            assert(0int * 0 / (ONE as int) == 0);
        }
        let rest = s_one::<Fixed>().s_sub(share.s_mul(share)).s_max(s_zero());
        assert(rest.raw == ONE);
        lemma_isqrt(ONE * ONE);
        let root = isqrt(ONE * ONE);
        assert(root == ONE) by (nonlinear_arith)
            requires
                0 <= root,
                root * root <= ONE * ONE,
                ONE * ONE < (root + 1) * (root + 1),
        ;
        assert(rest.s_sqrt().raw == ONE);
        let beta = Fixed::s_int(8);
        assert(beta.raw == 8 * ONE);
        let root_of = rest.s_sqrt();
        assert(root_of.raw == ONE);
        let p = magnitude(beta.raw as int);
        let q = magnitude(root_of.raw as int);
        assert(p * q / (ONE as int) == 8 * ONE) by (nonlinear_arith)
            requires
                p == 8 * ONE,
                q == ONE,
        ;
        assert(beta.s_mul(root_of).raw == beta.raw);
        lemma_bessel_is_positive(beta);
        let b = s_bessel_i0(beta);
        assert(b.raw * ONE / (b.raw as int) == ONE) by (nonlinear_arith)
            requires
                ONE <= b.raw,
        ;
        assert(win.raw == ONE);
        assert(half.s_mul(sinc).raw == HALF);
        assert(half.s_mul(sinc).s_mul(win).raw == HALF);
    } else {
        let j = if i < 7 {
            7 - i
        } else {
            i - 7
        };
        assert(distance == 4 * j);
        lemma_sinc_vanishes(j);
        let h = magnitude(half.raw as int);
        assert(h * 0 == 0) by (nonlinear_arith);
        assert(half.s_mul(sinc).raw == 0);
        assert(0 * w == 0) by (nonlinear_arith);
        assert(half.s_mul(sinc).s_mul(win).raw == 0);
    }
    assert(halfband_of::<Fixed>(31)[n] == windowed_sinc_at(n, 31, half, half, Fixed::s_int(8)));
}

/// The sum of the first coefficients at odd positions.
proof fn lemma_odd_sum(n: int)
    requires
        0 <= n <= 16,
    ensures
        sum_of(every_second(halfband_of::<Fixed>(HALFBAND_TAPS as int), 1), n).raw == if n <= 7 {
            0
        } else {
            HALF
        },
    decreases n,
{
    if n > 0 {
        lemma_odd_sum(n - 1);
        if n - 1 < 15 {
            lemma_odd_coefficient(n - 1);
        }
    }
}

/// In fixed point the odd branch of the probe is an impulse: it passes the samples.
pub proof fn lemma_odd_branch_is_an_impulse()
    ensures
        probe_branch::<Fixed>(1) == impulse(16, ODD_DELAY as int),
{
    let h = every_second(halfband_of::<Fixed>(HALFBAND_TAPS as int), 1);
    assert(h.len() == 16);
    lemma_odd_sum(16);
    let b = probe_branch::<Fixed>(1);
    assert forall|i: int| 0 <= i < 16 implies #[trigger] b[i] == impulse(
        16,
        ODD_DELAY as int,
    )[i] by {
        if i < 15 {
            lemma_odd_coefficient(i);
        }
        assert(0int * ONE / (HALF as int) == 0);
        assert(HALF * ONE / (HALF as int) == ONE);
    }
    assert(b =~= impulse(16, ODD_DELAY as int));
}

/// Whether `v` lies within a positive and a negative bound.
pub open spec fn within(v: Fixed, bound: int) -> bool {
    magnitude(v.raw as int) <= bound
}

/// Whether every sample of `line` lies within the bound.
pub open spec fn all_within(line: Seq<Fixed>, bound: int) -> bool {
    forall|k: int| 0 <= k < line.len() ==> within(#[trigger] line[k], bound)
}

/// Whether no sample of a line lies below the lower limit.
pub open spec fn in_range(line: Seq<Fixed>) -> bool {
    forall|k: int| 0 <= k < line.len() ==> -LIMIT <= (#[trigger] line[k]).raw
}

/// The inner product with an impulse picks one sample.
proof fn lemma_dot_picks(line: Seq<Fixed>, n: int)
    requires
        0 <= n <= 16,
        line.len() == 16,
        in_range(line),
    ensures
        dot(impulse(16, ODD_DELAY as int), line, n) == if n <= ODD_DELAY {
            s_zero()
        } else {
            line[ODD_DELAY as int]
        },
    decreases n,
{
    if n > 0 {
        lemma_dot_picks(line, n - 1);
        let c = impulse(16, ODD_DELAY as int)[n - 1];
        let v = line[n - 1];
        let m = magnitude(v.raw as int);
        assert(-LIMIT <= v.raw);
        assert(ONE * m / (ONE as int) == m);
        assert(0 * m == 0) by (nonlinear_arith);
        if n - 1 == ODD_DELAY {
            assert(c.s_mul(v) == v);
        } else {
            assert(c.s_mul(v).raw == 0);
        }
        assert(-LIMIT <= line[ODD_DELAY as int].raw);
    }
}

/// The odd phase of an interpolation stage is the input, delayed.
pub proof fn lemma_odd_phase_passes(line: Seq<Fixed>)
    requires
        line.len() == 16,
        in_range(line),
    ensures
        doubled(line).1 == line[ODD_DELAY as int],
{
    lemma_odd_branch_is_an_impulse();
    lemma_dot_picks(line, 16);
}

/// What an interpolation stage gives is in range.
pub proof fn lemma_doubled_in_range(line: Seq<Fixed>)
    ensures
        -LIMIT <= doubled(line).0.raw,
        -LIMIT <= doubled(line).1.raw,
{
}

/// The peak is at least the magnitude of each of the four upsampled samples.
pub proof fn lemma_peak_of_covers(line1: Seq<Fixed>, line2: Seq<Fixed>)
    ensures
        ({
            let first = doubled(pushed(line2, doubled(line1).0));
            let second = doubled(line2_after(line1, line2));
            let peak = peak_of(line1, line2).raw;
            &&& 0 <= peak
            &&& magnitude(first.0.raw as int) <= peak
            &&& magnitude(first.1.raw as int) <= peak
            &&& magnitude(second.0.raw as int) <= peak
            &&& magnitude(second.1.raw as int) <= peak
        }),
{
    let first = doubled(pushed(line2, doubled(line1).0));
    let second = doubled(line2_after(line1, line2));
    lemma_doubled_in_range(pushed(line2, doubled(line1).0));
    lemma_doubled_in_range(line2_after(line1, line2));
}

// ------------------------------- Bounds -------------------------------

/// The weights of the first `n` coefficients: their magnitudes added up.
pub open spec fn weight(coeffs: Seq<Fixed>, n: int) -> int
    decreases n,
{
    if n <= 0 {
        0
    } else {
        weight(coeffs, n - 1) + magnitude(coeffs[n - 1].raw as int)
    }
}

/// Magnitudes add up to no less than zero.
pub proof fn lemma_weight_is_not_negative(coeffs: Seq<Fixed>, n: int)
    ensures
        0 <= weight(coeffs, n),
    decreases n,
{
    if n > 0 {
        lemma_weight_is_not_negative(coeffs, n - 1);
    }
}

/// The largest gain of the even branch, in units of the last place.
pub open spec fn even_gain() -> int {
    weight(probe_branch::<Fixed>(0), 16)
}

/// The largest gain of an interpolation stage. The odd branch has a gain of one.
pub open spec fn stage_gain() -> int {
    if even_gain() < ONE {
        ONE as int
    } else {
        even_gain()
    }
}

/// How large an interpolation stage can make samples within `bound`.
pub open spec fn stage_reach(bound: int) -> int {
    stage_gain() * bound / (ONE as int)
}

/// How large a peak the probe can make of samples within `bound`.
pub open spec fn probe_reach(bound: int) -> int {
    stage_reach(stage_reach(bound))
}

/// An interpolation stage may pass a sample as it is.
pub proof fn lemma_stage_reach_grows(bound: int)
    requires
        0 <= bound,
    ensures
        bound <= stage_reach(bound),
{
    let g = stage_gain();
    assert(bound <= g * bound / (ONE as int)) by (nonlinear_arith)
        requires
            0 <= bound,
            ONE <= g,
    ;
}

/// An inner product is bounded by the weights of the coefficients: rounding toward zero and
/// saturation only make it smaller.
proof fn lemma_dot_bound(coeffs: Seq<Fixed>, line: Seq<Fixed>, n: int, bound: int)
    requires
        0 <= n <= line.len(),
        0 <= bound,
        forall|k: int|
            0 <= k < line.len() ==> magnitude((#[trigger] line[k]).raw as int) <= bound,
    ensures
        magnitude(dot(coeffs, line, n).raw as int) * ONE <= weight(coeffs, n) * bound,
        0 <= weight(coeffs, n),
    decreases n,
{
    if n > 0 {
        lemma_dot_bound(coeffs, line, n - 1, bound);
        let before = dot(coeffs, line, n - 1);
        let c = magnitude(coeffs[n - 1].raw as int);
        let v = magnitude(line[n - 1].raw as int);
        let p = coeffs[n - 1].s_mul(line[n - 1]);
        let w = weight(coeffs, n - 1);
        assert(0 <= c * v / (ONE as int) && (c * v / (ONE as int)) * ONE <= c * bound)
            by (nonlinear_arith)
            requires
                0 <= c,
                0 <= v <= bound,
        ;
        assert(magnitude(p.raw as int) <= c * v / (ONE as int));
        assert(magnitude(dot(coeffs, line, n).raw as int) <= magnitude(before.raw as int)
            + magnitude(p.raw as int));
        assert((w + c) * bound == w * bound + c * bound) by (nonlinear_arith);
    }
}

/// What an interpolation stage gives is bounded.
pub proof fn lemma_stage_bound(line: Seq<Fixed>, bound: int)
    requires
        line.len() == 16,
        in_range(line),
        0 <= bound,
        all_within(line, bound),
    ensures
        magnitude(doubled(line).0.raw as int) <= stage_reach(bound),
        magnitude(doubled(line).1.raw as int) <= bound,
{
    let a = probe_branch::<Fixed>(0);
    assert(a.len() == 16);
    assert forall|k: int| 0 <= k < 16 implies magnitude((#[trigger] line[k]).raw as int)
        <= bound by {
        assert(within(line[k], bound));
    }
    lemma_dot_bound(a, line, 16, bound);
    let m = magnitude(doubled(line).0.raw as int);
    let g = stage_gain();
    assert(even_gain() * bound <= g * bound) by (nonlinear_arith)
        requires
            0 <= bound,
            even_gain() <= g,
    ;
    assert(m <= g * bound / (ONE as int)) by (nonlinear_arith)
        requires
            m * ONE <= g * bound,
    ;
    lemma_odd_phase_passes(line);
    assert(magnitude(line[ODD_DELAY as int].raw as int) <= bound);
}

/// What the probe makes of bounded samples is bounded, in its second line and in the peak.
pub proof fn lemma_probe_bound(line1: Seq<Fixed>, line2: Seq<Fixed>, bound: int)
    requires
        line1.len() == 16,
        line2.len() == 16,
        0 <= bound <= LIMIT,
        all_within(line1, bound),
        all_within(line2, stage_reach(bound)),
        in_range(line2),
    ensures
        all_within(line2_after(line1, line2), stage_reach(bound)),
        in_range(line2_after(line1, line2)),
        0 <= peak_of(line1, line2).raw <= probe_reach(bound),
{
    assert(in_range(line1)) by {
        assert forall|k: int| 0 <= k < line1.len() implies -LIMIT <= (#[trigger] line1[k]).raw by {
            assert(within(line1[k], bound));
        }
    }
    lemma_stage_bound(line1, bound);
    lemma_stage_reach_grows(bound);
    lemma_doubled_in_range(line1);
    let mid = pushed(line2, doubled(line1).0);
    let l2 = line2_after(line1, line2);
    assert forall|k: int| 0 <= k < 16 implies within(#[trigger] mid[k], stage_reach(bound)) by {
        if k > 0 {
            assert(within(line2[k - 1], stage_reach(bound)));
        }
    }
    assert forall|k: int| 0 <= k < 16 implies within(#[trigger] l2[k], stage_reach(bound)) by {
        if k > 0 {
            assert(l2[k] == mid[k - 1]);
        }
    }
    assert forall|k: int| 0 <= k < 16 implies -LIMIT <= (#[trigger] mid[k]).raw by {
        if k > 0 {
            assert(mid[k] == line2[k - 1]);
        }
    }
    assert forall|k: int| 0 <= k < 16 implies -LIMIT <= (#[trigger] l2[k]).raw by {
        if k > 0 {
            assert(l2[k] == mid[k - 1]);
        }
    }
    lemma_stage_bound(mid, stage_reach(bound));
    lemma_stage_bound(l2, stage_reach(bound));
    lemma_stage_reach_grows(stage_reach(bound));
}

} // verus!
