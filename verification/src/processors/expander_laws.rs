//! What the expander promises of its gain where the arithmetic is known: in fixed point, and where
//! it is exact.

use crate::arith::{s_one, s_zero};
use crate::config::{ExpanderMode, ExpanderParameters};
use crate::exact::{
    difference_cancels, integers_add, is_exact, one_is_neutral, products_commute,
    products_distribute, quotient_cancels, zero_is_neutral,
};
use crate::fixed::{magnitude, Fixed, LIMIT, ONE};
use crate::prcfmt::PrcFmt;
use crate::processors::expander::{
    crest_scale, effective_ratio, expander_error, lemma_valid_parameters_name_channels,
    knee_parabola, raw_expansion, soft_knee, Expander,
};
use vstd::prelude::*;

verus! {

/// The scale that the crest factor gives lies between zero and one.
pub proof fn lemma_crest_scale_is_a_fraction(
    gate: bool,
    db: Fixed,
    floor: Fixed,
    ceiling: Fixed,
)
    ensures
        0 <= crest_scale(gate, db, floor, ceiling).raw <= ONE,
{
    if gate && floor.raw < db.raw && db.raw < ceiling.raw {
        let top = ceiling.s_sub(db).raw as int;
        let whole = ceiling.s_sub(floor).raw as int;
        assert(0 < top <= whole);
        let q = top * ONE / whole;
        assert(0 <= q <= ONE) by (nonlinear_arith)
            requires
                0 < top <= whole,
                q == top * ONE / whole,
        ;
        assert(ceiling.s_sub(db).s_div(ceiling.s_sub(floor)).raw == q);
    }
}

/// The ratio in effect lies between one and the ratio that is set: all of it applies at scale one,
/// and at scale zero it collapses to one.
pub proof fn lemma_effective_ratio_bounds(ratio: Fixed, scale: Fixed)
    requires
        ONE <= ratio.raw,
        0 <= scale.raw <= ONE,
    ensures
        ONE <= effective_ratio(ratio, scale).raw <= ratio.raw,
        scale.raw == ONE ==> effective_ratio(ratio, scale) == ratio,
        scale.raw == 0 ==> effective_ratio(ratio, scale) == s_one::<Fixed>(),
{
    let extra = ratio.raw - ONE;
    let part = extra * scale.raw / (ONE as int);
    assert(0 <= part <= extra) by (nonlinear_arith)
        requires
            0 <= extra,
            0 <= scale.raw <= ONE,
            part == extra * scale.raw / (ONE as int),
    ;
    assert(scale.raw == ONE ==> part == extra) by (nonlinear_arith)
        requires
            part == extra * scale.raw / (ONE as int),
    ;
    assert(scale.raw == 0 ==> part == 0) by (nonlinear_arith)
        requires
            part == extra * scale.raw / (ONE as int),
    ;
    assert(ratio.s_sub(s_one()).raw == extra);
    assert(ratio.s_sub(s_one()).s_mul(scale).raw == part);
}

/// An expander built from parameters that pass validation can process every chunk that has its
/// channels.
pub proof fn lemma_valid_parameters_can_run(
    config: ExpanderParameters<Fixed>,
    exp: Expander<Fixed>,
    waves: Seq<Vec<Fixed>>,
)
    requires
        expander_error(config) is None,
        exp.follows(config),
        0 < config.channels <= waves.len(),
    ensures
        exp.monitor_channels@.len() > 0,
        forall|k: int|
            0 <= k < exp.monitor_channels@.len() ==> (#[trigger] exp.monitor_channels@[k])
                < waves.len(),
        forall|k: int|
            0 <= k < exp.process_channels@.len() ==> (#[trigger] exp.process_channels@[k])
                < waves.len(),
        exp.max_gain.s_neg().s_le(exp.max_gain),
{
    lemma_valid_parameters_name_channels(config, exp);
}

/// The gain law expands in one direction only.
pub proof fn lemma_knee_is_not_negative(over: Fixed, ratio: Fixed, half_knee: Fixed)
    requires
        ONE <= ratio.raw,
    ensures
        0 <= soft_knee(over, ratio, half_knee).raw,
{
    let slope = ratio.s_sub(s_one());
    assert(slope.raw == ratio.raw - ONE);
    if half_knee.raw <= 0 || half_knee.raw <= over.raw {
        lemma_product_is_not_negative(over.s_max(s_zero()), slope);
    } else if -half_knee.raw < over.raw {
        let t = over.s_add(half_knee);
        assert(0 < t.raw);
        lemma_product_is_not_negative(slope, t);
        lemma_product_is_not_negative(slope.s_mul(t), t);
        lemma_product_is_not_negative(Fixed::s_int(4), half_knee);
        lemma_quotient_is_not_negative(
            slope.s_mul(t).s_mul(t),
            Fixed::s_int(4).s_mul(half_knee),
        );
    }
}

proof fn lemma_product_is_not_negative(a: Fixed, b: Fixed)
    requires
        0 <= a.raw,
        0 <= b.raw,
    ensures
        0 <= a.s_mul(b).raw,
{
    assert(0 <= a.raw * b.raw / (ONE as int)) by (nonlinear_arith)
        requires
            0 <= a.raw,
            0 <= b.raw,
    ;
}

proof fn lemma_quotient_is_not_negative(a: Fixed, b: Fixed)
    requires
        0 <= a.raw,
        0 <= b.raw,
    ensures
        0 <= a.s_div(b).raw,
{
    if b.raw > 0 {
        assert(0 <= a.raw * ONE / (b.raw as int)) by (nonlinear_arith)
            requires
                0 <= a.raw,
                0 < b.raw,
        ;
    }
}

/// An upward expander never attenuates and a downward expander never boosts, wherever the level
/// stands and whatever the crest factor does to the ratio.
pub proof fn lemma_expansion_has_one_direction(exp: Expander<Fixed>, over: Fixed, scale: Fixed)
    requires
        ONE <= exp.ratio.raw,
        0 <= exp.max_gain.raw,
        0 <= scale.raw <= ONE,
    ensures
        exp.mode == ExpanderMode::Upward ==> 0 <= exp.applied(over, scale).raw <= exp.max_gain.raw,
        exp.mode == ExpanderMode::Downward ==> -exp.max_gain.raw <= exp.applied(over, scale).raw
            <= 0,
{
    let ratio = effective_ratio(exp.ratio, scale);
    lemma_effective_ratio_bounds(exp.ratio, scale);
    lemma_knee_is_not_negative(over, ratio, exp.half_knee);
    lemma_knee_is_not_negative(over.s_neg(), ratio, exp.half_knee);
    let raw = raw_expansion(exp.mode, over, ratio, exp.half_knee);
    assert(exp.mode == ExpanderMode::Upward ==> 0 <= raw.raw);
    assert(exp.mode == ExpanderMode::Downward ==> raw.raw <= 0);
}

/// Material that is already dynamic is left alone: where the crest factor reaches the ceiling, no
/// expansion is applied in any mode.
pub proof fn lemma_dynamic_program_is_left_alone(exp: Expander<Fixed>, over: Fixed)
    requires
        ONE <= exp.ratio.raw,
        0 <= exp.max_gain.raw,
    ensures
        exp.applied(over, s_zero()) == s_zero::<Fixed>(),
{
    lemma_effective_ratio_bounds(exp.ratio, s_zero());
    let one = s_one::<Fixed>();
    let flat = one.s_sub(one);
    assert(flat.raw == 0);
    assert(soft_knee(over, one, exp.half_knee).raw == 0) by {
        lemma_flat_knee(over, exp.half_knee);
    }
    assert(soft_knee(over.s_neg(), one, exp.half_knee).raw == 0) by {
        lemma_flat_knee(over.s_neg(), exp.half_knee);
    }
    assert(over.s_mul(flat).raw == 0) by {
        lemma_product_with_zero(over, flat);
    }
    assert(raw_expansion(exp.mode, over, one, exp.half_knee).raw == 0);
}

proof fn lemma_product_with_zero(a: Fixed, z: Fixed)
    requires
        z.raw == 0,
    ensures
        a.s_mul(z).raw == 0,
        z.s_mul(a).raw == 0,
{
    let m = magnitude(a.raw as int);
    assert(m * 0 == 0 && 0 * m == 0) by (nonlinear_arith);
}

proof fn lemma_flat_knee(over: Fixed, half_knee: Fixed)
    ensures
        soft_knee(over, s_one(), half_knee).raw == 0,
{
    let one = s_one::<Fixed>();
    let flat = one.s_sub(one);
    let t = over.s_add(half_knee);
    lemma_product_with_zero(over.s_max(s_zero()), flat);
    lemma_product_with_zero(t, flat);
    lemma_product_with_zero(t, flat.s_mul(t));
    if half_knee.raw > 0 {
        let d = Fixed::s_int(4).s_mul(half_knee);
        assert(d.raw > 0) by {
            assert(4 * ONE * half_knee.raw / (ONE as int) == 4 * half_knee.raw);
        }
    }
}

// ------------------------------- The shape of the knee, in fixed point -------------------------

/// The gain law without rounding, in units of the last place times `4 * half_knee * ONE`: zero
/// below the knee, `slope * t^2` inside it (where `t` counts from its lower edge), and
/// `4 * half_knee * slope * over` above it.
pub open spec fn ideal_knee(over: int, slope: int, half: int) -> int {
    if half <= over {
        4 * half * (slope * over)
    } else if over <= -half {
        0
    } else {
        slope * (over + half) * (over + half)
    }
}

/// How far rounding can take the gain law below its ideal, in units of the last place.
pub open spec fn knee_rounding(half: int) -> int {
    ONE as int / (4 * half) + 3
}

/// Whether the gain law stays inside the range of the format up to the level `over`.
pub open spec fn knee_fits(over: Fixed, ratio: Fixed, half_knee: Fixed) -> bool {
    let slope = ratio.raw - ONE;
    let half = half_knee.raw as int;
    &&& ONE <= ratio.raw
    &&& 0 < half
    &&& 4 * half <= LIMIT
    &&& 4 * (slope * half) * half <= LIMIT * ONE * ONE
    &&& slope * (2 * half) <= LIMIT * ONE
    &&& over.raw * slope <= LIMIT * ONE
}

/// The parabola in integers.
proof fn lemma_parabola(over: Fixed, ratio: Fixed, half_knee: Fixed)
    requires
        knee_fits(over, ratio, half_knee),
        -half_knee.raw < over.raw < half_knee.raw,
    ensures
        ({
            let half = half_knee.raw as int;
            let scale = 4 * half * ONE;
            let p = knee_parabola(over, ratio, half_knee).raw as int;
            let ideal = (ratio.raw - ONE) * (over.raw + half) * (over.raw + half);
            &&& 0 <= p
            &&& p * scale <= ideal
            &&& ideal < p * scale + ONE * (over.raw + half) + ONE * ONE + scale
        }),
{
    let s = ratio.raw - ONE;
    let half = half_knee.raw as int;
    let t = over.raw + half;
    let q = 4 * half;
    assert(0 < t < 2 * half);
    let slope = ratio.s_sub(s_one());
    let tf = over.s_add(half_knee);
    let four = Fixed::s_int(4).s_mul(half_knee);
    assert(slope.raw == s && tf.raw == t);
    assert(4 * ONE * half / (ONE as int) == q);
    assert(four.raw == q);
    let a = s * t / (ONE as int);
    assert(0 <= a && a * ONE <= s * t < a * ONE + ONE && a <= LIMIT) by (nonlinear_arith)
        requires
            a == s * t / (ONE as int),
            0 <= s,
            0 < t < 2 * half,
            s * (2 * half) <= LIMIT * ONE,
    ;
    assert(slope.s_mul(tf).raw == a);
    let b = a * t / (ONE as int);
    assert(s * t * t <= 4 * (s * half) * half) by (nonlinear_arith)
        requires
            0 <= s,
            0 < t < 2 * half,
    ;
    assert(0 <= b && b * ONE <= a * t < b * ONE + ONE) by (nonlinear_arith)
        requires
            b == a * t / (ONE as int),
            0 <= a,
            0 < t,
    ;
    assert(a * t * ONE <= s * t * t && s * t * t < a * t * ONE + ONE * t) by (nonlinear_arith)
        requires
            a * ONE <= s * t < a * ONE + ONE,
            0 < t,
    ;
    assert(b * ONE * ONE <= a * t * ONE && a * t * ONE < b * ONE * ONE + ONE * ONE)
        by (nonlinear_arith)
        requires
            b * ONE <= a * t < b * ONE + ONE,
    ;
    assert(b <= LIMIT) by (nonlinear_arith)
        requires
            b * ONE * ONE <= LIMIT * ONE * ONE,
    ;
    assert(slope.s_mul(tf).s_mul(tf).raw == b);
    let p = b * ONE / q;
    assert(0 <= p && p * q <= b * ONE < p * q + q) by (nonlinear_arith)
        requires
            p == b * ONE / q,
            0 <= b,
            0 < q,
    ;
    assert(p * (q * ONE) <= b * ONE * ONE && b * ONE * ONE < p * (q * ONE) + q * ONE)
        by (nonlinear_arith)
        requires
            p * q <= b * ONE < p * q + q,
    ;
    assert(p <= LIMIT) by (nonlinear_arith)
        requires
            p * (q * ONE) <= s * t * t,
            s * t * t <= 4 * (s * half) * half,
            q == 4 * half,
            0 < half,
            s * (2 * half) <= LIMIT * ONE,
            0 <= s,
    ;
    assert(four.raw > 0);
    assert(magnitude(b) * ONE / magnitude(q) == p);
    assert(knee_parabola(over, ratio, half_knee).raw == p);
}

/// The gain law is its ideal, rounded down by at most `knee_rounding`.
pub proof fn lemma_knee_is_rounded(over: Fixed, ratio: Fixed, half_knee: Fixed)
    requires
        knee_fits(over, ratio, half_knee),
    ensures
        ({
            let half = half_knee.raw as int;
            let scale = 4 * half * ONE;
            let r = soft_knee(over, ratio, half_knee).raw as int;
            let ideal = ideal_knee(over.raw as int, ratio.raw - ONE, half);
            r * scale <= ideal <= (r + knee_rounding(half)) * scale
        }),
{
    let s = ratio.raw - ONE;
    let half = half_knee.raw as int;
    let scale = 4 * half * ONE;
    let k = knee_rounding(half);
    let r = soft_knee(over, ratio, half_knee).raw as int;
    let x = over.raw as int;
    assert(half_knee.s_neg().raw == -half);
    assert(3 <= k && ONE * ONE <= (k - 2) * scale) by (nonlinear_arith)
        requires
            k == ONE as int / (4 * half) + 3,
            scale == 4 * half * ONE,
            0 < half,
    ;
    assert((r + k) * scale == r * scale + 2 * scale + (k - 2) * scale) by (nonlinear_arith);
    if half <= x {
        assert(ratio.s_sub(s_one()).raw == s);
        let a = x * s / (ONE as int);
        assert(0 <= a && a * ONE <= s * x < a * ONE + ONE && a <= LIMIT) by (nonlinear_arith)
            requires
                a == x * s / (ONE as int),
                0 <= s,
                0 < x,
                x * s <= LIMIT * ONE,
        ;
        assert(r == a);
        assert(r * scale <= 4 * half * (s * x) < r * scale + scale) by (nonlinear_arith)
            requires
                r * ONE <= s * x < r * ONE + ONE,
                scale == 4 * half * ONE,
                0 < half,
        ;
    } else if x <= -half {
        assert(r == 0);
        assert(0 * scale == 0) by (nonlinear_arith);
    } else {
        lemma_parabola(over, ratio, half_knee);
        let t = x + half;
        assert(ONE * t <= scale);
    }
}

/// The ideal gain law rises, and no faster than the slope.
proof fn lemma_ideal_knee_rises(x: int, y: int, s: int, half: int)
    requires
        0 <= s,
        0 < half,
        x <= y,
    ensures
        0 <= ideal_knee(y, s, half) - ideal_knee(x, s, half) <= 4 * half * (s * (y - x)),
{
    let t = x + half;
    let u = y + half;
    if half <= x {
        assert(4 * half * (s * y) - 4 * half * (s * x) == 4 * half * (s * (y - x)) && 0 <= 4 * half
            * (s * (y - x))) by (nonlinear_arith)
            requires
                0 <= s,
                0 < half,
                x <= y,
        ;
    } else if y <= -half {
        assert(0 <= 4 * half * (s * (y - x))) by (nonlinear_arith)
            requires
                0 <= s,
                0 < half,
                x <= y,
        ;
    } else if half <= y && x <= -half {
        assert(0 <= 4 * half * (s * y) <= 4 * half * (s * (y - x))) by (nonlinear_arith)
            requires
                0 <= s,
                0 < half <= y,
                x <= -half,
        ;
    } else if half <= y {
        lemma_above_tangent(x, half);
        assert(0 <= 4 * half * (s * y) - s * t * t <= 4 * half * (s * (y - x))) by (nonlinear_arith)
            requires
                0 <= s,
                0 < t < 2 * half,
                half <= y,
                4 * half * x <= t * t,
                t * t <= 4 * half * half,
        ;
    } else if x <= -half {
        assert(0 <= s * u * u <= 4 * half * (s * (y - x))) by (nonlinear_arith)
            requires
                0 <= s,
                0 < u < 2 * half,
                u <= y - x,
        ;
    } else {
        assert(0 <= s * u * u - s * t * t <= 4 * half * (s * (y - x))) by (nonlinear_arith)
            requires
                0 <= s,
                0 < t <= u < 2 * half,
                y - x == u - t,
        ;
    }
}

/// The parabola lies above the line, and ends where the line takes over.
proof fn lemma_above_tangent(x: int, half: int)
    requires
        -half < x < half,
    ensures
        4 * half * x <= (x + half) * (x + half) <= 4 * half * half,
{
    let t = x + half;
    assert(t * t - 4 * half * x == (x - half) * (x - half)) by (nonlinear_arith)
        requires
            t == x + half,
    ;
    assert(0 <= (x - half) * (x - half)) by (nonlinear_arith);
    assert(t * t <= 4 * half * half) by (nonlinear_arith)
        requires
            0 < t < 2 * half,
    ;
}

/// The gain law never falls as the level rises, and rises no faster than the full slope, but for
/// rounding.
pub proof fn lemma_knee_rises_within_the_slope(
    low: Fixed,
    high: Fixed,
    ratio: Fixed,
    half_knee: Fixed,
)
    requires
        knee_fits(high, ratio, half_knee),
        low.raw <= high.raw,
    ensures
        ({
            let a = soft_knee(low, ratio, half_knee).raw as int;
            let b = soft_knee(high, ratio, half_knee).raw as int;
            let k = knee_rounding(half_knee.raw as int);
            &&& a <= b
            &&& (b - a - k) * ONE <= (ratio.raw - ONE) * (high.raw - low.raw)
        }),
{
    let s = ratio.raw - ONE;
    let half = half_knee.raw as int;
    let scale = 4 * half * ONE;
    assert(low.raw * s <= LIMIT * ONE) by (nonlinear_arith)
        requires
            0 <= s,
            low.raw <= high.raw,
            high.raw * s <= LIMIT * ONE,
    ;
    lemma_knee_is_rounded(low, ratio, half_knee);
    lemma_knee_is_rounded(high, ratio, half_knee);
    lemma_ideal_knee_rises(low.raw as int, high.raw as int, s, half);
    let a = soft_knee(low, ratio, half_knee).raw as int;
    let b = soft_knee(high, ratio, half_knee).raw as int;
    let k = knee_rounding(half);
    let d = s * (high.raw - low.raw);
    assert((b - a - k) * ONE <= d) by (nonlinear_arith)
        requires
            b * scale <= (a + k) * scale + 4 * half * d,
            scale == 4 * half * ONE,
            0 < half,
    ;
    lemma_knee_never_falls(low, high, ratio, half_knee);
}

/// The gain law never falls as the level rises.
proof fn lemma_knee_never_falls(low: Fixed, high: Fixed, ratio: Fixed, half_knee: Fixed)
    requires
        knee_fits(high, ratio, half_knee),
        knee_fits(low, ratio, half_knee),
        low.raw <= high.raw,
    ensures
        soft_knee(low, ratio, half_knee).raw <= soft_knee(high, ratio, half_knee).raw,
{
    let s = ratio.raw - ONE;
    let half = half_knee.raw as int;
    let x = low.raw as int;
    let y = high.raw as int;
    let slope = ratio.s_sub(s_one());
    assert(slope.raw == s);
    assert(half_knee.s_neg().raw == -half);
    if half <= x {
        assert(x * s / (ONE as int) <= y * s / (ONE as int)) by (nonlinear_arith)
            requires
                0 <= s,
                x <= y,
        ;
        assert(0 <= x * s / (ONE as int)) by (nonlinear_arith)
            requires
                0 <= s,
                0 <= x,
        ;
    } else if x <= -half {
        lemma_knee_is_not_negative(high, ratio, half_knee);
    } else if half <= y {
        // The parabola, rounded down, stays below the line, rounded down.
        lemma_parabola(low, ratio, half_knee);
        lemma_above_tangent(x, half);
        let p = soft_knee(low, ratio, half_knee).raw as int;
        let t = x + half;
        let line = y * s / (ONE as int);
        assert(s * t * t <= s * (4 * half * half)) by (nonlinear_arith)
            requires
                0 <= s,
                t * t <= 4 * half * half,
        ;
        assert(p * ONE <= s * y) by (nonlinear_arith)
            requires
                p * (4 * half * ONE) <= s * (4 * half * half),
                0 < half <= y,
                0 <= s,
        ;
        assert(p <= line) by (nonlinear_arith)
            requires
                p * ONE <= s * y,
                line == y * s / (ONE as int),
        ;
        assert(line <= LIMIT) by (nonlinear_arith)
            requires
                y * s <= LIMIT * ONE,
                line == y * s / (ONE as int),
        ;
        assert(soft_knee(high, ratio, half_knee).raw == line);
    } else {
        let t = low.s_add(half_knee);
        let u = high.s_add(half_knee);
        assert(0 < t.raw <= u.raw);
        lemma_product_rises(slope, t, u);
        lemma_products_rise(slope.s_mul(t), slope.s_mul(u), t, u);
        let q = Fixed::s_int(4).s_mul(half_knee);
        assert(4 * ONE * half / (ONE as int) == 4 * half);
        assert(q.raw == 4 * half);
        lemma_product_is_not_negative(slope, t);
        lemma_product_is_not_negative(slope.s_mul(t), t);
        let a = slope.s_mul(t).s_mul(t).raw as int;
        let b = slope.s_mul(u).s_mul(u).raw as int;
        assert(0 <= a * ONE / (q.raw as int) <= b * ONE / (q.raw as int)) by (nonlinear_arith)
            requires
                0 <= a <= b,
                0 < q.raw,
        ;
    }
}

proof fn lemma_product_rises(s: Fixed, t: Fixed, u: Fixed)
    requires
        0 <= s.raw,
        0 <= t.raw <= u.raw,
    ensures
        0 <= s.s_mul(t).raw <= s.s_mul(u).raw,
{
    assert(0 <= s.raw * t.raw / (ONE as int) <= s.raw * u.raw / (ONE as int)) by (nonlinear_arith)
        requires
            0 <= s.raw,
            0 <= t.raw <= u.raw,
    ;
}

proof fn lemma_products_rise(a: Fixed, b: Fixed, t: Fixed, u: Fixed)
    requires
        0 <= a.raw <= b.raw,
        0 <= t.raw <= u.raw,
    ensures
        a.s_mul(t).raw <= b.s_mul(u).raw,
{
    assert(0 <= a.raw * t.raw / (ONE as int) <= b.raw * u.raw / (ONE as int)) by (nonlinear_arith)
        requires
            0 <= a.raw <= b.raw,
            0 <= t.raw <= u.raw,
    ;
}

/// The soft knee never gives less than the hard knee, but for rounding.
pub proof fn lemma_soft_knee_is_above_the_hard(over: Fixed, ratio: Fixed, half_knee: Fixed)
    requires
        knee_fits(over, ratio, half_knee),
    ensures
        soft_knee(over, ratio, s_zero()).raw <= soft_knee(over, ratio, half_knee).raw
            + knee_rounding(half_knee.raw as int),
{
    let s = ratio.raw - ONE;
    let half = half_knee.raw as int;
    let scale = 4 * half * ONE;
    let k = knee_rounding(half);
    let x = over.raw as int;
    let r = soft_knee(over, ratio, half_knee).raw as int;
    let hard = soft_knee(over, ratio, s_zero()).raw as int;
    lemma_knee_is_rounded(over, ratio, half_knee);
    assert(0 <= ONE as int / (4 * half)) by (nonlinear_arith)
        requires
            0 < half,
    ;
    assert(ratio.s_sub(s_one()).raw == s);
    if x <= 0 {
        lemma_knee_is_not_negative(over, ratio, half_knee);
        lemma_product_with_zero(ratio.s_sub(s_one()), s_zero());
        assert(hard == 0);
    } else {
        let a = x * s / (ONE as int);
        assert(0 <= a && a * ONE <= s * x && a <= LIMIT) by (nonlinear_arith)
            requires
                a == x * s / (ONE as int),
                0 <= s,
                0 < x,
                x * s <= LIMIT * ONE,
        ;
        assert(hard == a);
        if x < half {
            lemma_above_tangent(x, half);
            let t = x + half;
            assert(4 * half * (s * x) <= s * t * t) by (nonlinear_arith)
                requires
                    0 <= s,
                    4 * half * x <= t * t,
            ;
        }
        assert(hard <= r + k) by (nonlinear_arith)
            requires
                hard * ONE <= s * x,
                4 * half * (s * x) <= (r + k) * scale,
                scale == 4 * half * ONE,
                0 < half,
        ;
    }
}

// ------------------------------- The knee where arithmetic is exact ---------------------------

/// The knee is continuous: where arithmetic is exact, the parabola meets the full slope at the
/// upper edge of the knee and zero at its lower edge.
pub proof fn lemma_knee_meets_its_edges<T: PrcFmt>(ratio: T, half_knee: T)
    requires
        is_exact::<T>(),
        T::s_int(4).s_mul(half_knee) != s_zero::<T>(),
    ensures
        knee_parabola(half_knee, ratio, half_knee) == half_knee.s_mul(ratio.s_sub(s_one())),
        knee_parabola(half_knee.s_neg(), ratio, half_knee) == s_zero::<T>(),
{
    let zero = s_zero::<T>();
    let one = s_one::<T>();
    let h = half_knee;
    let slope = ratio.s_sub(one);
    let t = h.s_add(h);
    let q = T::s_int(4).s_mul(h);
    // Four halves of the knee are twice its width.
    assert(h.s_mul(T::s_int(2)) == t) by {
        assert(integers_add::<T>(1, 1));
        assert(products_distribute(h, one, one));
        assert(products_commute(h, one));
        assert(one_is_neutral(h));
    }
    assert(q == t.s_add(t)) by {
        assert(integers_add::<T>(2, 2));
        assert(products_commute(T::s_int(4), h));
        assert(products_distribute(h, T::s_int(2), T::s_int(2)));
    }
    assert(t.s_mul(t) == h.s_mul(q)) by {
        assert(products_distribute(t, h, h));
        assert(products_distribute(h, t, t));
        assert(products_commute(h, t));
    }
    assert(slope.s_mul(t).s_mul(t) == slope.s_mul(h).s_mul(q)) by {
        assert(products_distribute(slope, t, t));
        assert(products_distribute(slope, h, q));
    }
    assert(quotient_cancels(slope.s_mul(h), q));
    assert(products_commute(slope, h));
    // At the lower edge nothing is left.
    assert(h.s_neg().s_add(h) == zero) by {
        assert(difference_cancels(h, h));
    }
    assert(slope.s_mul(zero) == zero) by {
        assert(products_commute(slope, zero));
        assert(zero_is_neutral(slope));
    }
    assert(zero_is_neutral(zero) && zero_is_neutral(q));
    assert(quotient_cancels(zero, q));
}

} // verus!
