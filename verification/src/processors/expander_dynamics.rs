//! How the expander follows the program: the ballistics of its detectors, the levels that they are
//! in, and what the gain law makes of them.

use crate::arith::{s_one, s_zero};
use crate::exact::{is_exact, root_squares, sums_associate, sums_commute, total};
use crate::fixed::{magnitude, Fixed, LIMIT, ONE};
use crate::prcfmt::PrcFmt;
use crate::processors::expander::{
    crest_after, crest_db, crest_scale, follower, level_after, level_db, linked, power_sum,
    smoothed, Ballistics, Crest, Expander, Level,
};
use crate::config::ExpanderMode;
use crate::reals::{
    choices_follow_order, exponentials_multiply, is_real, lemma_add_not_below, lemma_add_zero,
    lemma_div_is, lemma_div_mul, lemma_div_spreads, lemma_integers, lemma_level_of_tenfold,
    lemma_mixture, lemma_mul_moves, lemma_mul_neg, lemma_mul_spreads, lemma_mul_units,
    lemma_negatives, lemma_order, lemma_order_kept, lemma_positive, lemma_sub_add, lemma_sub_is,
    lemma_sub_is_add_neg, lemma_twenty_decibels, roots_have_signs, squares_have_roots,
};
use vstd::prelude::*;

verus! {

// ------------------------------- The level detector -------------------------------

/// The level of a magnitude, of which a billionth is added: ten times as much is 20 dB more, and
/// full scale is 0 dB.
pub proof fn lemma_level_in_decibels<T: PrcFmt>(v: T, w: T)
    requires
        is_real::<T>(),
        s_zero::<T>().s_lt(v.s_add(T::s_dec(1, 9))),
        w.s_add(T::s_dec(1, 9)) == T::s_int(10).s_mul(v.s_add(T::s_dec(1, 9))),
    ensures
        level_db(w) == level_db(v).s_add(T::s_int(20)),
        v.s_add(T::s_dec(1, 9)) == s_one::<T>() ==> level_db(v) == s_zero::<T>(),
{
    lemma_level_of_tenfold(v.s_add(T::s_dec(1, 9)));
}

/// The peak follower jumps up at once and comes down with the release: where the level lies below
/// it, the distance between the two shrinks by the release coefficient with every sample; where the
/// level lies above it, it is the level.
pub proof fn lemma_follower_releases<T: PrcFmt>(
    l: Level<T>,
    b: Ballistics<T>,
    wave: Seq<T>,
    n: int,
)
    requires
        is_real::<T>(),
        0 < n <= wave.len(),
        s_zero::<T>().s_le(b.release),
    ensures
        ({
            let before = level_after(l, b, wave, n - 1).peak;
            let after = level_after(l, b, wave, n).peak;
            let level = level_db(wave[n - 1]);
            &&& level.s_le(before) ==> after.s_sub(level) == b.release.s_mul(before.s_sub(level))
            &&& before.s_le(level) ==> after == level
            &&& level.s_le(after)
        }),
{
    let zero = s_zero::<T>();
    let before = level_after(l, b, wave, n - 1).peak;
    let level = level_db(wave[n - 1]);
    let mixed = smoothed(b.release, before, level);
    let d = before.s_sub(level);
    lemma_mixture(b.release, before, level);
    assert(choices_follow_order(level, mixed));
    lemma_order(level, mixed, level);
    lemma_order(mixed, level, level);
    if level.s_le(before) {
        lemma_order_kept(level, before, level);
        lemma_order_kept(zero, d, b.release);
        lemma_mul_units(b.release);
        lemma_add_not_below(level, b.release.s_mul(d));
        if !level.s_lt(mixed) {
            assert(mixed == level);
        }
    }
    if before.s_le(level) {
        lemma_order_kept(before, level, level);
        lemma_sub_is_add_neg(level, level);
        lemma_order_kept(d, zero, b.release);
        lemma_mul_units(b.release);
        lemma_order_kept(b.release.s_mul(d), zero, level);
        lemma_add_zero(level);
        assert(!level.s_lt(mixed));
    }
}

/// The envelope follows the peak follower with the attack, and the slow envelope with its own
/// coefficient: with every sample the distance shrinks by the coefficient.
pub proof fn lemma_envelopes_follow<T: PrcFmt>(
    l: Level<T>,
    b: Ballistics<T>,
    wave: Seq<T>,
    n: int,
)
    requires
        is_exact::<T>(),
        0 < n <= wave.len(),
    ensures
        ({
            let before = level_after(l, b, wave, n - 1);
            let after = level_after(l, b, wave, n);
            &&& after.env.s_sub(after.peak) == b.attack.s_mul(before.env.s_sub(after.peak))
            &&& after.slow.s_sub(after.peak) == b.slow.s_mul(before.slow.s_sub(after.peak))
        }),
{
    let before = level_after(l, b, wave, n - 1);
    let peak = level_after(l, b, wave, n).peak;
    lemma_mixture(b.attack, before.env, peak);
    lemma_mixture(b.slow, before.slow, peak);
}

/// A coefficient takes its time: its logarithm is minus one over the number of samples in that time,
/// so that after it a distance has come down to `1 / e`.
pub proof fn lemma_follower_takes_its_time<T: PrcFmt>(samplerate: int, seconds: T)
    requires
        is_real::<T>(),
        0 < samplerate,
        s_zero::<T>().s_lt(seconds),
    ensures
        follower(samplerate, seconds).s_ln().s_mul(T::s_int(samplerate).s_mul(seconds)) == T::s_int(
            -1,
        ),
{
    let fs = T::s_int(samplerate);
    let m = T::s_int(-1);
    lemma_integers::<T>(0, samplerate);
    lemma_order(s_zero(), seconds, s_zero());
    let x = m.s_div(fs);
    let y = x.s_div(seconds);
    assert(exponentials_multiply(y, y));
    lemma_div_mul(m, fs);
    lemma_div_mul(x, seconds);
    lemma_mul_moves(y, fs, seconds);
    lemma_mul_moves(y, seconds, fs);
}

/// How far a mixture can be from what it should be: the products are rounded toward zero.
proof fn lemma_mixture_is_rounded(c: Fixed, state: Fixed, input: Fixed)
    requires
        0 <= c.raw <= ONE,
        magnitude(state.raw as int) <= LIMIT / 4,
        magnitude(input.raw as int) <= LIMIT / 4,
    ensures
        ({
            let ideal = c.raw * state.raw + (ONE - c.raw) * input.raw;
            let m = smoothed(c, state, input).raw;
            &&& (m - 2) * ONE < ideal < (m + 2) * ONE
        }),
{
    let k = c.raw as int;
    let e = ONE - k;
    let a = magnitude(state.raw as int);
    let b = magnitude(input.raw as int);
    let p = k * a / (ONE as int);
    let q = e * b / (ONE as int);
    assert(0 <= p <= a && p * ONE <= k * a < p * ONE + ONE) by (nonlinear_arith)
        requires
            p == k * a / (ONE as int),
            0 <= k <= ONE,
            0 <= a,
    ;
    assert(0 <= q <= b && q * ONE <= e * b < q * ONE + ONE) by (nonlinear_arith)
        requires
            q == e * b / (ONE as int),
            0 <= e <= ONE,
            0 <= b,
    ;
    assert(s_one::<Fixed>().s_sub(c).raw == e);
    let x = c.s_mul(state).raw as int;
    let y = s_one::<Fixed>().s_sub(c).s_mul(input).raw as int;
    assert(magnitude(x) == p && magnitude(y) == q);
    assert(x * ONE - ONE < k * state.raw < x * ONE + ONE) by (nonlinear_arith)
        requires
            p * ONE <= k * a < p * ONE + ONE,
            state.raw >= 0 ==> a == state.raw && x == p,
            state.raw < 0 ==> a == -state.raw && x == -p,
    ;
    assert(y * ONE - ONE < e * input.raw < y * ONE + ONE) by (nonlinear_arith)
        requires
            q * ONE <= e * b < q * ONE + ONE,
            input.raw >= 0 ==> b == input.raw && y == q,
            input.raw < 0 ==> b == -input.raw && y == -q,
    ;
}

/// In fixed point the follower comes down as long as the step is not rounded away: where it lies
/// more than `2 / (1 - release)` units above the level, it falls, and never below the level.
pub proof fn lemma_follower_releases_in_fixed_point(
    l: Level<Fixed>,
    b: Ballistics<Fixed>,
    wave: Seq<Fixed>,
    n: int,
)
    requires
        0 < n <= wave.len(),
        0 <= b.release.raw <= ONE,
        magnitude(level_after(l, b, wave, n - 1).peak.raw as int) <= LIMIT / 4,
        magnitude(level_db(wave[n - 1]).raw as int) <= LIMIT / 4,
    ensures
        ({
            let before = level_after(l, b, wave, n - 1).peak.raw;
            let after = level_after(l, b, wave, n).peak.raw;
            let level = level_db(wave[n - 1]).raw;
            &&& level <= after
            &&& level <= before && 2 * ONE <= (ONE - b.release.raw) * (before - level) ==> after
                < before
            &&& before <= level ==> after <= level + 1
        }),
{
    let before = level_after(l, b, wave, n - 1).peak;
    let level = level_db(wave[n - 1]);
    lemma_mixture_is_rounded(b.release, before, level);
    let m = smoothed(b.release, before, level).raw;
    let k = b.release.raw as int;
    let e = ONE - k;
    let d = before.raw - level.raw;
    let ideal = k * before.raw + e * level.raw;
    assert(ideal == ONE * before.raw - e * d && ideal == ONE * level.raw + k * d)
        by (nonlinear_arith)
        requires
            ideal == k * before.raw + e * level.raw,
            e == ONE - k,
            d == before.raw - level.raw,
    ;
    if d <= 0 {
        assert(k * d <= 0) by (nonlinear_arith)
            requires
                0 <= k,
                d <= 0,
        ;
        assert(m <= level.raw + 1);
    }
    if 0 <= d && 2 * ONE <= e * d {
        assert(m < before.raw);
        assert(0 < d) by (nonlinear_arith)
            requires
                2 * ONE <= e * d,
                0 <= d,
                0 <= e,
        ;
    }
}

/// The threshold in effect follows the program in adaptive mode: it lies the offset above the slow
/// envelope, unless that is below the fixed threshold.
pub proof fn lemma_threshold_follows_the_program<T: PrcFmt>(exp: Expander<T>, wave: Seq<T>, n: int)
    requires
        is_real::<T>(),
        0 < n <= wave.len(),
        exp.adaptive,
    ensures
        ({
            let slow = level_after(exp.level(), exp.ballistics(), wave, n).slow;
            let threshold = exp.threshold_after(wave, n);
            &&& exp.threshold.s_le(slow.s_add(exp.relative_offset)) ==> threshold.s_sub(slow)
                == exp.relative_offset
            &&& slow.s_add(exp.relative_offset).s_le(exp.threshold) ==> threshold == exp.threshold
        }),
{
    let slow = level_after(exp.level(), exp.ballistics(), wave, n).slow;
    let moved = slow.s_add(exp.relative_offset);
    assert(choices_follow_order(exp.threshold, moved));
    lemma_order(exp.threshold, moved, moved);
    lemma_order(moved, exp.threshold, moved);
    lemma_sub_is(moved, slow, exp.relative_offset);
}

/// The excess is how far the envelope lies above the threshold in effect.
pub proof fn lemma_excess_is_above_the_threshold<T: PrcFmt>(exp: Expander<T>, wave: Seq<T>, i: int)
    requires
        is_exact::<T>(),
        0 <= i < wave.len(),
    ensures
        exp.excess(wave)[i].s_add(exp.threshold_after(wave, i + 1)) == level_after(
            exp.level(),
            exp.ballistics(),
            wave,
            i + 1,
        ).env,
{
    lemma_sub_add(
        level_after(exp.level(), exp.ballistics(), wave, i + 1).env,
        exp.threshold_after(wave, i + 1),
    );
}

// ------------------------------- The gain -------------------------------

/// Twenty decibels of makeup gain are ten times the gain, whatever the expansion.
pub proof fn lemma_makeup_in_decibels<T: PrcFmt>(
    exp: Expander<T>,
    louder: Expander<T>,
    over: Seq<T>,
    scale: T,
    i: int,
)
    requires
        is_real::<T>(),
        louder == (Expander { makeup_gain: louder.makeup_gain, ..exp }),
        louder.makeup_gain == exp.makeup_gain.s_add(T::s_int(20)),
        0 <= i < over.len(),
    ensures
        louder.gains(over, scale)[i] == T::s_int(10).s_mul(exp.gains(over, scale)[i]),
{
    let a = exp.applied(over[i], scale);
    assert(louder.applied(over[i], scale) == a);
    lemma_twenty_decibels(a.s_add(exp.makeup_gain));
    assert(sums_associate(a, exp.makeup_gain, T::s_int(20)));
}

/// Whether the bound on the expansion does not come into play.
pub open spec fn within_max_gain<T: PrcFmt>(exp: Expander<T>, expansion: T) -> bool {
    !expansion.s_lt(exp.max_gain.s_neg()) && !exp.max_gain.s_lt(expansion)
}

/// The gain law above the knee: what lies above the threshold is stretched by the ratio in effect,
/// of which the crest factor lets the share `scale` through. An upward expander adds to the level,
/// a downward expander takes away as much below the threshold, and one of both kinds does either.
pub proof fn lemma_ratio_stretches_the_excess<T: PrcFmt>(exp: Expander<T>, over: T, scale: T)
    requires
        is_real::<T>(),
        s_zero::<T>().s_le(exp.half_knee),
        s_zero::<T>().s_le(over),
        exp.half_knee.s_le(over),
        ({
            let e = over.s_mul(scale).s_mul(exp.ratio.s_sub(s_one()));
            within_max_gain(exp, e) && within_max_gain(exp, e.s_neg())
        }),
    ensures
        ({
            let e = over.s_mul(scale).s_mul(exp.ratio.s_sub(s_one()));
            &&& exp.mode == ExpanderMode::Upward ==> exp.applied(over, scale) == e
            &&& exp.mode == ExpanderMode::Downward ==> exp.applied(over.s_neg(), scale) == e.s_neg()
            &&& exp.mode == ExpanderMode::Both ==> exp.applied(over, scale) == e && exp.applied(
                over.s_neg(),
                scale,
            ) == e.s_neg()
        }),
{
    let zero = s_zero::<T>();
    let one = s_one::<T>();
    let slope = exp.ratio.s_sub(one);
    let part = slope.s_mul(scale);
    let ratio = one.s_add(part);
    lemma_sub_is(ratio, one, part);
    assert(ratio.s_sub(one) == part);
    let e = over.s_mul(scale).s_mul(slope);
    lemma_mul_moves(over, scale, slope);
    lemma_mul_moves(scale, slope, one);
    assert(over.s_mul(part) == e);
    assert(choices_follow_order(over, zero));
    lemma_order(zero, over, zero);
    lemma_order(over, zero, zero);
    assert(over.s_max(zero) == over);
    lemma_negatives(over, over);
    lemma_mul_neg(over, part);
}

/// With the full scale and without the bound, an upward expander makes the excess `ratio` times as
/// large: the level and the expansion together lie `ratio` times as far above the threshold.
pub proof fn lemma_ratio_is_the_slope<T: PrcFmt>(exp: Expander<T>, over: T)
    requires
        is_real::<T>(),
        exp.mode == ExpanderMode::Upward,
        s_zero::<T>().s_le(exp.half_knee),
        s_zero::<T>().s_le(over),
        exp.half_knee.s_le(over),
        ({
            let e = over.s_mul(exp.ratio.s_sub(s_one()));
            within_max_gain(exp, e) && within_max_gain(exp, e.s_neg())
        }),
    ensures
        over.s_add(exp.applied(over, s_one())) == exp.ratio.s_mul(over),
{
    let one = s_one::<T>();
    let slope = exp.ratio.s_sub(one);
    lemma_mul_units(over);
    lemma_ratio_stretches_the_excess(exp, over, one);
    lemma_mul_spreads(over, one, slope);
    lemma_sub_add(exp.ratio, one);
    lemma_mul_moves(over, exp.ratio, one);
    assert(sums_commute(one, slope));
}

// ------------------------------- The crest factor -------------------------------

/// The crest factor in decibels: a peak ten times as high is 20 dB more, a mean square a hundred
/// times as large 20 dB less, so that the level of the program does not matter.
pub proof fn lemma_crest_in_decibels<T: PrcFmt>(c: Crest<T>)
    requires
        is_real::<T>(),
        T::s_dec(1, 20).s_lt(c.peak),
        T::s_dec(1, 20).s_lt(c.ms),
        s_zero::<T>().s_lt(T::s_dec(1, 20)),
    ensures
        crest_db(Crest { peak: T::s_int(10).s_mul(c.peak), ..c }) == crest_db(c).s_add(
            T::s_int(20),
        ),
        crest_db(Crest { peak: T::s_int(10).s_mul(c.peak), ms: T::s_int(100).s_mul(c.ms) })
            == crest_db(c),
{
    let ten = T::s_int(10);
    let hundred = T::s_int(100);
    let zero = s_zero::<T>();
    lemma_integers::<T>(0, 10);
    lemma_integers::<T>(10, 10);
    lemma_times_keeps_above(c.peak, 10);
    lemma_times_keeps_above(c.peak, 1);
    lemma_times_keeps_above(c.ms, 100);
    lemma_times_keeps_above(c.ms, 1);
    lemma_mul_units(c.peak);
    lemma_mul_units(c.ms);
    // The root of the mean square.
    let r = c.ms.s_sqrt();
    lemma_order(zero, c.ms, zero);
    lemma_order(c.ms, zero, zero);
    assert(root_squares(c.ms));
    assert(roots_have_signs(c.ms));
    lemma_positive(ten, r);
    lemma_positive(c.peak, r);
    let tr = ten.s_mul(r);
    lemma_mul_moves(tr, ten, r);
    lemma_mul_moves(ten, r, ten);
    lemma_mul_moves(ten.s_mul(ten), r, r);
    assert(tr.s_mul(tr) == hundred.s_mul(c.ms)) by {
        lemma_mul_moves(ten, r, tr);
        lemma_mul_moves(r, ten, r);
        lemma_mul_moves(ten, ten, r.s_mul(r));
    }
    lemma_order(zero, tr, zero);
    assert(squares_have_roots(tr));
    let q = c.peak.s_div(r);
    lemma_div_spreads(ten, c.peak, r);
    lemma_level_of_tenfold(q);
    lemma_div_mul(c.peak, r);
    lemma_mul_moves(q, ten, r);
    lemma_div_is(ten.s_mul(c.peak), tr, q);
}

/// A whole multiple of what lies above the floor of the crest estimator lies above it, too.
proof fn lemma_times_keeps_above<T: PrcFmt>(x: T, n: int)
    requires
        is_real::<T>(),
        0 < n,
        T::s_dec(1, 20).s_lt(x),
        s_zero::<T>().s_lt(T::s_dec(1, 20)),
    ensures
        s_zero::<T>().s_lt(x),
        T::s_int(n).s_mul(x).s_max(T::s_dec(1, 20)) == T::s_int(n).s_mul(x),
{
    let zero = s_zero::<T>();
    let floor = T::s_dec(1, 20);
    zero.lt_transitive(floor, x);
    lemma_order(zero, x, zero);
    lemma_integers::<T>(1, n);
    let k = T::s_int(n);
    lemma_order(s_one(), k, k);
    lemma_order(k, k, k);
    lemma_order_kept(s_one(), k, x);
    lemma_mul_units(x);
    let y = k.s_mul(x);
    lemma_order(floor, x, y);
    lemma_order(y, floor, y);
    assert(choices_follow_order(y, floor));
}

/// The crest estimator: the mean square moves by its coefficient towards the square of the
/// magnitude; the peak jumps up to a magnitude that is larger and decays by its coefficient
/// otherwise.
pub proof fn lemma_crest_estimator_follows<T: PrcFmt>(
    c: Crest<T>,
    ms_coeff: T,
    peak_coeff: T,
    wave: Seq<T>,
    n: int,
)
    requires
        is_real::<T>(),
        0 < n <= wave.len(),
    ensures
        ({
            let before = crest_after(c, ms_coeff, peak_coeff, wave, n - 1);
            let after = crest_after(c, ms_coeff, peak_coeff, wave, n);
            let v = wave[n - 1];
            &&& after.ms.s_sub(v.s_mul(v)) == ms_coeff.s_mul(before.ms.s_sub(v.s_mul(v)))
            &&& before.peak.s_lt(v.s_abs()) ==> after.peak == v.s_abs()
            &&& v.s_abs().s_le(before.peak) ==> after.peak.s_sub(before.peak) == before.peak.s_mul(
                peak_coeff.s_sub(s_one()),
            )
        }),
{
    let before = crest_after(c, ms_coeff, peak_coeff, wave, n - 1);
    let v = wave[n - 1];
    lemma_mixture(ms_coeff, before.ms, v.s_mul(v));
    lemma_order(before.peak, v.s_abs(), v);
    lemma_mul_spreads(before.peak, peak_coeff, s_one());
    lemma_mul_units(before.peak);
}

/// Between its two ends the scale falls in proportion: what is missing to the ceiling is the share
/// `scale` of the distance between the ends.
pub proof fn lemma_crest_scale_is_a_line<T: PrcFmt>(db: T, floor: T, ceiling: T)
    requires
        is_real::<T>(),
        floor.s_lt(ceiling),
        floor.s_le(db),
        db.s_le(ceiling),
    ensures
        crest_scale(true, db, floor, ceiling).s_mul(ceiling.s_sub(floor)) == ceiling.s_sub(db),
{
    let whole = ceiling.s_sub(floor);
    lemma_order(floor, ceiling, floor);
    lemma_sub_add(ceiling, floor);
    assert(whole != s_zero::<T>()) by {
        if whole == s_zero::<T>() {
            lemma_add_zero(floor);
        }
    }
    lemma_order(db, floor, db);
    lemma_order(ceiling, db, db);
    lemma_mul_units(whole);
    lemma_sub_is_add_neg(ceiling, db);
    if db.s_le(floor) {
        assert(db == floor);
    } else if ceiling.s_le(db) {
        assert(db == ceiling);
        lemma_sub_is_add_neg(ceiling, ceiling);
    } else {
        lemma_div_mul(ceiling.s_sub(db), whole);
    }
}

// ------------------------------- Linking -------------------------------

/// The square of sample `i` on the `k`-th monitored channel.
pub open spec fn square_on<T: PrcFmt>(
    waves: Seq<Vec<T>>,
    monitors: Seq<usize>,
    i: int,
) -> spec_fn(int) -> T {
    |k: int| waves[monitors[k] as int]@[i].s_mul(waves[monitors[k] as int]@[i])
}

proof fn lemma_power_sum_is_a_total<T: PrcFmt>(
    held: T,
    waves: Seq<Vec<T>>,
    monitors: Seq<usize>,
    i: int,
    m: int,
)
    requires
        is_exact::<T>(),
        0 < m <= monitors.len(),
        forall|k: int|
            0 <= k < monitors.len() ==> i < (#[trigger] waves[monitors[k] as int])@.len(),
    ensures
        power_sum(held, waves, monitors, i, m) == total(square_on(waves, monitors, i), 0, m),
    decreases m,
{
    let f = square_on(waves, monitors, i);
    let w = waves[monitors[m - 1] as int]@;
    assert(i < waves[monitors[m - 1] as int]@.len());
    if m > 1 {
        lemma_power_sum_is_a_total(held, waves, monitors, i, m - 1);
    } else {
        assert(total(f, 0, 0) == s_zero::<T>());
        lemma_add_zero(f(0));
        assert(total(f, 0, 1) == f(0));
    }
    assert(f(m - 1) == w[i].s_mul(w[i]));
}

/// The linked magnitude is the root of the mean power: its square, taken as often as there are
/// monitored channels, is the sum of the squares on them.
pub proof fn lemma_linked_is_the_mean_power<T: PrcFmt>(
    scratch: Seq<T>,
    waves: Seq<Vec<T>>,
    monitors: Seq<usize>,
    i: int,
)
    requires
        is_real::<T>(),
        0 <= i < scratch.len(),
        0 < monitors.len(),
        forall|k: int|
            0 <= k < monitors.len() ==> i < (#[trigger] waves[monitors[k] as int])@.len(),
        s_zero::<T>().s_le(total(square_on(waves, monitors, i), 0, monitors.len() as int)),
    ensures
        ({
            let v = linked(scratch, waves, monitors)[i];
            v.s_mul(v).s_mul(T::s_int(monitors.len() as int)) == total(
                square_on(waves, monitors, i),
                0,
                monitors.len() as int,
            )
        }),
{
    let zero = s_zero::<T>();
    let n = monitors.len() as int;
    let m = T::s_int(n);
    lemma_integers::<T>(0, n);
    lemma_power_sum_is_a_total(scratch[i], waves, monitors, i, n);
    let sum = total(square_on(waves, monitors, i), 0, n);
    let norm = s_one::<T>().s_div(m);
    lemma_div_mul(s_one::<T>(), m);
    let mean = sum.s_mul(norm);
    let v = mean.s_sqrt();
    lemma_mul_moves(sum, norm, m);
    lemma_mul_units(sum);
    assert(mean.s_mul(m) == sum);
    lemma_integers::<T>(0, 1);
    lemma_positive(s_one::<T>(), m);
    lemma_order(zero, norm, zero);
    lemma_order_kept(zero, sum, norm);
    lemma_mul_units(norm);
    lemma_mul_moves(norm, sum, norm);
    lemma_order(zero, mean, zero);
    lemma_order(mean, zero, zero);
    assert(root_squares(mean));
    assert(roots_have_signs(mean));
    lemma_mul_units(zero);
    if mean.s_le(zero) {
        assert(mean == zero);
    }
}

} // verus!
