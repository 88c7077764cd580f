//! Simple per-sample one-pole smoothing for hot-swap of tube stage parameters like drive, bias and
//! makeup gain. Avoids audible clicks when parameters change at runtime.

use crate::arith::{max_int, min_int, s_one};
use crate::exact::{
    difference_cancels, is_exact, one_is_neutral, products_commute, products_distribute,
    sums_associate, sums_commute,
};
use crate::fixed::{magnitude, Fixed, LIMIT, ONE};
use crate::fixed_laws::lemma_exp_bounds;
use crate::prcfmt::PrcFmt;
use vstd::prelude::*;

verus! {

/// A value that moves to its target step by step.
#[derive(Clone, Copy)]
pub struct RampedValue<T: PrcFmt> {
    pub target: T,
    pub current: T,
    pub coeff: T,
}

/// The coefficient of a one-pole smoother: `exp(-1 / (tau * fs))`.
pub open spec fn one_pole<T: PrcFmt>(tau_seconds: T, fs: int) -> T {
    T::s_int(-1).s_div(tau_seconds.s_mul(T::s_int(fs))).s_exp()
}

/// Computes the coefficient of a one-pole smoother.
pub fn one_pole_coeff<T: PrcFmt>(tau_seconds: T, fs: usize) -> (r: T)
    ensures
        r == one_pole(tau_seconds, fs as int),
{
    T::of_int(-1).over(tau_seconds.times(T::of_usize(fs))).exp()
}

impl<T: PrcFmt> RampedValue<T> {
    /// A smoother that rests at `initial`.
    pub open spec fn resting(initial: T, tau_seconds: T, fs: int) -> Self {
        RampedValue { target: initial, current: initial, coeff: one_pole(tau_seconds, fs) }
    }

    /// The smoother one sample later.
    pub open spec fn ticked(self) -> Self {
        RampedValue {
            current: self.coeff.s_mul(self.current).s_add(
                s_one::<T>().s_sub(self.coeff).s_mul(self.target),
            ),
            ..self
        }
    }

    /// The smoother with a new target and tuning: it moves on from where it is.
    pub open spec fn redirected(self, target: T, tau_seconds: T, fs: int) -> Self {
        RampedValue { target, current: self.current, coeff: one_pole(tau_seconds, fs) }
    }

    /// Creates a smoother whose `current` and `target` start at `initial`. `tau_seconds` is the
    /// time constant of the one-pole smoother and `fs` is the rate at which `tick()` will be
    /// called.
    pub fn new(initial: T, tau_seconds: T, fs: usize) -> (r: Self)
        ensures
            r == Self::resting(initial, tau_seconds, fs as int),
    {
        let coeff: T = one_pole_coeff(tau_seconds, fs);
        RampedValue { target: initial, current: initial, coeff }
    }

    pub fn set_target(&mut self, target: T)
        ensures
            *final(self) == (RampedValue { target, ..*old(self) }),
    {
        self.target = target;
    }

    /// Update `tau` and `fs` while preserving the current value (used when the effective
    /// oversampled sample rate changes).
    pub fn retune(&mut self, tau_seconds: T, fs: usize)
        ensures
            *final(self) == (RampedValue { coeff: one_pole(tau_seconds, fs as int), ..*old(self) }),
    {
        self.coeff = one_pole_coeff(tau_seconds, fs);
    }

    /// Advance the smoother by one sample and return the new value.
    pub fn tick(&mut self) -> (r: T)
        ensures
            *final(self) == old(self).ticked(),
            r == old(self).ticked().current,
    {
        let one: T = T::of_int(1);
        self.current = self.coeff.times(self.current).plus(
            one.minus(self.coeff).times(self.target),
        );
        self.current
    }

    pub fn target(&self) -> (r: T)
        ensures
            r == self.target,
    {
        self.target
    }
}

// ------------------------------- Laws -------------------------------

/// A smoother after `n` samples.
pub open spec fn after_ticks<T: PrcFmt>(r: RampedValue<T>, n: nat) -> RampedValue<T>
    decreases n,
{
    if n == 0 {
        r
    } else {
        after_ticks(r, (n - 1) as nat).ticked()
    }
}

/// In fixed point a step ends between the current value and the target, or one unit below.
pub proof fn lemma_step_stays_between(r: RampedValue<Fixed>)
    requires
        0 <= r.coeff.raw <= ONE,
        0 <= r.current.raw,
        0 <= r.target.raw,
    ensures
        0 <= r.ticked().current.raw,
        min_int(r.current.raw as int, r.target.raw as int) - 1 <= r.ticked().current.raw,
        r.ticked().current.raw <= max_int(r.current.raw as int, r.target.raw as int),
{
    let c = r.coeff.raw as int;
    let d = ONE - c;
    let x = r.current.raw as int;
    let t = r.target.raw as int;
    let lo = min_int(x, t);
    let hi = max_int(x, t);
    assert(lo * ONE <= c * x + d * t && c * x + d * t <= hi * ONE) by (nonlinear_arith)
        requires
            0 <= c,
            0 <= d,
            c + d == ONE,
            lo <= x <= hi,
            lo <= t <= hi,
    ;
    assert(0 <= c * x && 0 <= d * t) by (nonlinear_arith)
        requires
            0 <= c,
            0 <= d,
            0 <= x,
            0 <= t,
    ;
    let a = c * x / (ONE as int);
    let b = d * t / (ONE as int);
    assert(a <= hi && b <= hi);
    assert(r.coeff.s_mul(r.current).raw == a);
    assert(s_one::<Fixed>().s_sub(r.coeff).raw == d);
    assert(s_one::<Fixed>().s_sub(r.coeff).s_mul(r.target).raw == b);
}

/// A ramp in fixed point does not overshoot: on its way up no value lies above the target, however
/// many samples pass.
pub proof fn lemma_ramp_never_overshoots(r: RampedValue<Fixed>, n: nat)
    requires
        0 <= r.coeff.raw <= ONE,
        0 <= r.current.raw <= r.target.raw,
    ensures
        0 <= after_ticks(r, n).current.raw <= r.target.raw,
        after_ticks(r, n).target == r.target,
        after_ticks(r, n).coeff == r.coeff,
    decreases n,
{
    if n > 0 {
        lemma_ramp_never_overshoots(r, (n - 1) as nat);
        lemma_step_stays_between(after_ticks(r, (n - 1) as nat));
    }
}

/// A smoother whose values are all negated.
pub open spec fn mirrored(r: RampedValue<Fixed>) -> RampedValue<Fixed> {
    RampedValue { target: r.target.s_neg(), current: r.current.s_neg(), coeff: r.coeff }
}

/// A step of a negated smoother is the negated step.
proof fn lemma_step_mirrors(r: RampedValue<Fixed>)
    requires
        -LIMIT <= r.current.raw,
        -LIMIT <= r.target.raw,
    ensures
        mirrored(r).ticked() == mirrored(r.ticked()),
        -LIMIT <= r.ticked().current.raw,
{
    let d = s_one::<Fixed>().s_sub(r.coeff);
    let c = magnitude(r.coeff.raw as int);
    let e = magnitude(d.raw as int);
    assert(c * 0 == 0 && e * 0 == 0) by (nonlinear_arith);
    assert(r.coeff.s_mul(r.current.s_neg()) == r.coeff.s_mul(r.current).s_neg());
    assert(d.s_mul(r.target.s_neg()) == d.s_mul(r.target).s_neg());
}

/// Negating a ramp negates every value on its way.
pub proof fn lemma_ramp_mirrors(r: RampedValue<Fixed>, n: nat)
    requires
        -LIMIT <= r.current.raw,
        -LIMIT <= r.target.raw,
    ensures
        after_ticks(mirrored(r), n) == mirrored(after_ticks(r, n)),
        -LIMIT <= after_ticks(r, n).current.raw,
        after_ticks(r, n).target == r.target,
        after_ticks(r, n).coeff == r.coeff,
    decreases n,
{
    if n > 0 {
        lemma_ramp_mirrors(r, (n - 1) as nat);
        lemma_step_mirrors(after_ticks(r, (n - 1) as nat));
    }
}

/// Neither does a ramp between negative values: on its way down no value lies below the target.
pub proof fn lemma_falling_ramp_never_overshoots(r: RampedValue<Fixed>, n: nat)
    requires
        0 <= r.coeff.raw <= ONE,
        -LIMIT <= r.target.raw <= r.current.raw <= 0,
    ensures
        r.target.raw <= after_ticks(r, n).current.raw <= 0,
{
    lemma_ramp_mirrors(r, n);
    lemma_ramp_never_overshoots(mirrored(r), n);
}

/// How far rounding can take a ramp beyond its target, in units of the last place.
pub open spec fn ramp_rounding(coeff: Fixed) -> int {
    2 * ONE / (ONE - coeff.raw) + 1
}

/// A step from a value that lies beyond the target by no more than the rounding stays there.
proof fn lemma_step_stays_near(r: RampedValue<Fixed>)
    requires
        0 <= r.coeff.raw < ONE,
        -LIMIT <= r.current.raw,
        -LIMIT <= r.target.raw,
    ensures
        -LIMIT <= r.ticked().current.raw,
        r.current.raw <= r.target.raw + ramp_rounding(r.coeff) ==> r.ticked().current.raw
            <= r.target.raw + ramp_rounding(r.coeff),
{
    let c = r.coeff.raw as int;
    let d = ONE - c;
    let x = r.current.raw as int;
    let t = r.target.raw as int;
    let b = ramp_rounding(r.coeff);
    let p = r.coeff.s_mul(r.current).raw as int;
    let q = s_one::<Fixed>().s_sub(r.coeff).s_mul(r.target).raw as int;
    assert(s_one::<Fixed>().s_sub(r.coeff).raw == d);
    lemma_part_of(r.coeff, r.current);
    lemma_part_of(s_one::<Fixed>().s_sub(r.coeff), r.target);
    let y = p + q;
    assert(y * ONE < c * x + d * t + 2 * ONE);
    assert(b * d >= 2 * ONE) by (nonlinear_arith)
        requires
            b == 2 * ONE / d + 1,
            0 < d,
    ;
    let m = if magnitude(x) < magnitude(t) {
        magnitude(t)
    } else {
        magnitude(x)
    };
    assert(magnitude(p) * ONE + magnitude(q) * ONE <= m * ONE) by (nonlinear_arith)
        requires
            magnitude(p) * ONE <= c * magnitude(x),
            magnitude(q) * ONE <= d * magnitude(t),
            magnitude(x) <= m,
            magnitude(t) <= m,
            0 <= c,
            0 <= d,
            c + d == ONE,
    ;
    assert(r.ticked().current.raw == y);
    if x <= t + b {
        assert(y <= t + b) by (nonlinear_arith)
            requires
                y * ONE < c * x + d * t + 2 * ONE,
                x <= t + b,
                0 <= c,
                c + d == ONE,
                b * d >= 2 * ONE,
        ;
    }
}

/// A product with a coefficient between zero and one, rounded toward zero.
proof fn lemma_part_of(c: Fixed, x: Fixed)
    requires
        0 <= c.raw <= ONE,
        -LIMIT <= x.raw,
    ensures
        c.raw * x.raw - ONE < c.s_mul(x).raw * ONE < c.raw * x.raw + ONE,
        magnitude(c.s_mul(x).raw as int) * ONE <= c.raw * magnitude(x.raw as int),
{
    let m = magnitude(x.raw as int);
    let q = c.raw * m / (ONE as int);
    assert(0 <= q <= m && q * ONE <= c.raw * m < q * ONE + ONE) by (nonlinear_arith)
        requires
            q == c.raw * m / (ONE as int),
            0 <= c.raw <= ONE,
            0 <= m,
    ;
    assert(c.raw * x.raw == if x.raw < 0 {
        -(c.raw * m)
    } else {
        c.raw * m
    }) by (nonlinear_arith)
        requires
            m == (if x.raw < 0 {
                -x.raw
            } else {
                x.raw as int
            }),
    ;
}

/// A ramp from below, whatever the signs, never lies above its target by more than the rounding.
pub proof fn lemma_rising_ramp_stays_near(r: RampedValue<Fixed>, n: nat)
    requires
        0 <= r.coeff.raw < ONE,
        -LIMIT <= r.current.raw <= r.target.raw,
    ensures
        after_ticks(r, n).current.raw <= r.target.raw + ramp_rounding(r.coeff),
        -LIMIT <= after_ticks(r, n).current.raw,
        after_ticks(r, n).target == r.target,
        after_ticks(r, n).coeff == r.coeff,
    decreases n,
{
    let d = ONE - r.coeff.raw;
    assert(0 <= 2 * ONE / d) by (nonlinear_arith)
        requires
            0 < d,
    ;
    if n > 0 {
        lemma_rising_ramp_stays_near(r, (n - 1) as nat);
        lemma_step_stays_near(after_ticks(r, (n - 1) as nat));
    }
}

/// A ramp from above, whatever the signs, never lies below its target by more than the rounding.
pub proof fn lemma_sinking_ramp_stays_near(r: RampedValue<Fixed>, n: nat)
    requires
        0 <= r.coeff.raw < ONE,
        -LIMIT <= r.target.raw <= r.current.raw,
    ensures
        r.target.raw - ramp_rounding(r.coeff) <= after_ticks(r, n).current.raw,
{
    lemma_ramp_mirrors(r, n);
    lemma_rising_ramp_stays_near(mirrored(r), n);
}

/// Where arithmetic is exact, each step takes the distance from the target down by the coefficient:
/// with a coefficient between zero and one the ramp never passes its target.
pub proof fn lemma_step_scales_the_distance<T: PrcFmt>(r: RampedValue<T>)
    requires
        is_exact::<T>(),
    ensures
        r.ticked().current == r.target.s_add(r.coeff.s_mul(r.current.s_sub(r.target))),
{
    let one = s_one::<T>();
    let c = r.coeff;
    let t = r.target;
    let d = r.current.s_sub(t);
    let rest = one.s_sub(c);
    // The current value is the distance beyond the target.
    assert(d.s_add(t) == r.current) by {
        assert(difference_cancels(r.current, t));
    }
    assert(c.s_mul(r.current) == c.s_mul(d).s_add(c.s_mul(t))) by {
        assert(products_distribute(c, d, t));
    }
    // The two shares of the target make up the target.
    assert(c.s_mul(t).s_add(rest.s_mul(t)) == t) by {
        assert(products_commute(c, t) && products_commute(rest, t));
        assert(products_distribute(t, c, rest));
        assert(difference_cancels(one, c));
        assert(sums_commute(rest, c));
        assert(products_commute(t, one));
        assert(one_is_neutral(t));
    }
    assert(sums_associate(c.s_mul(d), c.s_mul(t), rest.s_mul(t)));
    assert(sums_commute(c.s_mul(d), t));
}

/// The coefficient of a one-pole smoother lies between zero and one, so that the laws above hold of
/// every smoother with a time constant that is not negative.
pub proof fn lemma_one_pole_is_a_fraction(tau_seconds: Fixed, fs: int)
    requires
        0 <= tau_seconds.raw,
        0 <= fs,
    ensures
        0 <= one_pole(tau_seconds, fs).raw <= ONE,
{
    let rate = Fixed::s_int(fs);
    let span = tau_seconds.s_mul(rate);
    assert(0 <= tau_seconds.raw * rate.raw / (ONE as int)) by (nonlinear_arith)
        requires
            0 <= tau_seconds.raw,
            0 <= rate.raw,
    ;
    let x = Fixed::s_int(-1).s_div(span);
    if span.raw > 0 {
        assert(0 <= ONE * ONE / (span.raw as int)) by (nonlinear_arith)
            requires
                0 < span.raw,
        ;
    }
    assert(x.raw <= 0);
    lemma_exp_bounds(x);
}

} // verus!
