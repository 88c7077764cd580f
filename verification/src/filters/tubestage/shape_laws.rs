//! What the parts of the tube stage do to the signal, in literal numbers: the polynomial, the DC
//! blocker and the smoothers.

use crate::arith::{s_db_to_linear, s_one, s_zero};
use crate::config::PolynomialModelParameters;
use crate::exact::{sums_associate, sums_commute};
use crate::filters::tubestage::gain_laws::lemma_rest_is_kept;
use crate::filters::tubestage::polynomial::{polynomial, s_smooth_tau, PolynomialModel};
use crate::filters::tubestage::ramp::{one_pole, RampedValue};
use crate::filters::tubestage::shaper::DcBlocker;
use crate::filters::tubestage::triode::sag_coeff_at;
use crate::prcfmt::PrcFmt;
use crate::reals::{
    exponentials_multiply, is_real, lemma_add_zero, lemma_decimal, lemma_div_mul, lemma_integers,
    lemma_mul_cancel, lemma_mul_moves, lemma_mul_spreads, lemma_mul_units, lemma_sub_is,
    lemma_twenty_decibels, lemma_zero_decibels, power_of_ten,
};
use vstd::prelude::*;

verus! {

// ------------------------------- Polynomial -------------------------------

/// Without coefficients the polynomial passes its argument on. Each coefficient adds its own power:
/// the second, the third and the fourth.
pub proof fn lemma_coefficients_add_powers<T: PrcFmt>(d: T, k2: T, k3: T, k4: T, j: T)
    requires
        is_real::<T>(),
    ensures
        polynomial(d, s_zero(), s_zero(), s_zero()) == d,
        polynomial(d, k2.s_add(j), k3, k4) == polynomial(d, k2, k3, k4).s_add(
            j.s_mul(d.s_mul(d)),
        ),
        polynomial(d, k2, k3.s_add(j), k4) == polynomial(d, k2, k3, k4).s_add(
            j.s_mul(d.s_mul(d.s_mul(d))),
        ),
        polynomial(d, k2, k3, k4.s_add(j)) == polynomial(d, k2, k3, k4).s_add(
            j.s_mul(d.s_mul(d).s_mul(d.s_mul(d))),
        ),
{
    let d2 = d.s_mul(d);
    let d3 = d2.s_mul(d);
    let d4 = d3.s_mul(d);
    lemma_mul_moves(d, d, d);
    lemma_mul_moves(d2, d, d);
    assert(d3 == d.s_mul(d.s_mul(d)) && d4 == d2.s_mul(d2));
    lemma_mul_units(d2);
    lemma_mul_units(d3);
    lemma_mul_units(d4);
    lemma_add_zero(d);
    let (a, b, c) = (k2.s_mul(d2), k3.s_mul(d3), k4.s_mul(d4));
    lemma_mul_spreads(d2, k2, j);
    lemma_mul_spreads(d3, k3, j);
    lemma_mul_spreads(d4, k4, j);
    let (u, v, w) = (j.s_mul(d2), j.s_mul(d3), j.s_mul(d4));
    // The second power moves out through the two terms behind it, the third through one.
    assert(sums_associate(d, a, u));
    let e = d.s_add(a);
    lemma_moves_out(e, u, b);
    lemma_moves_out(e.s_add(b), u, c);
    assert(sums_associate(e, b, v));
    lemma_moves_out(e.s_add(b), v, c);
    assert(sums_associate(e.s_add(b), c, w));
}

/// `(a + b) + c = (a + c) + b`.
proof fn lemma_moves_out<T: PrcFmt>(a: T, b: T, c: T)
    requires
        is_real::<T>(),
    ensures
        a.s_add(b).s_add(c) == a.s_add(c).s_add(b),
{
    assert(sums_associate(a, b, c) && sums_associate(a, c, b) && sums_commute(b, c));
}

/// Twenty decibels more of drive do what an input ten times as large does.
pub proof fn lemma_drive_scales_the_input<T: PrcFmt>(
    p: PolynomialModelParameters<T>,
    q: PolynomialModelParameters<T>,
    fs: int,
    x: T,
)
    requires
        is_real::<T>(),
        q == (PolynomialModelParameters { drive_db: p.drive_db.s_add(T::s_int(20)), ..p }),
    ensures
        PolynomialModel::resting(q, fs).output(x) == PolynomialModel::resting(p, fs).output(
            T::s_int(10).s_mul(x),
        ),
{
    let a = PolynomialModel::resting(p, fs);
    let b = PolynomialModel::resting(q, fs);
    lemma_rest_is_kept(a.drive_lin);
    lemma_rest_is_kept(b.drive_lin);
    lemma_rest_is_kept(a.bias);
    lemma_twenty_decibels(p.drive_db);
    lemma_mul_moves(T::s_int(10), s_db_to_linear(p.drive_db), x);
    lemma_mul_moves(s_db_to_linear(p.drive_db), T::s_int(10), x);
}

/// Without drive the bias shifts the input, and without bias and coefficients the model passes its
/// input on.
pub proof fn lemma_bias_shifts_the_input<T: PrcFmt>(
    p: PolynomialModelParameters<T>,
    q: PolynomialModelParameters<T>,
    fs: int,
    x: T,
)
    requires
        is_real::<T>(),
        p.drive_db == s_zero::<T>(),
        q == (PolynomialModelParameters { bias: s_zero::<T>(), ..p }),
    ensures
        PolynomialModel::resting(p, fs).output(x) == PolynomialModel::resting(q, fs).output(
            x.s_add(p.bias),
        ),
        p.k2 == s_zero::<T>() && p.k3 == s_zero::<T>() && p.k4 == s_zero::<T>()
            ==> PolynomialModel::resting(q, fs).output(x) == x,
{
    let a = PolynomialModel::resting(p, fs);
    let b = PolynomialModel::resting(q, fs);
    lemma_rest_is_kept(a.drive_lin);
    lemma_rest_is_kept(a.bias);
    lemma_rest_is_kept(b.bias);
    lemma_zero_decibels::<T>();
    lemma_mul_units(x);
    lemma_mul_units(x.s_add(p.bias));
    lemma_add_zero(x.s_add(p.bias));
    lemma_add_zero(x);
    lemma_coefficients_add_powers(x, s_zero(), s_zero(), s_zero(), s_zero());
}

// ------------------------------- Time constants -------------------------------

/// The logarithm of the coefficient of a smoother, times its time constant in samples, is minus
/// one: in that time the distance from the target shrinks to `1/e`.
pub proof fn lemma_one_pole_takes_its_time<T: PrcFmt>(tau: T, fs: int)
    requires
        is_real::<T>(),
        tau.s_mul(T::s_int(fs)) != s_zero::<T>(),
    ensures
        one_pole(tau, fs).s_ln().s_mul(tau.s_mul(T::s_int(fs))) == T::s_int(-1),
{
    let span = tau.s_mul(T::s_int(fs));
    let e = T::s_int(-1).s_div(span);
    assert(exponentials_multiply(e, e));
    lemma_div_mul(T::s_int(-1), span);
}

/// A time constant of `1/n` seconds: the logarithm of the coefficient times the rate is `-n`.
proof fn lemma_rate_of_decay<T: PrcFmt>(tau: T, n: int, fs: int)
    requires
        is_real::<T>(),
        fs > 0,
        n > 0,
        tau.s_mul(T::s_int(n)) == s_one::<T>(),
    ensures
        one_pole(tau, fs).s_ln().s_mul(T::s_int(fs)) == T::s_int(-n),
{
    let rate = T::s_int(fs);
    let k = T::s_int(n);
    let l = one_pole(tau, fs).s_ln();
    let span = tau.s_mul(rate);
    lemma_integers::<T>(fs, 0);
    lemma_integers::<T>(-1, n);
    lemma_mul_units(k);
    lemma_mul_units(rate);
    // span * n is the rate.
    lemma_mul_moves(tau, rate, k);
    assert(span.s_mul(k) == rate);
    lemma_one_pole_takes_its_time(tau, fs);
    lemma_mul_moves(l, span, k);
    assert(-1 * n == -n);
}

/// Drive, bias and makeup gain move with a time constant of 20 ms, the sag envelope with one of
/// 50 ms: per second they decay by `exp(-50)` and `exp(-20)`.
pub proof fn lemma_time_constants<T: PrcFmt>(v: T, fs: int)
    requires
        is_real::<T>(),
        fs > 0,
    ensures
        RampedValue::resting(v, s_smooth_tau(), fs).coeff.s_ln().s_mul(T::s_int(fs)) == T::s_int(
            -50,
        ),
        sag_coeff_at::<T>(fs).s_ln().s_mul(T::s_int(fs)) == T::s_int(-20),
{
    reveal_with_fuel(power_of_ten, 4);
    lemma_integers::<T>(20, 0);
    lemma_integers::<T>(50, 0);
    lemma_integers::<T>(50, 20);
    lemma_integers::<T>(20, 50);
    lemma_integers::<T>(1, 20);
    lemma_integers::<T>(1, 50);
    let a = T::s_dec(20, 3);
    let b = T::s_dec(50, 3);
    lemma_decimal::<T>(20, 3);
    lemma_decimal::<T>(50, 3);
    lemma_mul_moves(a, T::s_int(50), T::s_int(20));
    lemma_mul_moves(b, T::s_int(20), T::s_int(50));
    lemma_mul_units(T::s_int(20));
    lemma_mul_units(T::s_int(50));
    lemma_mul_cancel(a.s_mul(T::s_int(50)), s_one(), T::s_int(20));
    lemma_mul_cancel(b.s_mul(T::s_int(20)), s_one(), T::s_int(50));
    lemma_rate_of_decay(a, 50, fs);
    lemma_rate_of_decay(b, 20, fs);
}

// ------------------------------- DC blocker -------------------------------

/// The DC blocker passes changes of its input on, and its output decays between them: what the
/// output is beyond the decayed last one is the step of the input.
pub proof fn lemma_blocker_passes_steps<T: PrcFmt>(dc: DcBlocker<T>, x: T, y: T)
    requires
        is_real::<T>(),
    ensures
        dc.after(x).output(y).s_sub(dc.r.s_mul(dc.output(x))) == y.s_sub(x),
{
    let d = y.s_sub(x);
    let e = dc.r.s_mul(dc.output(x));
    lemma_sub_is(d.s_add(e), d, e);
}

/// A DC blocker that has seen no audio passes the first sample on.
pub proof fn lemma_blocker_starts_open<T: PrcFmt>(fs: int, x: T)
    requires
        is_real::<T>(),
    ensures
        DcBlocker::<T>::at_rest(fs).output(x) == x,
{
    let r = DcBlocker::<T>::at_rest(fs).r;
    lemma_mul_units(r);
    lemma_add_zero(x);
    lemma_sub_is(x, x, s_zero());
}

/// The corner of the DC blocker lies at 5 Hz: per second the output decays by `exp(-10 pi)`.
pub proof fn lemma_blocker_corner<T: PrcFmt>(fs: int)
    requires
        is_real::<T>(),
        fs > 0,
    ensures
        DcBlocker::<T>::at_rest(fs).r.s_ln().s_mul(T::s_int(fs)) == T::s_int(-10).s_mul(
            T::s_pi(),
        ),
{
    let rate = T::s_int(fs);
    let pi = T::s_pi();
    let top = T::s_int(-2).s_mul(pi).s_mul(T::s_int(5));
    let e = top.s_div(rate);
    assert(exponentials_multiply(e, e));
    lemma_integers::<T>(fs, 0);
    lemma_integers::<T>(-2, 5);
    lemma_div_mul(top, rate);
    lemma_mul_moves(T::s_int(-2), pi, T::s_int(5));
}

} // verus!
