//! What the sections do to the ends of the spectrum, and where they turn.

use crate::arith::{s_one, s_zero};
use crate::exact::sums_commute;
use crate::filters::biquad::{coefficients_of, shelf_amplitude, warped, Biquad, BiquadParameters};
use crate::prcfmt::PrcFmt;
use crate::reals::{
    is_real, lemma_add_zero, lemma_div_is, lemma_div_mul, lemma_div_spreads, lemma_integers,
    lemma_mul_moves, lemma_mul_neg, lemma_mul_spreads, lemma_mul_units, lemma_negatives,
    lemma_pairs, lemma_sub_is_add_neg, powers_multiply,
};
use vstd::prelude::*;

verus! {

/// A section computes the difference equation of a second-order filter: the output depends on the
/// last three inputs and the last two outputs alone.
pub proof fn lemma_difference_equation<T: PrcFmt>(f: Biquad<T>, x0: T, x1: T, x2: T)
    ensures
        ({
            let c = f.coeffs;
            let y0 = f.output(x0);
            let y1 = f.after(x0).output(x1);
            let y2 = f.after(x0).after(x1).output(x2);
            y2 == c.b2.s_mul(x0).s_sub(c.a2.s_mul(y0)).s_add(c.b1.s_mul(x1)).s_sub(
                c.a1.s_mul(y1),
            ).s_add(c.b0.s_mul(x2))
        }),
        f.after(x0).coeffs == f.coeffs,
{
}

/// A section that has seen no audio starts from zeros.
pub proof fn lemma_first_outputs<T: PrcFmt>(f: Biquad<T>, x0: T, x1: T)
    requires
        is_real::<T>(),
        f == Biquad::at_rest(f.coeffs),
    ensures
        f.output(x0) == f.coeffs.b0.s_mul(x0),
        f.after(x0).output(x1) == f.coeffs.b1.s_mul(x0).s_sub(
            f.coeffs.a1.s_mul(f.output(x0)),
        ).s_add(f.coeffs.b0.s_mul(x1)),
{
    lemma_add_zero(f.coeffs.b0.s_mul(x0));
    lemma_add_zero(f.coeffs.b1.s_mul(x0));
}

/// `(x + y) + (x - y) = 2x` and `(x + y) - (x - y) = 2y`.
proof fn lemma_sum_and_difference<T: PrcFmt>(x: T, y: T)
    requires
        is_real::<T>(),
    ensures
        x.s_add(y).s_add(x.s_sub(y)) == x.s_add(x),
        x.s_add(y).s_sub(x.s_sub(y)) == y.s_add(y),
{
    lemma_sub_is_add_neg(x, y);
    lemma_pairs(x, y, x, y.s_neg());
    lemma_add_zero(x.s_add(x));
    let d = x.s_sub(y);
    lemma_negatives(x, y);
    lemma_sub_is_add_neg(x.s_add(y), d);
    lemma_sub_is_add_neg(y, x);
    lemma_sub_is_add_neg(x, x);
    lemma_sub_is_add_neg(y, y);
    // -(x - y) is y - x.
    assert(d.s_neg() == y.s_add(x.s_neg()));
    lemma_pairs(x, y, x.s_neg(), y);
    assert(sums_commute(y, x.s_neg()));
    lemma_add_zero(y.s_add(y));
}

/// Quotients by one divisor: the sums of two and those with one.
proof fn lemma_quotients<T: PrcFmt>(a0: T, a: T, b: T, g: T)
    requires
        is_real::<T>(),
        a0 != s_zero::<T>(),
    ensures
        a.s_div(a0).s_add(b.s_div(a0)) == a.s_add(b).s_div(a0),
        a.s_div(a0).s_sub(b.s_div(a0)) == a.s_sub(b).s_div(a0),
        s_one::<T>().s_add(a.s_div(a0)) == a0.s_add(a).s_div(a0),
        s_one::<T>().s_sub(a.s_div(a0)) == a0.s_sub(a).s_div(a0),
        g.s_mul(a.s_div(a0)) == g.s_mul(a).s_div(a0),
{
    lemma_div_spreads(a, b, a0);
    lemma_div_spreads(a0, a, a0);
    lemma_div_spreads(g, a, a0);
}

/// The tangent that a section turns at: that of `pi f / fs`.
pub proof fn lemma_warped<T: PrcFmt>(fs: int, freq: T)
    requires
        is_real::<T>(),
        fs > 0,
    ensures
        warped(fs, freq) == T::s_pi().s_mul(freq).s_div(T::s_int(fs)).s_tan(),
{
    let two = T::s_int(2);
    let rate = T::s_int(fs);
    let p = T::s_pi().s_mul(freq);
    lemma_integers::<T>(2, 0);
    lemma_integers::<T>(fs, 0);
    lemma_mul_moves(two, T::s_pi(), freq);
    lemma_div_spreads(two, p, rate);
    lemma_mul_moves(two, p.s_div(rate), two);
    lemma_div_is(two.s_mul(p.s_div(rate)), two, p.s_div(rate));
}

/// The amplitude that shelves are made from squares to the shelf gain: `10^(g/20)`.
pub proof fn lemma_shelf_amplitude<T: PrcFmt>(gain: T)
    requires
        is_real::<T>(),
    ensures
        shelf_amplitude(gain).s_mul(shelf_amplitude(gain)) == T::s_int(10).s_pow(
            gain.s_div(T::s_int(20)),
        ),
        s_zero::<T>().s_lt(shelf_amplitude(gain)),
{
    let ten = T::s_int(10);
    let forty = T::s_int(40);
    let twenty = T::s_int(20);
    let two = T::s_int(2);
    let h = gain.s_div(forty);
    lemma_integers::<T>(40, 0);
    lemma_integers::<T>(20, 0);
    lemma_integers::<T>(0, 10);
    lemma_integers::<T>(2, 20);
    lemma_integers::<T>(1, 1);
    assert(powers_multiply(ten, h, h));
    lemma_div_mul(gain, forty);
    lemma_mul_spreads(h, s_one(), s_one());
    lemma_mul_units(h);
    assert(h.s_add(h) == h.s_mul(two));
    lemma_mul_moves(h, two, twenty);
    lemma_div_is(gain, twenty, h.s_add(h));
}

/// A first-order highpass lets nothing through at DC and everything at the Nyquist frequency, and
/// turns at `tan(pi f / fs)`.
pub proof fn lemma_highpass<T: PrcFmt>(fs: int, freq: T)
    requires
        is_real::<T>(),
        fs > 0,
        s_one::<T>().s_add(T::s_pi().s_mul(freq).s_div(T::s_int(fs)).s_tan()) != s_zero::<T>(),
    ensures
        ({
            let c = coefficients_of(fs, BiquadParameters::HighpassFO { freq });
            let one = s_one::<T>();
            &&& c.b0.s_add(c.b1) == s_zero::<T>()
            &&& c.b0.s_sub(c.b1) == one.s_sub(c.a1)
            &&& one.s_add(c.a1) == T::s_pi().s_mul(freq).s_div(T::s_int(fs)).s_tan().s_mul(
                one.s_sub(c.a1),
            )
            &&& c.b2 == s_zero::<T>() && c.a2 == s_zero::<T>()
        }),
{
    let c = coefficients_of(fs, BiquadParameters::HighpassFO { freq });
    let one = s_one::<T>();
    let k = T::s_pi().s_mul(freq).s_div(T::s_int(fs)).s_tan();
    let alpha = one.s_add(k);
    lemma_warped(fs, freq);
    let up = one.s_sub(k);
    let a1 = k.s_sub(one);
    // -(1 - k) / (1 + k) is (k - 1) / (1 + k).
    lemma_negatives(one, k);
    lemma_div_mul(up, alpha);
    lemma_mul_neg(up.s_div(alpha), alpha);
    lemma_div_is(a1, alpha, up.s_div(alpha).s_neg());
    assert(c.a1 == a1.s_div(alpha));
    lemma_quotients(alpha, one, one.s_neg(), one);
    lemma_quotients(alpha, a1, a1, one);
    lemma_sub_is_add_neg(one, one);
    lemma_div_spreads(one, one, alpha);
    lemma_sub_is_add_neg(one, one.s_neg());
    lemma_negatives(one, one);
    // (1 + k) + (k - 1) = 2k and (1 + k) - (k - 1) = 2.
    assert(sums_commute(one, k));
    lemma_sum_and_difference(k, one);
    let two = one.s_add(one);
    lemma_quotients(alpha, two, two, k);
    lemma_mul_spreads(k, one, one);
    lemma_mul_units(k);
}

/// A first-order high shelf leaves DC alone and raises the Nyquist frequency by its gain in
/// decibels; it turns at `10^(g/40) tan(pi f / fs)`.
pub proof fn lemma_high_shelf<T: PrcFmt>(fs: int, freq: T, gain: T)
    requires
        is_real::<T>(),
        fs > 0,
        T::s_int(10).s_pow(gain.s_div(T::s_int(40))).s_mul(
            T::s_pi().s_mul(freq).s_div(T::s_int(fs)).s_tan(),
        ).s_add(s_one()) != s_zero::<T>(),
    ensures
        ({
            let c = coefficients_of(fs, BiquadParameters::HighshelfFO { freq, gain });
            let one = s_one::<T>();
            &&& c.b0.s_add(c.b1) == one.s_add(c.a1)
            &&& c.b0.s_sub(c.b1) == T::s_int(10).s_pow(gain.s_div(T::s_int(20))).s_mul(
                one.s_sub(c.a1),
            )
            &&& one.s_add(c.a1) == T::s_int(10).s_pow(gain.s_div(T::s_int(40))).s_mul(
                T::s_pi().s_mul(freq).s_div(T::s_int(fs)).s_tan(),
            ).s_mul(one.s_sub(c.a1))
            &&& c.b2 == s_zero::<T>() && c.a2 == s_zero::<T>()
        }),
{
    let one = s_one::<T>();
    let tn = T::s_pi().s_mul(freq).s_div(T::s_int(fs)).s_tan();
    let ampl = shelf_amplitude(gain);
    lemma_warped(fs, freq);
    lemma_shelf_amplitude(gain);
    let s = ampl.s_mul(tn);
    let q = ampl.s_mul(ampl);
    let a0 = s.s_add(one);
    lemma_sum_and_difference(s, one);
    lemma_sum_and_difference(s, q);
    lemma_quotients(a0, s.s_sub(one), s, q);
    lemma_quotients(a0, s.s_add(q), s.s_sub(q), q);
    let two = one.s_add(one);
    lemma_quotients(a0, two, two, q);
    lemma_quotients(a0, two, two, s);
    lemma_mul_spreads(q, one, one);
    lemma_mul_units(q);
    lemma_mul_spreads(s, one, one);
    lemma_mul_units(s);
    lemma_div_spreads(one, one, a0);
}

/// A first-order low shelf raises DC by its gain in decibels and leaves the Nyquist frequency
/// alone; it turns at `tan(pi f / fs) / 10^(g/40)`.
pub proof fn lemma_low_shelf<T: PrcFmt>(fs: int, freq: T, gain: T)
    requires
        is_real::<T>(),
        fs > 0,
        T::s_pi().s_mul(freq).s_div(T::s_int(fs)).s_tan().s_add(
            T::s_int(10).s_pow(gain.s_div(T::s_int(40))),
        ) != s_zero::<T>(),
    ensures
        ({
            let c = coefficients_of(fs, BiquadParameters::LowshelfFO { freq, gain });
            let one = s_one::<T>();
            &&& c.b0.s_add(c.b1) == T::s_int(10).s_pow(gain.s_div(T::s_int(20))).s_mul(
                one.s_add(c.a1),
            )
            &&& c.b0.s_sub(c.b1) == one.s_sub(c.a1)
            &&& T::s_int(10).s_pow(gain.s_div(T::s_int(40))).s_mul(one.s_add(c.a1))
                == T::s_pi().s_mul(freq).s_div(T::s_int(fs)).s_tan().s_mul(one.s_sub(c.a1))
            &&& c.b2 == s_zero::<T>() && c.a2 == s_zero::<T>()
        }),
{
    let one = s_one::<T>();
    let tn = T::s_pi().s_mul(freq).s_div(T::s_int(fs)).s_tan();
    let ampl = shelf_amplitude(gain);
    lemma_warped(fs, freq);
    lemma_shelf_amplitude(gain);
    let q = ampl.s_mul(ampl);
    let s = q.s_mul(tn);
    let a0 = tn.s_add(ampl);
    lemma_sum_and_difference(tn, ampl);
    lemma_sum_and_difference(s, ampl);
    lemma_quotients(a0, tn.s_sub(ampl), tn, q);
    lemma_quotients(a0, s.s_add(ampl), s.s_sub(ampl), q);
    lemma_quotients(a0, tn.s_add(tn), tn, q);
    lemma_quotients(a0, tn.s_add(tn), tn, ampl);
    lemma_quotients(a0, ampl.s_add(ampl), tn, tn);
    lemma_mul_spreads(q, tn, tn);
    lemma_mul_spreads(ampl, tn, tn);
    lemma_mul_spreads(tn, ampl, ampl);
    lemma_mul_moves(ampl, tn, tn);
    lemma_div_spreads(one, one, a0);
}

} // verus!
