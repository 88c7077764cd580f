//! What the prototype of the upsampler is designed for: where its passband ends, how wide its
//! transition is, and that it is an ideal lowpass under a window.

use crate::arith::{s_one, s_zero};
use crate::exact::is_exact;
use crate::prcfmt::PrcFmt;
use crate::reals::{
    choices_follow_order, is_real, lemma_add_zero, lemma_decimal, lemma_div_is, lemma_div_mul,
    lemma_div_spreads, lemma_integers, lemma_mul_cancel, lemma_mul_moves, lemma_mul_neg,
    lemma_mul_spreads, lemma_mul_units, lemma_one_half, lemma_order, lemma_sub_add, lemma_sub_is,
    lemma_sub_is_add_neg, power_of_ten, roots_have_signs, sine_vanishes,
};
use crate::utils::resampling::design::{
    prototype_cutoff, prototype_of, s_kaiser_beta, s_transition_width, scaled_lp, unscaled_lp,
};
use crate::utils::window::{from_centre, s_bessel_i0, s_halves, s_kaiser, s_sinc, sum_of};
use vstd::prelude::*;

verus! {

/// The transition is as wide as Kaiser's estimate for 140 dB says, and a tenth more: the width times
/// the number of coefficients is 1.1 times 132.05 over 14.36, whatever the number.
pub proof fn lemma_transition_width<T: PrcFmt>(len: int)
    requires
        is_real::<T>(),
        0 < len,
    ensures
        s_transition_width::<T>(len).s_mul(T::s_int(14360 * len)) == T::s_int(145255),
{
    let a = T::s_dec(11, 1);
    let b = T::s_int(140).s_sub(T::s_dec(795, 2));
    let c = T::s_dec(1436, 2);
    let n = T::s_int(len);
    let ten = T::s_int(10);
    let hundred = T::s_int(100);
    reveal_with_fuel(power_of_ten, 3);
    lemma_decimal::<T>(11, 1);
    lemma_decimal::<T>(795, 2);
    lemma_decimal::<T>(1436, 2);
    lemma_integers::<T>(0, 100);
    lemma_integers::<T>(140, 100);
    lemma_integers::<T>(14000, 795);
    lemma_mul_spreads(hundred, T::s_int(140), T::s_dec(795, 2));
    assert(b.s_mul(hundred) == T::s_int(13205));
    lemma_integers::<T>(1436, len);
    lemma_mul_moves(c, n, hundred);
    lemma_mul_moves(c, hundred, n);
    let d = c.s_mul(n);
    assert(d.s_mul(hundred) == T::s_int(1436 * len));
    lemma_integers::<T>(0, 1436 * len);
    lemma_mul_units(hundred);
    let w = a.s_mul(b).s_div(d);
    lemma_div_mul(a.s_mul(b), d);
    // The width times the divisor, both a thousand times as large.
    lemma_integers::<T>(1436 * len, 10);
    lemma_mul_moves(d, hundred, ten);
    assert(d.s_mul(hundred.s_mul(ten)) == T::s_int(14360 * len));
    lemma_mul_moves(w, d, hundred.s_mul(ten));
    lemma_mul_moves(a, b, hundred.s_mul(ten));
    lemma_mul_moves(b, hundred, ten);
    lemma_mul_moves(a, T::s_int(13205), ten);
    lemma_mul_moves(a, ten, T::s_int(13205));
    lemma_integers::<T>(11, 13205);
}

/// The passband ends where it should, for every number of taps and of branches: the -6 dB point of
/// the prototype, in units of the input rate, is one half (the source Nyquist) less half the width
/// of the transition, `1/2 - 145255 / (28720 * taps)`. The number of branches does not enter.
pub proof fn lemma_cutoff_in_units_of_the_input_rate<T: PrcFmt>(taps: int, oversampling: int)
    requires
        is_real::<T>(),
        0 < taps,
        0 < oversampling,
    ensures
        prototype_cutoff::<T>(taps, oversampling).s_mul(T::s_int(oversampling)).s_mul(
            T::s_int(28720 * taps),
        ) == T::s_int(14360 * taps - 145255),
        prototype_cutoff::<T>(taps, oversampling).s_mul(T::s_int(oversampling)).s_add(
            s_transition_width::<T>(taps * oversampling).s_mul(T::s_int(oversampling)).s_div(
                T::s_int(2),
            ),
        ) == T::s_dec(5, 1),
{
    let l = T::s_int(oversampling);
    let two = T::s_int(2);
    let half = T::s_dec(5, 1);
    let n = taps * oversampling;
    assert(0 < n) by (nonlinear_arith)
        requires
            0 < taps,
            0 < oversampling,
            n == taps * oversampling,
    ;
    let w = s_transition_width::<T>(n);
    lemma_transition_width::<T>(n);
    lemma_integers::<T>(0, oversampling);
    lemma_integers::<T>(0, 2);
    let x = half.s_div(l);
    let y = w.s_div(two);
    let cutoff = x.s_sub(y);
    lemma_div_mul(half, l);
    lemma_mul_spreads(l, x, y);
    let yl = y.s_mul(l);
    assert(cutoff.s_mul(l) == half.s_sub(yl));
    // Half the width, in units of the input rate.
    lemma_mul_moves(w, l, s_one());
    lemma_div_spreads(l, w, two);
    lemma_mul_moves(y, l, s_one());
    lemma_mul_moves(l, y, s_one());
    assert(w.s_mul(l).s_div(two) == yl);
    lemma_sub_add(half, yl);
    // The same with the divisors multiplied out.
    let m = T::s_int(28720 * taps);
    lemma_integers::<T>(2, 14360 * taps);
    lemma_mul_spreads(m, half, yl);
    lemma_one_half::<T>();
    lemma_mul_moves(half, two, T::s_int(14360 * taps));
    lemma_mul_units(T::s_int(14360 * taps));
    assert(half.s_mul(m) == T::s_int(14360 * taps));
    lemma_mul_moves(y, l, m);
    lemma_integers::<T>(oversampling, 28720 * taps);
    lemma_integers::<T>(2, 14360 * n);
    assert(oversampling * (28720 * taps) == 2 * (14360 * n)) by (nonlinear_arith)
        requires
            n == taps * oversampling,
    ;
    lemma_mul_moves(y, two, T::s_int(14360 * n));
    lemma_div_mul(w, two);
    assert(yl.s_mul(m) == T::s_int(145255));
    lemma_integers::<T>(14360 * taps, 145255);
}

/// The passband does not depend on the ratio: for the same number of taps, two upsamplers cut off at
/// the same share of the input rate.
pub proof fn lemma_cutoff_ignores_the_ratio<T: PrcFmt>(taps: int, one: int, other: int)
    requires
        is_real::<T>(),
        0 < taps,
        0 < one,
        0 < other,
    ensures
        prototype_cutoff::<T>(taps, one).s_mul(T::s_int(one)) == prototype_cutoff::<T>(
            taps,
            other,
        ).s_mul(T::s_int(other)),
{
    lemma_cutoff_in_units_of_the_input_rate::<T>(taps, one);
    lemma_cutoff_in_units_of_the_input_rate::<T>(taps, other);
    lemma_integers::<T>(0, 28720 * taps);
    lemma_mul_cancel(
        prototype_cutoff::<T>(taps, one).s_mul(T::s_int(one)),
        prototype_cutoff::<T>(taps, other).s_mul(T::s_int(other)),
        T::s_int(28720 * taps),
    );
}

/// The shape of the window follows Kaiser's formula where the attenuation is above 50 dB: a hundred
/// thousand times the shape is 11020 times the attenuation less 95874.
pub proof fn lemma_window_shape<T: PrcFmt>(attenuation: int)
    requires
        is_real::<T>(),
        50 < attenuation,
    ensures
        s_kaiser_beta(T::s_int(attenuation)).s_mul(T::s_int(100000)) == T::s_int(
            11020 * attenuation - 95874,
        ),
{
    let a = T::s_int(attenuation);
    lemma_integers::<T>(50, attenuation);
    let f = T::s_dec(1102, 4);
    let d = a.s_sub(T::s_dec(87, 1));
    reveal_with_fuel(power_of_ten, 5);
    lemma_decimal::<T>(1102, 4);
    lemma_decimal::<T>(87, 1);
    lemma_mul_spreads(T::s_int(10), a, T::s_dec(87, 1));
    lemma_integers::<T>(10, attenuation);
    lemma_integers::<T>(10 * attenuation, 87);
    assert(T::s_int(10).s_mul(d) == T::s_int(10 * attenuation - 87));
    lemma_integers::<T>(10000, 10);
    lemma_mul_moves(f, d, T::s_int(10000).s_mul(T::s_int(10)));
    lemma_mul_moves(d, T::s_int(10000), T::s_int(10));
    lemma_mul_moves(d, T::s_int(10), T::s_int(10000));
    lemma_mul_moves(f, T::s_int(10 * attenuation - 87), T::s_int(10000));
    lemma_mul_moves(f, T::s_int(10000), T::s_int(10 * attenuation - 87));
    lemma_integers::<T>(1102, 10 * attenuation - 87);
}

/// Every coefficient but the one in the middle is that of an ideal lowpass under the window: `k`
/// samples from the centre, `sin(2 pi cutoff k) / (pi k)` times the window.
pub proof fn lemma_lowpass_is_an_ideal_one_windowed<T: PrcFmt>(
    n: int,
    len: int,
    cutoff: T,
    attenuation_db: T,
)
    requires
        is_real::<T>(),
        0 <= n < len,
        2 * n != len - 1,
        T::s_pi().s_mul(T::s_int(2).s_mul(cutoff).s_mul(s_halves(from_centre(n, len))))
            != s_zero::<T>(),
    ensures
        ({
            let k = s_halves::<T>(from_centre(n, len));
            let w = s_kaiser(k, s_halves(len - 1), s_kaiser_beta(attenuation_db));
            unscaled_lp(len, cutoff, attenuation_db)[n].s_mul(T::s_pi().s_mul(k)) == T::s_pi().s_mul(
                T::s_int(2).s_mul(cutoff).s_mul(k),
            ).s_sin().s_mul(w)
        }),
{
    let distance = from_centre(n, len);
    let k = s_halves::<T>(distance);
    let w = s_kaiser(k, s_halves(len - 1), s_kaiser_beta(attenuation_db));
    let f = T::s_int(2).s_mul(cutoff);
    let pi = T::s_pi();
    let phase = pi.s_mul(f.s_mul(k));
    let s = phase.s_sin();
    let q = s.s_div(phase);
    assert(unscaled_lp(len, cutoff, attenuation_db)[n] == f.s_mul(q).s_mul(w));
    lemma_div_mul(s, phase);
    let pk = pi.s_mul(k);
    lemma_mul_moves(pi, f, k);
    assert(phase == f.s_mul(pk));
    lemma_mul_moves(f.s_mul(q), w, pk);
    lemma_mul_moves(f, q, pk);
    lemma_mul_moves(q, f, pk);
    assert(f.s_mul(q).s_mul(pk) == s);
}

/// A lowpass whose cutoff is one over `2 m` leaves the samples of the lower rate alone: its response
/// vanishes at every `m`-th coefficient from the centre.
pub proof fn lemma_lowpass_has_zeros<T: PrcFmt>(
    len: int,
    m: int,
    j: int,
    cutoff: T,
    attenuation_db: T,
    oversampling: int,
)
    requires
        is_real::<T>(),
        len % 2 == 1,
        0 < m,
        0 < j,
        m * j <= len / 2,
        cutoff.s_mul(T::s_int(2 * m)) == s_one::<T>(),
        T::s_pi() != s_zero::<T>(),
    ensures
        scaled_lp(len, cutoff, attenuation_db, oversampling)[len / 2 + m * j] == s_zero::<T>(),
        scaled_lp(len, cutoff, attenuation_db, oversampling)[len / 2 - m * j] == s_zero::<T>(),
{
    let d = m * j;
    assert(0 < d) by (nonlinear_arith)
        requires
            0 < m,
            0 < j,
            d == m * j,
    ;
    let two = T::s_int(2);
    assert(from_centre(len / 2 + d, len) == 2 * d && from_centre(len / 2 - d, len) == 2 * d);
    let k = s_halves::<T>(2 * d);
    lemma_integers::<T>(d, 2);
    lemma_integers::<T>(0, 2);
    lemma_div_is(T::s_int(2 * d), two, T::s_int(d));
    assert(k == T::s_int(d));
    let f = two.s_mul(cutoff);
    // The argument of the sinc is a whole number.
    lemma_integers::<T>(m, j);
    lemma_integers::<T>(2, m);
    lemma_mul_moves(cutoff, two, T::s_int(m));
    lemma_mul_moves(two, cutoff, T::s_int(m));
    lemma_mul_moves(f, T::s_int(m), T::s_int(j));
    lemma_mul_units(T::s_int(j));
    assert(f.s_mul(T::s_int(m)) == s_one::<T>());
    assert(f.s_mul(k) == T::s_int(j));
    assert(sine_vanishes::<T>(j));
    let phase = T::s_pi().s_mul(T::s_int(j));
    lemma_integers::<T>(0, j);
    assert(phase != s_zero::<T>()) by {
        if phase == s_zero::<T>() {
            lemma_mul_units(T::s_int(j));
            lemma_mul_cancel(T::s_pi(), s_zero(), T::s_int(j));
        }
    }
    lemma_div_spreads(phase, phase, phase);
    let sinc = s_sinc(2 * d, f.s_mul(k));
    assert(sinc == s_zero::<T>());
    lemma_mul_units(f);
    let w = s_kaiser(k, s_halves(len - 1), s_kaiser_beta(attenuation_db));
    lemma_mul_units(w);
    let h = unscaled_lp(len, cutoff, attenuation_db);
    assert(h[len / 2 + d] == s_zero::<T>() && h[len / 2 - d] == s_zero::<T>());
    let scale = T::s_int(oversampling).s_div(sum_of(h, h.len() as int));
    lemma_mul_units(scale);
}

/// The window is one in the middle and falls to one over the Bessel function of its shape at the
/// ends.
pub proof fn lemma_window_ends<T: PrcFmt>(half: T, beta: T)
    requires
        is_real::<T>(),
        half != s_zero::<T>(),
        s_bessel_i0(beta) != s_zero::<T>(),
    ensures
        s_kaiser(s_zero(), half, beta) == s_one::<T>(),
        s_kaiser(half, half, beta).s_mul(s_bessel_i0(beta)) == s_bessel_i0(s_zero::<T>()),
{
    let zero = s_zero::<T>();
    let one = s_one::<T>();
    lemma_div_spreads(half, half, half);
    lemma_mul_units(zero);
    lemma_mul_units(one);
    lemma_sub_is_add_neg(one, one);
    lemma_add_zero(one);
    lemma_sub_is(one, one, zero);
    lemma_integers::<T>(0, 1);
    one.lt_irreflexive();
    zero.lt_irreflexive();
    assert(choices_follow_order(one, zero) && choices_follow_order(zero, zero));
    lemma_order(zero, one, one);
    lemma_order(one, zero, one);
    assert(!one.s_lt(zero));
    assert(roots_have_signs(one));
    lemma_mul_units(beta);
    lemma_div_spreads(s_bessel_i0(beta), one, s_bessel_i0(beta));
    lemma_div_mul(s_bessel_i0(zero), s_bessel_i0(beta));
}

/// The Bessel function is even.
pub proof fn lemma_bessel_is_even<T: PrcFmt>(x: T)
    requires
        is_exact::<T>(),
    ensures
        s_bessel_i0(x.s_neg()) == s_bessel_i0(x),
{
    let h = T::s_dec(5, 1);
    lemma_mul_neg(x, h);
    let y = x.s_mul(h);
    lemma_mul_neg(y, y);
}

/// The ideal lowpass response with the cutoff `c`, `k` samples from its centre and times `pi k`,
/// under a Kaiser window of the shape `beta` that reaches `half` samples to either side.
pub open spec fn ideal_response<T: PrcFmt>(c: T, beta: T, half: T, k: T) -> T {
    T::s_pi().s_mul(T::s_int(2).s_mul(c).s_mul(k)).s_sin().s_mul(s_kaiser(k, half, beta))
}

/// The prototype is that response, scaled: of any two of its coefficients, neither in the middle,
/// each has its share. The cutoff `c` is the one that lies half a transition below the source
/// Nyquist, and the shape `beta` the one for 140 dB, 14.46926.
pub proof fn lemma_prototype_is_an_ideal_lowpass_windowed<T: PrcFmt>(
    taps: int,
    oversampling: int,
    c: T,
    beta: T,
    m: int,
    j: int,
)
    requires
        is_real::<T>(),
        0 < taps,
        0 < oversampling,
        c.s_mul(T::s_int(oversampling)).s_mul(T::s_int(28720 * taps)) == T::s_int(
            14360 * taps - 145255,
        ),
        beta.s_mul(T::s_int(100000)) == T::s_int(1446926),
        0 <= m <= taps * oversampling,
        0 <= j <= taps * oversampling,
        2 * m != taps * oversampling,
        2 * j != taps * oversampling,
        forall|n: int|
            0 <= n <= taps * oversampling && 2 * n != taps * oversampling ==> T::s_pi().s_mul(
                T::s_int(2).s_mul(c).s_mul(
                    #[trigger] s_halves(from_centre(n, taps * oversampling + 1)),
                ),
            ) != s_zero::<T>(),
    ensures
        ({
            let h = prototype_of::<T>(taps, oversampling);
            let half = s_halves::<T>(taps * oversampling);
            let a = s_halves::<T>(from_centre(m, taps * oversampling + 1));
            let b = s_halves::<T>(from_centre(j, taps * oversampling + 1));
            h[m].s_mul(T::s_pi().s_mul(a)).s_mul(ideal_response(c, beta, half, b)) == h[j].s_mul(
                T::s_pi().s_mul(b),
            ).s_mul(ideal_response(c, beta, half, a))
        }),
{
    let len = taps * oversampling + 1;
    let l = T::s_int(oversampling);
    lemma_cutoff_in_units_of_the_input_rate::<T>(taps, oversampling);
    lemma_integers::<T>(0, 28720 * taps);
    lemma_integers::<T>(0, oversampling);
    let cutoff = prototype_cutoff::<T>(taps, oversampling);
    lemma_mul_cancel(cutoff.s_mul(l), c.s_mul(l), T::s_int(28720 * taps));
    lemma_mul_cancel(cutoff, c, l);
    let att = T::s_int(140);
    lemma_window_shape::<T>(140);
    lemma_integers::<T>(0, 100000);
    lemma_mul_cancel(s_kaiser_beta(att), beta, T::s_int(100000));
    let u = unscaled_lp(len, c, att);
    let scale = T::s_int(oversampling).s_div(sum_of(u, u.len() as int));
    let h = prototype_of::<T>(taps, oversampling);
    assert(h[m] == u[m].s_mul(scale) && h[j] == u[j].s_mul(scale));
    let half = s_halves::<T>(taps * oversampling);
    let a = s_halves::<T>(from_centre(m, len));
    let b = s_halves::<T>(from_centre(j, len));
    lemma_lowpass_is_an_ideal_one_windowed(m, len, c, att);
    lemma_lowpass_is_an_ideal_one_windowed(j, len, c, att);
    let x = ideal_response(c, beta, half, a);
    let y = ideal_response(c, beta, half, b);
    let pa = T::s_pi().s_mul(a);
    let pb = T::s_pi().s_mul(b);
    assert(u[m].s_mul(pa) == x);
    assert(u[j].s_mul(pb) == y);
    lemma_mul_moves(u[m], scale, pa);
    lemma_mul_moves(u[j], scale, pb);
    assert(h[m].s_mul(pa) == x.s_mul(scale));
    assert(h[j].s_mul(pb) == y.s_mul(scale));
    lemma_mul_moves(x, scale, y);
    lemma_mul_moves(y, scale, x);
    lemma_mul_moves(x, y, scale);
}

} // verus!
