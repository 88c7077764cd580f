//! The window that the halfband filter is made with.

use crate::arith::{s_one, s_zero};
use crate::exact::is_exact;
use crate::filters::tubestage::halfband::{
    bessel_from, halfband_at, s_bessel_i0, s_kaiser_window, BESSEL_TERMS,
};
use crate::prcfmt::PrcFmt;
use crate::reals::{
    choices_follow_order, is_real, lemma_add_zero, lemma_div_is, lemma_div_mul, lemma_div_spreads,
    lemma_integers, lemma_mul_moves, lemma_mul_neg, lemma_mul_units, lemma_order, lemma_sub_is,
    lemma_sub_is_add_neg, roots_have_signs,
};
use vstd::prelude::*;

verus! {

proof fn lemma_series_ignores_signs<T: PrcFmt>(half: T, k: int, root: T, other: T, sum: T)
    requires
        is_exact::<T>(),
        1 <= k,
        T::s_int(k) != s_zero::<T>(),
        forall|j: int| 1 <= j ==> #[trigger] T::s_int(j) != s_zero::<T>(),
        other == root || other == root.s_neg(),
    ensures
        bessel_from(half.s_neg(), k, other, sum) == bessel_from(half, k, root, sum),
    decreases BESSEL_TERMS - k,
{
    if k < BESSEL_TERMS {
        let kk = T::s_int(k);
        let q = half.s_div(kk);
        lemma_div_mul(half, kk);
        lemma_mul_neg(q, kk);
        lemma_div_is(half.s_neg(), kk, q.s_neg());
        let next = root.s_mul(q);
        let mirrored = other.s_mul(q.s_neg());
        lemma_mul_neg(q, root);
        lemma_mul_neg(root, q);
        lemma_mul_moves(root, q, q);
        assert(mirrored == next || mirrored == next.s_neg());
        lemma_mul_neg(next, next);
        assert(T::s_int(k + 1) != s_zero::<T>());
        lemma_series_ignores_signs(half, k + 1, next, mirrored, sum.s_add(next.s_mul(next)));
    }
}

/// The Bessel function of the halfband stage is even.
pub proof fn lemma_stage_bessel_is_even<T: PrcFmt>(x: T)
    requires
        is_real::<T>(),
    ensures
        s_bessel_i0(x.s_neg()) == s_bessel_i0(x),
{
    let two = T::s_int(2);
    lemma_integers::<T>(2, 0);
    let h = x.s_div(two);
    lemma_div_mul(x, two);
    lemma_mul_neg(h, two);
    lemma_div_is(x.s_neg(), two, h.s_neg());
    assert forall|j: int| 1 <= j implies #[trigger] T::s_int(j) != s_zero::<T>() by {
        lemma_integers::<T>(j, 0);
    }
    lemma_series_ignores_signs(h, 1, s_one(), s_one(), s_one());
}

/// The window is one in the middle, and mirrors about it.
pub proof fn lemma_stage_window<T: PrcFmt>(n: int, length: int, beta: T)
    requires
        is_real::<T>(),
        length % 2 == 1,
        3 <= length,
        s_bessel_i0(beta) != s_zero::<T>(),
    ensures
        s_kaiser_window(length / 2, length, beta) == s_one::<T>(),
        s_kaiser_window(length - 1 - n, length, beta) == s_kaiser_window(n, length, beta),
{
    let zero = s_zero::<T>();
    let one = s_one::<T>();
    let two = T::s_int(2);
    let mid = length / 2;
    let c = T::s_int(length - 1).s_div(two);
    lemma_integers::<T>(2, 0);
    lemma_integers::<T>(mid, 2);
    lemma_integers::<T>(mid, 0);
    lemma_div_is(T::s_int(length - 1), two, T::s_int(mid));
    assert(c == T::s_int(mid));
    // In the middle.
    lemma_sub_is_add_neg(c, c);
    lemma_div_spreads(one, one, c);
    lemma_mul_units(zero);
    lemma_add_zero(one);
    lemma_sub_is(one, one, zero);
    lemma_integers::<T>(0, 1);
    assert(choices_follow_order(one, zero));
    lemma_order(zero, one, one);
    lemma_order(one, zero, one);
    assert(roots_have_signs(one));
    lemma_mul_units(beta);
    lemma_div_spreads(one, one, s_bessel_i0(beta));
    // On the other side.
    lemma_integers::<T>(n, mid);
    lemma_integers::<T>(length - 1 - n, mid);
    let a = T::s_int(n - mid);
    let b = T::s_int(length - 1 - n - mid);
    lemma_integers::<T>(n - mid, 0);
    assert(length - 1 - n - mid == -(n - mid));
    assert(b == a.s_neg());
    let q = a.s_div(c);
    lemma_div_mul(a, c);
    lemma_mul_neg(q, c);
    lemma_div_is(b, c, q.s_neg());
    lemma_mul_neg(q, q);
}

/// Every coefficient but the one in the middle is that of an ideal halfband filter under the
/// window: `m` samples from the centre, `sin(pi m / 2) / (pi m)` times the window. The one in the
/// middle is one half.
pub proof fn lemma_halfband_is_an_ideal_one_windowed<T: PrcFmt>(n: int, length: int, beta: T)
    requires
        is_real::<T>(),
        length % 2 == 1,
        3 <= length,
        s_bessel_i0(beta) != s_zero::<T>(),
        T::s_pi().s_mul(T::s_int(n - length / 2)) != s_zero::<T>() || n == length / 2,
    ensures
        n == length / 2 ==> halfband_at(n, length, beta) == T::s_dec(5, 1),
        n != length / 2 ==> halfband_at(n, length, beta).s_mul(
            T::s_pi().s_mul(T::s_int(n - length / 2)),
        ) == T::s_pi().s_mul(T::s_int(n - length / 2)).s_div(T::s_int(2)).s_sin().s_mul(
            s_kaiser_window(n, length, beta),
        ),
{
    lemma_stage_window(n, length, beta);
    lemma_mul_units(T::s_dec(5, 1));
    let m = n - length / 2;
    if m != 0 {
        let phase = T::s_pi().s_mul(T::s_int(m));
        let s = phase.s_div(T::s_int(2)).s_sin();
        let w = s_kaiser_window(n, length, beta);
        lemma_div_mul(s, phase);
        lemma_mul_moves(s.s_div(phase), w, phase);
        lemma_mul_moves(s.s_div(phase), phase, w);
    }
}

} // verus!
