//! Kaiser-windowed sinc prototypes.

use crate::arith::{filled, s_one, s_zero};
use crate::prcfmt::PrcFmt;
use vstd::prelude::*;

verus! {

/// The end of the power series for the Bessel function.
pub const BESSEL_TERMS: i64 = 50;

/// The power series of the Bessel function from its `k`-th term on, with `half_sq` the square of
/// half the argument, and the term before it and the sum up to it given. The series ends where a
/// term no longer contributes.
pub open spec fn bessel_from<T: PrcFmt>(half_sq: T, k: int, term: T, sum: T) -> T
    decreases BESSEL_TERMS - k,
{
    if k >= BESSEL_TERMS {
        sum
    } else {
        let next = term.s_mul(half_sq.s_div(T::s_int(k).s_mul(T::s_int(k))));
        let total = sum.s_add(next);
        if next.s_lt(T::s_dec(1, 18).s_mul(total)) {
            total
        } else {
            bessel_from(half_sq, k + 1, next, total)
        }
    }
}

/// The modified Bessel function of the first kind, order zero, by its power series.
pub open spec fn s_bessel_i0<T: PrcFmt>(x: T) -> T {
    let half = x.s_mul(T::s_dec(5, 1));
    bessel_from(half.s_mul(half), 1, s_one(), s_one())
}

/// Modified Bessel function of the first kind, order zero. Power-series approximation; converges
/// quickly for arguments up to about 16.
pub fn bessel_i0<T: PrcFmt>(x: T) -> (r: T)
    ensures
        r == s_bessel_i0(x),
{
    let mut sum: T = T::of_int(1);
    let mut term: T = T::of_int(1);
    let half: T = x.times(T::decimal(5, 1));
    let half_sq: T = half.times(half);
    let mut k: i64 = 1;
    while k < BESSEL_TERMS
        invariant
            1 <= k <= BESSEL_TERMS,
            s_bessel_i0(x) == bessel_from(half_sq, k as int, term, sum),
        decreases BESSEL_TERMS - k,
    {
        term = term.times(half_sq.over(T::of_int(k).times(T::of_int(k))));
        sum = sum.plus(term);
        if term.lt(T::decimal(1, 18).times(sum)) {
            return sum;
        }
        k += 1;
    }
    sum
}

/// The normalised sinc of `arg`, where `distance` counts half samples from the centre.
pub open spec fn s_sinc<T: PrcFmt>(distance: int, arg: T) -> T {
    if distance == 0 {
        s_one()
    } else {
        T::s_pi().s_mul(arg).s_sin().s_div(T::s_pi().s_mul(arg))
    }
}

/// The Kaiser window of shape `beta` at `at` samples from the centre of a window that reaches
/// `half` samples to either side.
pub open spec fn s_kaiser<T: PrcFmt>(at: T, half: T, beta: T) -> T {
    let share = at.s_div(half);
    s_bessel_i0(
        beta.s_mul(s_one::<T>().s_sub(share.s_mul(share)).s_max(s_zero()).s_sqrt()),
    ).s_div(s_bessel_i0(beta))
}

/// A length rounded up to odd.
pub open spec fn odd_len(len: int) -> int {
    if len % 2 == 0 {
        len + 1
    } else {
        len
    }
}

/// How far coefficient `n` lies from the centre of `len` coefficients, in half samples. The centre
/// falls between two coefficients where their number is even.
pub open spec fn from_centre(n: int, len: int) -> int {
    if 2 * n < len - 1 {
        len - 1 - 2 * n
    } else {
        2 * n - (len - 1)
    }
}

/// A number of half samples, in samples.
pub open spec fn s_halves<T: PrcFmt>(n: int) -> T {
    T::s_int(n).s_div(T::s_int(2))
}

/// Coefficient `n` of a Kaiser-windowed sinc of length `len`, where the sinc is sampled every
/// `spacing` and the whole is scaled by `gain`.
pub open spec fn windowed_sinc_at<T: PrcFmt>(n: int, len: int, spacing: T, gain: T, beta: T) -> T {
    let distance = from_centre(n, len);
    let at = s_halves::<T>(distance);
    gain.s_mul(s_sinc(distance, spacing.s_mul(at))).s_mul(s_kaiser(at, s_halves(len - 1), beta))
}

/// A Kaiser-windowed sinc of length `len`.
pub open spec fn windowed_sinc_of<T: PrcFmt>(len: int, spacing: T, gain: T, beta: T) -> Seq<T> {
    Seq::new(len as nat, |n: int| windowed_sinc_at(n, len, spacing, gain, beta))
}

/// Computes a Kaiser-windowed sinc of length `len`.
pub fn windowed_sinc<T: PrcFmt>(len: usize, spacing: T, gain: T, beta: T) -> (h: Vec<T>)
    requires
        0 < len <= i64::MAX,
    ensures
        h@ == windowed_sinc_of(len as int, spacing, gain, beta),
{
    let zero: T = T::of_int(0);
    let one: T = T::of_int(1);
    let two: T = T::of_int(2);
    let i0_beta: T = bessel_i0(beta);
    let half: T = T::of_int(len as i64 - 1).over(two);
    let mut h: Vec<T> = filled(len, zero);
    let mut n: usize = 0;
    while n < len
        invariant
            n <= len,
            0 < len <= i64::MAX,
            half == s_halves::<T>(len - 1),
            zero == s_zero::<T>(),
            one == s_one::<T>(),
            two == T::s_int(2),
            i0_beta == s_bessel_i0(beta),
            h@.len() == len,
            forall|j: int|
                0 <= j < n ==> #[trigger] h@[j] == windowed_sinc_at(
                    j,
                    len as int,
                    spacing,
                    gain,
                    beta,
                ),
        decreases len - n,
    {
        let before: i64 = n as i64;
        let behind: i64 = len as i64 - 1 - before;
        let distance: i64 = if before < behind {
            behind - before
        } else {
            before - behind
        };
        let at: T = T::of_int(distance).over(two);
        let arg: T = spacing.times(at);
        let sinc: T = if distance == 0 {
            one
        } else {
            T::pi().times(arg).sin().over(T::pi().times(arg))
        };
        let share: T = at.over(half);
        let win: T = bessel_i0(
            beta.times(one.minus(share.times(share)).max(zero).sqrt()),
        ).over(i0_beta);
        h[n] = gain.times(sinc).times(win);
        n += 1;
    }
    assert(h@ =~= windowed_sinc_of(len as int, spacing, gain, beta));
    h
}

/// A Kaiser-windowed sinc is symmetric about its centre, in every arithmetic: its phase is linear.
pub proof fn lemma_windowed_sinc_is_symmetric<T: PrcFmt>(
    n: int,
    len: int,
    spacing: T,
    gain: T,
    beta: T,
)
    requires
        0 <= n < len,
    ensures
        windowed_sinc_of(len, spacing, gain, beta)[len - 1 - n] == windowed_sinc_of(
            len,
            spacing,
            gain,
            beta,
        )[n],
{
    assert(from_centre(len - 1 - n, len) == from_centre(n, len));
}

/// The sum of the first `n` elements, from the left.
pub open spec fn sum_of<T: PrcFmt>(h: Seq<T>, n: int) -> T
    decreases n,
{
    if n <= 0 {
        s_zero()
    } else {
        sum_of(h, n - 1).s_add(h[n - 1])
    }
}

/// Adds up the elements of `h`.
pub fn sum<T: PrcFmt>(h: &Vec<T>) -> (r: T)
    ensures
        r == sum_of(h@, h@.len() as int),
{
    let mut acc: T = T::of_int(0);
    let mut i: usize = 0;
    while i < h.len()
        invariant
            i <= h@.len(),
            acc == sum_of(h@, i as int),
        decreases h@.len() - i,
    {
        acc = acc.plus(h[i]);
        i += 1;
    }
    acc
}

} // verus!
