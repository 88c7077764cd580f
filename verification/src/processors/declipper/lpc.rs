//! Linear prediction: autocorrelation and the Levinson-Durbin recursion.

use crate::arith::{s_one, s_zero};
use crate::prcfmt::PrcFmt;
use vstd::prelude::*;

verus! {

/// The first `n` products of `seg` with itself shifted by `k`, added up in order:
/// `seg[0] * seg[k] + .. + seg[n - 1] * seg[n - 1 + k]`.
pub open spec fn lag_sum<T: PrcFmt>(seg: Seq<T>, k: int, n: nat) -> T
    decreases n,
{
    if n == 0 {
        s_zero()
    } else {
        lag_sum(seg, k, (n - 1) as nat).s_add(seg[n - 1].s_mul(seg[n - 1 + k]))
    }
}

/// The autocorrelation of `seg` at lag `k`.
pub open spec fn autocorrelation_at<T: PrcFmt>(seg: Seq<T>, k: int) -> T {
    lag_sum(seg, k, (seg.len() - k) as nat)
}

/// The zero-lag value with a small white-noise floor added.
pub open spec fn with_noise_floor<T: PrcFmt>(r0: T) -> T {
    r0.s_mul(s_one::<T>().s_add(T::s_dec(1, 6))).s_add(T::s_dec(1, 12))
}

/// The autocorrelation of `seg` at lags `0..=order` laid over `r`, with the noise floor on lag zero.
pub open spec fn autocorrelation_over<T: PrcFmt>(seg: Seq<T>, order: int, r: Seq<T>) -> Seq<T> {
    Seq::new(
        r.len(),
        |k: int|
            if k == 0 {
                with_noise_floor(autocorrelation_at(seg, 0))
            } else if k <= order {
                autocorrelation_at(seg, k)
            } else {
                r[k]
            },
    )
}

/// Computes the autocorrelation (lags `0..=order`) of `seg` into `r`, with a small white-noise
/// floor added for numerical stability.
pub fn autocorrelation<T: PrcFmt>(seg: &[T], order: usize, r: &mut Vec<T>)
    requires
        order <= seg@.len(),
        old(r)@.len() > 0,
    ensures
        final(r)@ == autocorrelation_over(seg@, order as int, old(r)@),
{
    let mut k: usize = 0;
    while k < r.len() && k <= order
        invariant
            order <= seg@.len(),
            k <= order + 1,
            k <= r@.len(),
            r@.len() == old(r)@.len(),
            forall|j: int| 0 <= j < k ==> r@[j] == autocorrelation_at(seg@, j),
            forall|j: int| k <= j < r@.len() ==> r@[j] == old(r)@[j],
        decreases r@.len() - k,
    {
        let mut sum: T = T::of_int(0);
        let mut n: usize = 0;
        while n < seg.len() - k
            invariant
                k <= seg@.len(),
                n <= seg@.len() - k,
                sum == lag_sum(seg@, k as int, n as nat),
            decreases seg@.len() - k - n,
        {
            sum = sum.plus(seg[n].times(seg[n + k]));
            n += 1;
        }
        r[k] = sum;
        k += 1;
    }
    r[0] = r[0].times(T::of_int(1).plus(T::decimal(1, 6))).plus(T::decimal(1, 12));
    assert(r@ =~= autocorrelation_over(seg@, order as int, old(r)@));
}

/// `rc[d] = a[0] * a[d] + .. + a[order - d] * a[order]` for `d` in `0..=order`, laid over `rc`.
pub open spec fn coeff_autocorr_over<T: PrcFmt>(a: Seq<T>, order: int, rc: Seq<T>) -> Seq<T> {
    Seq::new(
        rc.len(),
        |d: int|
            if d <= order {
                lag_sum(a, d, (order - d + 1) as nat)
            } else {
                rc[d]
            },
    )
}

/// Deterministic autocorrelation of the LPC (whitening-filter) coefficients: the Toeplitz
/// coefficients of the Janssen normal-equation matrix.
pub fn coeff_autocorr<T: PrcFmt>(a: &[T], order: usize, rc: &mut Vec<T>)
    requires
        order < a@.len(),
        order < old(rc)@.len(),
    ensures
        final(rc)@ == coeff_autocorr_over(a@, order as int, old(rc)@),
{
    let mut d: usize = 0;
    while d <= order
        invariant
            order < a.len(),
            order < rc.len(),
            d <= order + 1,
            rc@.len() == old(rc)@.len(),
            forall|j: int| 0 <= j < d ==> rc@[j] == lag_sum(a@, j, (order - j + 1) as nat),
            forall|j: int| d <= j < rc@.len() ==> rc@[j] == old(rc)@[j],
        decreases order + 1 - d,
    {
        let mut s: T = T::of_int(0);
        let mut k: usize = 0;
        while k <= order - d
            invariant
                order < a@.len(),
                d <= order,
                k <= order - d + 1,
                s == lag_sum(a@, d as int, k as nat),
            decreases order - d + 1 - k,
        {
            s = s.plus(a[k].times(a[k + d]));
            k += 1;
        }
        rc[d] = s;
        d += 1;
    }
    assert(rc@ =~= coeff_autocorr_over(a@, order as int, old(rc)@));
}

/// `r[i] + a[1] * r[i - 1] + .. + a[j - 1] * r[i - j + 1]`: the numerator of the reflection
/// coefficient, for `j == i`.
pub open spec fn prediction_sum<T: PrcFmt>(r: Seq<T>, a: Seq<T>, i: int, j: int) -> T
    decreases j,
{
    if j <= 1 {
        r[i]
    } else {
        prediction_sum(r, a, i, j - 1).s_add(a[j - 1].s_mul(r[i - (j - 1)]))
    }
}

/// The reflection coefficient of stage `i`.
pub open spec fn reflection<T: PrcFmt>(r: Seq<T>, a: Seq<T>, i: int, err: T) -> T {
    prediction_sum(r, a, i, i).s_neg().s_div(err)
}

/// The model of order `i` that a model of order `i - 1` and reflection coefficient `k` give.
pub open spec fn raised<T: PrcFmt>(a: Seq<T>, i: int, k: T) -> Seq<T> {
    Seq::new(
        a.len(),
        |j: int|
            if 1 <= j < i {
                a[j].s_add(k.s_mul(a[i - j]))
            } else if j == i {
                k
            } else {
                a[j]
            },
    )
}

/// Stages `i..=order` of the Levinson-Durbin recursion, from the model `a` with residual `err`:
/// whether a model came out, and the coefficients.
pub open spec fn levinson_from<T: PrcFmt>(r: Seq<T>, order: int, i: int, a: Seq<T>, err: T) -> (
    bool,
    Seq<T>,
)
    decreases order + 1 - i,
{
    if i > order {
        (true, a)
    } else {
        let k = reflection(r, a, i, err);
        let next = err.s_mul(s_one::<T>().s_sub(k.s_mul(k)));
        if !k.s_finite() {
            (false, a)
        } else if next.s_le(s_zero()) {
            (true, raised(a, i, k))
        } else {
            levinson_from(r, order, i + 1, raised(a, i, k), next)
        }
    }
}

/// The model of order zero laid over `a`.
pub open spec fn white_model<T: PrcFmt>(a: Seq<T>, order: int) -> Seq<T> {
    Seq::new(
        a.len(),
        |j: int|
            if j == 0 {
                s_one()
            } else if j <= order {
                s_zero()
            } else {
                a[j]
            },
    )
}

/// The whole recursion on the autocorrelation `r`, with the coefficients laid over `a`.
pub open spec fn levinson_over<T: PrcFmt>(r: Seq<T>, order: int, a: Seq<T>) -> (bool, Seq<T>) {
    if r[0].s_le(s_zero()) || !r[0].s_finite() {
        (false, a)
    } else {
        levinson_from(r, order, 1, white_model(a, order), r[0])
    }
}

/// Levinson-Durbin recursion. On success `a[0..=order]` holds LPC coefficients with the convention
/// `x_hat[n] = -(a[1] * x[n - 1] + .. + a[order] * x[n - order])` and `a[0] = 1`. Returns false if
/// the signal is (near) silent and no model can be fit. A stage that leaves no positive residual
/// ends the recursion early with the lower-order model that was reached.
pub fn levinson<T: PrcFmt>(r: &[T], order: usize, a: &mut Vec<T>, tmp: &mut Vec<T>) -> (ok: bool)
    requires
        order < r@.len(),
        order < old(a)@.len(),
        order < old(tmp)@.len(),
    ensures
        (ok, final(a)@) == levinson_over(r@, order as int, old(a)@),
        final(a)@.len() == old(a)@.len(),
        final(tmp)@.len() == old(tmp)@.len(),
{
    let mut err: T = r[0];
    if err.le(T::of_int(0)) || !err.is_finite() {
        return false;
    }
    a[0] = T::of_int(1);
    let mut c: usize = 1;
    while c <= order
        invariant
            order < a.len(),
            1 <= c <= order + 1,
            a@.len() == old(a)@.len(),
            a@[0] == s_one::<T>(),
            forall|j: int| 1 <= j < c ==> a@[j] == s_zero::<T>(),
            forall|j: int| c <= j < a@.len() ==> a@[j] == old(a)@[j],
        decreases order + 1 - c,
    {
        a[c] = T::of_int(0);
        c += 1;
    }
    assert(a@ =~= white_model(old(a)@, order as int));
    let mut i: usize = 1;
    while i <= order
        invariant
            order < r@.len(),
            order < a.len(),
            order < tmp@.len(),
            1 <= i <= order + 1,
            a@.len() == old(a)@.len(),
            tmp@.len() == old(tmp)@.len(),
            levinson_from(r@, order as int, i as int, a@, err) == levinson_over(
                r@,
                order as int,
                old(a)@,
            ),
        decreases order + 1 - i,
    {
        let ghost a0 = a@;
        let mut acc: T = r[i];
        let mut j: usize = 1;
        while j < i
            invariant
                1 <= j <= i <= order,
                order < r@.len(),
                order < a@.len(),
                acc == prediction_sum(r@, a@, i as int, j as int),
            decreases i - j,
        {
            acc = acc.plus(a[j].times(r[i - j]));
            j += 1;
        }
        let k: T = acc.negated().over(err);
        if !k.is_finite() {
            return false;
        }
        let mut j: usize = 1;
        while j < i
            invariant
                1 <= j <= i <= order,
                order < a@.len(),
                order < tmp@.len(),
                tmp@.len() == old(tmp)@.len(),
                forall|q: int| 1 <= q < j ==> tmp@[q] == a@[q],
            decreases i - j,
        {
            tmp[j] = a[j];
            j += 1;
        }
        let mut j: usize = 1;
        while j < i
            invariant
                1 <= j <= i <= order,
                order < a@.len(),
                order < tmp@.len(),
                tmp@.len() == old(tmp)@.len(),
                a@.len() == a0.len(),
                forall|q: int| 1 <= q < i ==> tmp@[q] == a0[q],
                forall|q: int| 1 <= q < j ==> a@[q] == a0[q].s_add(k.s_mul(a0[i - q])),
                forall|q: int| 0 <= q < a@.len() && !(1 <= q < j) ==> a@[q] == a0[q],
            decreases i - j,
        {
            a[j] = tmp[j].plus(k.times(tmp[i - j]));
            j += 1;
        }
        a[i] = k;
        assert(a@ =~= raised(a0, i as int, k));
        err = err.times(T::of_int(1).minus(k.times(k)));
        if err.le(T::of_int(0)) {
            return true;
        }
        i += 1;
    }
    true
}

} // verus!
