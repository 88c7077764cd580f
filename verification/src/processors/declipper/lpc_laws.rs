//! What the Levinson-Durbin recursion computes where arithmetic is exact: the solution of the
//! Yule-Walker equations.

use crate::arith::{s_one, s_zero};
use crate::exact::{
    difference_cancels, is_exact, lemma_total_add, lemma_total_reverse, lemma_total_same,
    lemma_total_scale, one_is_neutral, products_commute, products_distribute, quotient_cancels,
    sums_associate, sums_commute, total, zero_is_neutral,
};
use crate::prcfmt::PrcFmt;
use crate::processors::declipper::lpc::{
    levinson_from, levinson_over, prediction_sum, raised, reflection, white_model,
};
use vstd::prelude::*;

verus! {

/// The distance of two lags.
pub open spec fn lag(i: int, k: int) -> int {
    if i <= k {
        k - i
    } else {
        i - k
    }
}

/// The terms `a[k] * r[|i - k|]`.
pub open spec fn lag_terms<T: PrcFmt>(r: Seq<T>, a: Seq<T>, i: int) -> spec_fn(int) -> T {
    |k: int| a[k].s_mul(r[lag(i, k)])
}

/// The correlation that a model of order `m` leaves at lag `i`.
pub open spec fn left_at<T: PrcFmt>(r: Seq<T>, a: Seq<T>, m: int, i: int) -> T {
    total(lag_terms(r, a, i), 0, m + 1)
}

/// Whether `a` is a model of order `m`, with zeros up to `order`, that leaves no correlation at the
/// lags `1..=m` and the residual `err` at lag zero: the Yule-Walker equations.
pub open spec fn solves_yule_walker<T: PrcFmt>(
    r: Seq<T>,
    a: Seq<T>,
    order: int,
    m: int,
    err: T,
) -> bool {
    &&& 0 <= m <= order < a.len()
    &&& a[0] == s_one::<T>()
    &&& forall|k: int| m < k <= order ==> #[trigger] a[k] == s_zero::<T>()
    &&& forall|i: int| 1 <= i <= m ==> #[trigger] left_at(r, a, m, i) == s_zero::<T>()
    &&& left_at(r, a, m, 0) == err
}

/// A further coefficient of zero changes nothing.
proof fn lemma_left_longer<T: PrcFmt>(r: Seq<T>, a: Seq<T>, m: int, i: int)
    requires
        is_exact::<T>(),
        0 <= m,
        a[m + 1] == s_zero::<T>(),
    ensures
        left_at(r, a, m + 1, i) == left_at(r, a, m, i),
{
    let v = r[lag(i, m + 1)];
    let s = left_at(r, a, m, i);
    assert(zero_is_neutral(v));
    assert(sums_commute(s, s_zero::<T>()));
    assert(zero_is_neutral(s));
}

/// The numerator of the reflection coefficient is the correlation left at the next lag.
proof fn lemma_prediction_sum<T: PrcFmt>(r: Seq<T>, a: Seq<T>, i: int, j: int)
    requires
        is_exact::<T>(),
        1 <= j <= i,
        a[0] == s_one::<T>(),
    ensures
        prediction_sum(r, a, i, j) == total(lag_terms(r, a, i), 0, j),
    decreases j,
{
    let f = lag_terms(r, a, i);
    if j == 1 {
        assert(total(f, 0, 0) == s_zero::<T>());
        assert(one_is_neutral(r[i]));
        assert(f(0) == r[i]);
        assert(zero_is_neutral(r[i]));
    } else {
        lemma_prediction_sum(r, a, i, j - 1);
    }
}

/// What a model raised by one order leaves: what the lower one leaves at the lag, and the
/// reflection coefficient times what it leaves at the mirrored lag.
proof fn lemma_left_by_raised<T: PrcFmt>(r: Seq<T>, a: Seq<T>, i: int, k: T, n: int)
    requires
        is_exact::<T>(),
        1 <= i < a.len(),
        a[0] == s_one::<T>(),
        a[i] == s_zero::<T>(),
        0 <= n <= i,
    ensures
        left_at(r, raised(a, i, k), i, n) == left_at(r, a, i - 1, n).s_add(
            k.s_mul(left_at(r, a, i - 1, i - n)),
        ),
{
    let b = raised(a, i, k);
    let f = lag_terms(r, b, n);
    let here = lag_terms(r, a, n);
    let there = lag_terms(r, a, i - n);
    let mirrored = |c: int| there(i + 1 - 1 - c);
    let scaled = |c: int| k.s_mul(mirrored(c));
    let both = |c: int| here(c).s_add(scaled(c));
    assert forall|c: int| 0 <= c < i + 1 implies #[trigger] f(c) == both(c) by {
        let v = r[lag(n, c)];
        assert(lag(i - n, i - c) == lag(n, c));
        assert(mirrored(c) == a[i - c].s_mul(v));
        assert(b[c] == a[c].s_add(k.s_mul(a[i - c]))) by {
            if c == 0 {
                assert(products_commute(k, s_zero::<T>()));
                assert(zero_is_neutral(k));
                assert(sums_commute(a[0], s_zero::<T>()));
                assert(zero_is_neutral(a[0]));
            } else if c == i {
                assert(products_commute(k, s_one::<T>()));
                assert(one_is_neutral(k));
                assert(zero_is_neutral(k));
            }
        }
        let x = k.s_mul(a[i - c]);
        assert(products_commute(a[c].s_add(x), v));
        assert(products_distribute(v, a[c], x));
        assert(products_commute(v, a[c]));
        assert(products_commute(v, x));
        assert(products_distribute(k, a[i - c], v));
    }
    lemma_total_same(f, both, 0, i + 1);
    lemma_total_add(here, scaled, 0, i + 1);
    lemma_total_scale(k, mirrored, 0, i + 1);
    lemma_total_reverse(there, i + 1);
    lemma_left_longer(r, a, i - 1, n);
    lemma_left_longer(r, a, i - 1, i - n);
}

/// A stage takes a solution to the solution of the next order.
proof fn lemma_stage<T: PrcFmt>(r: Seq<T>, a: Seq<T>, order: int, i: int, err: T)
    requires
        is_exact::<T>(),
        1 <= i <= order,
        solves_yule_walker(r, a, order, i - 1, err),
        !err.s_le(s_zero()),
    ensures
        ({
            let k = reflection(r, a, i, err);
            solves_yule_walker(
                r,
                raised(a, i, k),
                order,
                i,
                err.s_mul(s_one::<T>().s_sub(k.s_mul(k))),
            )
        }),
{
    let k = reflection(r, a, i, err);
    let b = raised(a, i, k);
    let zero = s_zero::<T>();
    let acc = left_at(r, a, i - 1, i);
    lemma_prediction_sum(r, a, i, i);
    assert(k == acc.s_neg().s_div(err));
    assert(one_is_neutral(err));
    assert(quotient_cancels(acc.s_neg(), err));
    let down = k.s_mul(err);
    assert(down == acc.s_neg());
    assert(difference_cancels(acc, acc));
    assert(sums_commute(acc, down));
    assert(acc.s_add(down) == zero);
    // No lag is left.
    assert forall|n: int| 1 <= n <= i implies #[trigger] left_at(r, b, i, n) == zero by {
        lemma_left_by_raised(r, a, i, k, n);
        if n < i {
            assert(left_at(r, a, i - 1, n) == zero);
            assert(left_at(r, a, i - 1, i - n) == zero);
            assert(products_commute(k, zero));
            assert(zero_is_neutral(k));
            assert(zero_is_neutral(zero));
        }
    }
    // The residual.
    lemma_left_by_raised(r, a, i, k, 0);
    let kk = k.s_mul(k);
    let w = s_one::<T>().s_sub(kk);
    let next = err.s_mul(w);
    let t = err.s_mul(kk);
    let up = k.s_mul(acc);
    assert(next.s_add(t) == err) by {
        assert(products_distribute(err, w, kk));
        assert(difference_cancels(s_one::<T>(), kk));
        assert(products_commute(err, s_one::<T>()));
    }
    assert(t.s_add(up) == zero) by {
        assert(products_commute(err, kk));
        assert(products_distribute(k, k, err));
        assert(products_distribute(k, down, acc));
        assert(sums_commute(down, acc));
        assert(products_commute(k, zero));
        assert(zero_is_neutral(k));
    }
    assert(err.s_add(up) == next) by {
        assert(sums_associate(next, t, up));
        assert(sums_commute(next, zero));
        assert(zero_is_neutral(next));
    }
    assert forall|c: int| i < c <= order implies #[trigger] b[c] == zero by {
        assert(a[c] == zero);
    }
}

/// Where a solution is carried on by the recursion, what comes out is a solution.
proof fn lemma_recursion<T: PrcFmt>(r: Seq<T>, order: int, i: int, a: Seq<T>, err: T)
    requires
        is_exact::<T>(),
        1 <= i <= order + 1,
        solves_yule_walker(r, a, order, i - 1, err),
        !err.s_le(s_zero()),
    ensures
        levinson_from(r, order, i, a, err).0 ==> exists|m: int, left: T|
            {
                &&& #[trigger] solves_yule_walker(
                    r,
                    levinson_from(r, order, i, a, err).1,
                    order,
                    m,
                    left,
                )
                &&& m < order ==> left.s_le(s_zero())
            },
    decreases order + 1 - i,
{
    let out = levinson_from(r, order, i, a, err);
    if i > order {
        assert(solves_yule_walker(r, out.1, order, order, err));
    } else {
        let k = reflection(r, a, i, err);
        let next = err.s_mul(s_one::<T>().s_sub(k.s_mul(k)));
        let b = raised(a, i, k);
        lemma_stage(r, a, order, i, err);
        if k.s_finite() {
            if next.s_le(s_zero()) {
                assert(solves_yule_walker(r, out.1, order, i, next));
            } else {
                lemma_recursion(r, order, i + 1, b, next);
                assert(out == levinson_from(r, order, i + 1, b, next));
            }
        }
    }
}

/// The model solves the Yule-Walker equations: where arithmetic is exact and the recursion
/// succeeds, the coefficients leave no correlation at any lag up to an order `m`, and are zero
/// above it. That order is the one asked for, unless a model without positive residual was reached
/// before.
pub proof fn lemma_levinson_solves_yule_walker<T: PrcFmt>(r: Seq<T>, order: int, a: Seq<T>)
    requires
        is_exact::<T>(),
        0 <= order < a.len(),
        order < r.len(),
        levinson_over(r, order, a).0,
    ensures
        exists|m: int, left: T|
            {
                &&& #[trigger] solves_yule_walker(r, levinson_over(r, order, a).1, order, m, left)
                &&& m < order ==> left.s_le(s_zero())
            },
{
    let start = white_model(a, order);
    let f = lag_terms(r, start, 0);
    assert(total(f, 0, 0) == s_zero::<T>());
    assert(one_is_neutral(r[0]));
    assert(f(0) == r[0]);
    assert(zero_is_neutral(r[0]));
    assert(left_at(r, start, 0, 0) == r[0]);
    assert(solves_yule_walker(r, start, order, 0, r[0]));
    lemma_recursion(r, order, 1, start, r[0]);
}

} // verus!
