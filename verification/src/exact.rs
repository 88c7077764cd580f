//! Exact arithmetic and finite sums.
//!
//! A format that rounds obeys few of the laws of arithmetic. Where an algorithm is to be shown to
//! compute what it is meant to but for rounding, these laws are assumed of the format. The laws of
//! the order are fewer, and rounding does not break them: fixed point obeys them all.

use crate::arith::{s_one, s_zero};
use crate::prcfmt::PrcFmt;
use vstd::prelude::*;

verus! {

/// Sums may be taken in any order.
pub open spec fn sums_commute<T: PrcFmt>(a: T, b: T) -> bool {
    a.s_add(b) == b.s_add(a)
}

/// Sums may be grouped in any way.
pub open spec fn sums_associate<T: PrcFmt>(a: T, b: T, c: T) -> bool {
    a.s_add(b).s_add(c) == a.s_add(b.s_add(c))
}

/// Zero adds nothing and its products are zero.
pub open spec fn zero_is_neutral<T: PrcFmt>(a: T) -> bool {
    &&& s_zero::<T>().s_add(a) == a
    &&& s_zero::<T>().s_mul(a) == s_zero::<T>()
}

/// Subtraction undoes addition, and a value and its negative cancel.
pub open spec fn difference_cancels<T: PrcFmt>(a: T, b: T) -> bool {
    &&& a.s_sub(b).s_add(b) == a
    &&& a.s_neg().s_add(a) == s_zero::<T>()
}

/// Products may be taken in any order.
pub open spec fn products_commute<T: PrcFmt>(a: T, b: T) -> bool {
    a.s_mul(b) == b.s_mul(a)
}

/// Products may be grouped in any way, and distribute over sums.
pub open spec fn products_distribute<T: PrcFmt>(a: T, b: T, c: T) -> bool {
    &&& a.s_mul(b).s_mul(c) == a.s_mul(b.s_mul(c))
    &&& a.s_mul(b.s_add(c)) == a.s_mul(b).s_add(a.s_mul(c))
}

/// Division by anything but zero undoes multiplication and is undone by it.
pub open spec fn quotient_cancels<T: PrcFmt>(a: T, b: T) -> bool {
    b != s_zero::<T>() ==> a.s_div(b).s_mul(b) == a && a.s_mul(b).s_div(b) == a
}

/// The square of a root is the value, and the root of what is above zero is not zero.
pub open spec fn root_squares<T: PrcFmt>(a: T) -> bool {
    !a.s_le(s_zero()) ==> a.s_sqrt().s_mul(a.s_sqrt()) == a && a.s_sqrt() != s_zero::<T>()
}

/// One is neutral in products, and zero does not lie above itself.
pub open spec fn one_is_neutral<T: PrcFmt>(a: T) -> bool {
    &&& s_one::<T>().s_mul(a) == a
    &&& s_zero::<T>().s_le(s_zero())
}

/// Integers add up to integers.
pub open spec fn integers_add<T: PrcFmt>(n: int, m: int) -> bool {
    T::s_int(n).s_add(T::s_int(m)) == T::s_int(n + m)
}

/// What compares equal is equal.
pub open spec fn equals_are_equal<T: PrcFmt>(a: T, b: T) -> bool {
    a.s_eq(b) ==> a == b
}

/// Whether a format computes exactly, as the real numbers do.
pub open spec fn is_exact<T: PrcFmt>() -> bool {
    &&& forall|a: T, b: T| #[trigger] sums_commute(a, b)
    &&& forall|a: T, b: T, c: T| #[trigger] sums_associate(a, b, c)
    &&& forall|a: T| #[trigger] zero_is_neutral(a)
    &&& forall|a: T, b: T| #[trigger] difference_cancels(a, b)
    &&& forall|a: T, b: T| #[trigger] products_commute(a, b)
    &&& forall|a: T, b: T, c: T| #[trigger] products_distribute(a, b, c)
    &&& forall|a: T, b: T| #[trigger] quotient_cancels(a, b)
    &&& forall|a: T| #[trigger] root_squares(a)
    &&& forall|a: T| #[trigger] one_is_neutral(a)
    &&& forall|n: int, m: int| #[trigger] integers_add::<T>(n, m)
    &&& forall|a: T, b: T| #[trigger] equals_are_equal(a, b)
}

// ------------------------------- Order -------------------------------

/// Any two values are ordered, and the order is transitive.
pub open spec fn order_is_total<T: PrcFmt>(a: T, b: T, c: T) -> bool {
    &&& a.s_lt(b) != b.s_le(a)
    &&& a.s_le(b) || b.s_le(a)
    &&& a.s_le(b) && b.s_le(c) ==> a.s_le(c)
}

/// Sums, products with what is not negative, and quotients by what is positive keep the order.
pub open spec fn operations_rise<T: PrcFmt>(a: T, b: T, c: T) -> bool {
    a.s_le(b) ==> {
        &&& c.s_add(a).s_le(c.s_add(b))
        &&& s_zero::<T>().s_le(c) ==> c.s_mul(a).s_le(c.s_mul(b))
        &&& s_zero::<T>().s_lt(c) ==> a.s_div(c).s_le(b.s_div(c))
    }
}

/// The exponential, the logarithm and powers keep the order.
pub open spec fn functions_rise<T: PrcFmt>(a: T, b: T, c: T) -> bool {
    a.s_le(b) ==> {
        &&& a.s_exp().s_le(b.s_exp())
        &&& s_zero::<T>().s_lt(a) ==> a.s_ln().s_le(b.s_ln())
        &&& s_zero::<T>().s_lt(a) && s_zero::<T>().s_le(c) ==> a.s_pow(c).s_le(b.s_pow(c))
    }
}

/// Exponentials and powers are not negative, and the logarithm of one is zero.
pub open spec fn functions_have_signs<T: PrcFmt>(a: T, c: T) -> bool {
    &&& s_zero::<T>().s_le(a.s_exp())
    &&& s_zero::<T>().s_lt(a) ==> s_zero::<T>().s_le(a.s_pow(c))
    &&& s_one::<T>().s_ln() == s_zero::<T>()
    &&& s_zero::<T>().s_lt(s_one())
    &&& s_one::<T>().s_add(s_zero()) == s_one::<T>()
    &&& s_zero::<T>().s_lt(c) ==> s_zero::<T>().s_div(c) == s_zero::<T>()
}

/// Whether the operations of a format keep the order, as those of the real numbers do.
pub open spec fn is_ordered<T: PrcFmt>() -> bool {
    &&& forall|a: T, b: T, c: T| #[trigger] order_is_total(a, b, c)
    &&& forall|a: T, b: T, c: T| #[trigger] operations_rise(a, b, c)
    &&& forall|a: T, b: T, c: T| #[trigger] functions_rise(a, b, c)
    &&& forall|a: T, c: T| #[trigger] functions_have_signs(a, c)
}

// ------------------------------- Finite sums -------------------------------

/// `f(lo) + .. + f(hi - 1)`.
pub open spec fn total<T: PrcFmt>(f: spec_fn(int) -> T, lo: int, hi: int) -> T
    decreases hi - lo,
{
    if hi <= lo {
        s_zero()
    } else {
        total(f, lo, hi - 1).s_add(f(hi - 1))
    }
}

/// Sums of equal terms are equal.
pub proof fn lemma_total_same<T: PrcFmt>(f: spec_fn(int) -> T, g: spec_fn(int) -> T, lo: int, hi: int)
    requires
        forall|c: int| lo <= c < hi ==> #[trigger] f(c) == g(c),
    ensures
        total(f, lo, hi) == total(g, lo, hi),
    decreases hi - lo,
{
    if lo < hi {
        lemma_total_same(f, g, lo, hi - 1);
    }
}

/// A sum of zeros is zero.
pub proof fn lemma_total_zero<T: PrcFmt>(f: spec_fn(int) -> T, lo: int, hi: int)
    requires
        is_exact::<T>(),
        forall|c: int| lo <= c < hi ==> #[trigger] f(c) == s_zero::<T>(),
    ensures
        total(f, lo, hi) == s_zero::<T>(),
    decreases hi - lo,
{
    if lo < hi {
        lemma_total_zero(f, lo, hi - 1);
        assert(zero_is_neutral(s_zero::<T>()));
    }
}

/// A sum splits anywhere.
pub proof fn lemma_total_split<T: PrcFmt>(f: spec_fn(int) -> T, lo: int, mid: int, hi: int)
    requires
        is_exact::<T>(),
        lo <= mid <= hi,
    ensures
        total(f, lo, hi) == total(f, lo, mid).s_add(total(f, mid, hi)),
    decreases hi - mid,
{
    let head = total(f, lo, mid);
    if mid == hi {
        assert(sums_commute(head, s_zero::<T>()));
        assert(zero_is_neutral(head));
    } else {
        lemma_total_split(f, lo, mid, hi - 1);
        assert(sums_associate(head, total(f, mid, hi - 1), f(hi - 1)));
    }
}

/// A sum of sums.
pub proof fn lemma_total_add<T: PrcFmt>(f: spec_fn(int) -> T, g: spec_fn(int) -> T, lo: int, hi: int)
    requires
        is_exact::<T>(),
    ensures
        total(|c: int| f(c).s_add(g(c)), lo, hi) == total(f, lo, hi).s_add(total(g, lo, hi)),
    decreases hi - lo,
{
    if lo < hi {
        lemma_total_add(f, g, lo, hi - 1);
        let a = total(f, lo, hi - 1);
        let b = total(g, lo, hi - 1);
        let x = f(hi - 1);
        let y = g(hi - 1);
        assert(sums_associate(a, b, x.s_add(y)));
        assert(sums_associate(b, x, y));
        assert(sums_commute(b, x));
        assert(sums_associate(x, b, y));
        assert(sums_associate(a, x, b.s_add(y)));
    } else {
        assert(zero_is_neutral(s_zero::<T>()));
    }
}

/// A factor moves in and out of a sum.
pub proof fn lemma_total_scale<T: PrcFmt>(k: T, f: spec_fn(int) -> T, lo: int, hi: int)
    requires
        is_exact::<T>(),
    ensures
        total(|c: int| k.s_mul(f(c)), lo, hi) == k.s_mul(total(f, lo, hi)),
    decreases hi - lo,
{
    if lo < hi {
        lemma_total_scale(k, f, lo, hi - 1);
        assert(products_distribute(k, total(f, lo, hi - 1), f(hi - 1)));
    } else {
        assert(products_commute(k, s_zero::<T>()));
        assert(zero_is_neutral(k));
    }
}

/// Two sums may be exchanged.
pub proof fn lemma_total_swap<T: PrcFmt>(f: spec_fn(int, int) -> T, n: int, m: int)
    requires
        is_exact::<T>(),
        0 <= n,
        0 <= m,
    ensures
        total(|i: int| total(|j: int| f(i, j), 0, m), 0, n) == total(
            |j: int| total(|i: int| f(i, j), 0, n),
            0,
            m,
        ),
    decreases n,
{
    let outer = |i: int| total(|j: int| f(i, j), 0, m);
    let inner = |j: int| total(|i: int| f(i, j), 0, n);
    if n == 0 {
        lemma_total_zero(inner, 0, m);
    } else {
        lemma_total_swap(f, n - 1, m);
        let before = |j: int| total(|i: int| f(i, j), 0, n - 1);
        let last = |j: int| f(n - 1, j);
        let both = |j: int| before(j).s_add(last(j));
        lemma_total_add(before, last, 0, m);
        assert(total(both, 0, m) == total(before, 0, m).s_add(total(last, 0, m)));
        assert forall|j: int| 0 <= j < m implies #[trigger] inner(j) == both(j) by {}
        lemma_total_same(inner, both, 0, m);
        let row = |j: int| f(n - 1, j);
        lemma_total_same(row, last, 0, m);
        assert(outer(n - 1) == total(row, 0, m));
    }
}

/// A sum may be taken from its other end.
pub proof fn lemma_total_reverse<T: PrcFmt>(f: spec_fn(int) -> T, n: int)
    requires
        is_exact::<T>(),
        0 <= n,
    ensures
        total(|c: int| f(n - 1 - c), 0, n) == total(f, 0, n),
    decreases n,
{
    let back = |c: int| f(n - 1 - c);
    if n > 0 {
        let tail = |c: int| f(c + 1);
        lemma_total_shift(f, 0, n - 1);
        lemma_total_reverse(tail, n - 1);
        let inner = |c: int| tail(n - 1 - 1 - c);
        assert forall|c: int| 0 <= c < n - 1 implies #[trigger] back(c) == inner(c) by {}
        lemma_total_same(back, inner, 0, n - 1);
        lemma_total_split(f, 0, 1, n);
        assert(total(f, 0, 0) == s_zero::<T>());
        assert(zero_is_neutral(f(0)));
        assert(total(f, 0, 1) == f(0));
        assert(sums_commute(f(0), total(f, 1, n)));
        assert(back(n - 1) == f(0));
    }
}

/// A sum with its terms numbered one less.
pub proof fn lemma_total_shift<T: PrcFmt>(f: spec_fn(int) -> T, lo: int, hi: int)
    ensures
        total(|c: int| f(c + 1), lo, hi) == total(f, lo + 1, hi + 1),
    decreases hi - lo,
{
    if lo < hi {
        lemma_total_shift(f, lo, hi - 1);
    }
}

} // verus!
