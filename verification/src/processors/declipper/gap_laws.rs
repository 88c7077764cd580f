//! What the cubic reconstruction computes where arithmetic is exact.

use crate::arith::{s_one, s_zero};
use crate::exact::{
    difference_cancels, integers_add, is_exact, one_is_neutral, products_commute, quotient_cancels,
    sums_associate, sums_commute, zero_is_neutral,
};
use crate::prcfmt::PrcFmt;
use crate::processors::declipper::gap::cubic_at;
use vstd::prelude::*;

verus! {

/// A value less itself is zero.
proof fn lemma_self_difference<T: PrcFmt>(a: T)
    requires
        is_exact::<T>(),
    ensures
        a.s_sub(a) == s_zero::<T>(),
{
    let d = a.s_sub(a);
    assert(difference_cancels(a, a));
    assert(sums_associate(d, a, a.s_neg()));
    assert(sums_commute(a, a.s_neg()));
    assert(sums_commute(d, s_zero::<T>()));
    assert(zero_is_neutral(d));
}

/// The difference of two integers.
proof fn lemma_integer_difference<T: PrcFmt>(n: int, m: int)
    requires
        is_exact::<T>(),
    ensures
        T::s_int(n).s_sub(T::s_int(m)) == T::s_int(n - m),
{
    let d = T::s_int(n).s_sub(T::s_int(m));
    let neg = T::s_int(-m);
    assert(difference_cancels(T::s_int(n), T::s_int(m)));
    assert(sums_associate(d, T::s_int(m), neg));
    assert(integers_add::<T>(m, -m));
    assert(integers_add::<T>(n, -m));
    assert(sums_commute(d, s_zero::<T>()));
    assert(zero_is_neutral(d));
}

/// The cubic meets the good samples on both sides: carried on to the last sample before the gap and
/// the first behind it, it gives these samples.
pub proof fn lemma_cubic_meets_its_ends<T: PrcFmt>(buf: Seq<T>, s: int, e: int)
    requires
        is_exact::<T>(),
        T::s_int(e - s + 1) != s_zero::<T>(),
    ensures
        cubic_at(buf, s, e, s - 1) == buf[s - 1],
        cubic_at(buf, s, e, e) == buf[e],
{
    let zero = s_zero::<T>();
    let one = s_one::<T>();
    let two = T::s_int(2);
    let three = T::s_int(3);
    let span = T::s_int(e - s).s_add(one);
    let p0 = buf[s - 1];
    let p1 = buf[e];
    let m0 = buf[s - 1].s_sub(buf[s - 2]).s_mul(span);
    let m1 = buf[e + 1].s_sub(buf[e]).s_mul(span);
    assert(integers_add::<T>(e - s, 1));
    assert(zero_is_neutral(p0) && zero_is_neutral(p1) && zero_is_neutral(m0) && zero_is_neutral(m1));
    assert(one_is_neutral(p0) && one_is_neutral(p1));
    assert(zero_is_neutral(zero) && one_is_neutral(one) && zero_is_neutral(one));
    lemma_self_difference(zero);
    lemma_self_difference(one);
    // On the left the parameter is zero.
    assert(T::s_int(s - 1 - s).s_add(one) == zero) by {
        assert(integers_add::<T>(-1, 1));
    }
    assert(zero.s_div(span) == zero) by {
        assert(zero_is_neutral(span));
        assert(quotient_cancels(zero, span));
    }
    assert(zero.s_mul(zero) == zero);
    assert(two.s_mul(zero) == zero && three.s_mul(zero) == zero && T::s_int(-2).s_mul(zero) == zero)
        by {
        assert(products_commute(two, zero) && products_commute(three, zero));
        assert(products_commute(T::s_int(-2), zero));
        assert(zero_is_neutral(two) && zero_is_neutral(three) && zero_is_neutral(T::s_int(-2)));
    }
    assert(cubic_at(buf, s, e, s - 1) == p0) by {
        assert(sums_commute(p0, zero));
    }
    // On the right it is one.
    assert(span.s_div(span) == one) by {
        assert(one_is_neutral(span));
        assert(quotient_cancels(one, span));
    }
    assert(two.s_mul(one) == two && three.s_mul(one) == three && T::s_int(-2).s_mul(one)
        == T::s_int(-2)) by {
        assert(products_commute(two, one) && products_commute(three, one));
        assert(products_commute(T::s_int(-2), one));
        assert(one_is_neutral(two) && one_is_neutral(three) && one_is_neutral(T::s_int(-2)));
    }
    assert(two.s_sub(three).s_add(one) == zero) by {
        lemma_integer_difference::<T>(2, 3);
        assert(integers_add::<T>(-1, 1));
    }
    assert(one.s_sub(two).s_add(one) == zero) by {
        lemma_integer_difference::<T>(1, 2);
        assert(integers_add::<T>(-1, 1));
    }
    assert(T::s_int(-2).s_add(three) == one) by {
        assert(integers_add::<T>(-2, 3));
    }
    assert(cubic_at(buf, s, e, e) == p1) by {
        assert(sums_commute(p1, zero));
    }
}

} // verus!
