//! Arithmetic as the real numbers do it, and a little algebra in it.
//!
//! Where a law is about what a filter is meant to compute, and not about what rounding makes of it,
//! it is stated for a format that computes exactly, keeps the order, and whose elementary functions
//! obey their functional equations.

use crate::arith::{s_one, s_zero};
use crate::exact::{
    difference_cancels, integers_add, is_exact, is_ordered, one_is_neutral, operations_rise,
    order_is_total, products_commute, products_distribute, quotient_cancels, sums_associate,
    sums_commute, zero_is_neutral,
};
use crate::prcfmt::PrcFmt;
use vstd::prelude::*;

verus! {

/// A power of ten.
pub open spec fn power_of_ten(n: nat) -> int
    decreases n,
{
    if n == 0 {
        1
    } else {
        10 * power_of_ten((n - 1) as nat)
    }
}

/// The larger, the smaller and the magnitude are chosen by the order.
pub open spec fn choices_follow_order<T: PrcFmt>(a: T, b: T) -> bool {
    &&& a.s_max(b) == if a.s_lt(b) {
        b
    } else {
        a
    }
    &&& a.s_min(b) == if b.s_lt(a) {
        b
    } else {
        a
    }
    &&& a.s_abs() == if a.s_lt(s_zero()) {
        a.s_neg()
    } else {
        a
    }
}

/// Two values neither of which lies above the other are the same.
pub open spec fn order_separates<T: PrcFmt>(a: T, b: T) -> bool {
    a.s_le(b) && b.s_le(a) ==> a == b
}

/// Products of integers are integers, and integers are ordered as they are.
pub open spec fn integers_multiply<T: PrcFmt>(n: int, m: int) -> bool {
    &&& T::s_int(n).s_mul(T::s_int(m)) == T::s_int(n * m)
    &&& n < m <==> T::s_int(n).s_lt(T::s_int(m))
}

/// A decimal is its digits over a power of ten.
pub open spec fn decimals_scale<T: PrcFmt>(digits: int, places: nat) -> bool {
    T::s_dec(digits, places).s_mul(T::s_int(power_of_ten(places))) == T::s_int(digits)
}

/// Exponents add up where powers are multiplied.
pub open spec fn powers_multiply<T: PrcFmt>(base: T, x: T, y: T) -> bool {
    s_zero::<T>().s_lt(base) ==> {
        &&& base.s_pow(x.s_add(y)) == base.s_pow(x).s_mul(base.s_pow(y))
        &&& base.s_pow(s_one()) == base
        &&& s_zero::<T>().s_lt(base.s_pow(x))
    }
}

/// The exponential turns sums into products, and the logarithm undoes it and is undone by it.
pub open spec fn exponentials_multiply<T: PrcFmt>(x: T, y: T) -> bool {
    &&& x.s_add(y).s_exp() == x.s_exp().s_mul(y.s_exp())
    &&& s_zero::<T>().s_lt(x.s_exp())
    &&& x.s_exp().s_ln() == x
    &&& s_zero::<T>().s_lt(x) ==> x.s_ln().s_exp() == x
}

/// Logarithms add up where values are multiplied, and that of ten is one.
pub open spec fn logarithms_add<T: PrcFmt>(a: T, b: T) -> bool {
    &&& s_zero::<T>().s_lt(a) && s_zero::<T>().s_lt(b) ==> a.s_mul(b).s_log10() == a.s_log10().s_add(
        b.s_log10(),
    )
    &&& T::s_int(10).s_log10() == s_one::<T>()
}

/// The sine vanishes at every half turn.
pub open spec fn sine_vanishes<T: PrcFmt>(n: int) -> bool {
    T::s_pi().s_mul(T::s_int(n)).s_sin() == s_zero::<T>()
}

/// The roots of zero and one, and the sign of a root.
pub open spec fn roots_have_signs<T: PrcFmt>(a: T) -> bool {
    &&& s_zero::<T>().s_sqrt() == s_zero::<T>()
    &&& s_one::<T>().s_sqrt() == s_one::<T>()
    &&& s_zero::<T>().s_lt(a) ==> s_zero::<T>().s_lt(a.s_sqrt())
}

/// A square has the value as its root, where that is not negative.
pub open spec fn squares_have_roots<T: PrcFmt>(a: T) -> bool {
    s_zero::<T>().s_le(a) ==> a.s_mul(a).s_sqrt() == a
}

/// Whether a format computes as the real numbers do.
pub open spec fn is_real<T: PrcFmt>() -> bool {
    &&& is_exact::<T>()
    &&& is_ordered::<T>()
    &&& forall|a: T, b: T| #[trigger] choices_follow_order(a, b)
    &&& forall|a: T, b: T| #[trigger] order_separates(a, b)
    &&& forall|n: int, m: int| #[trigger] integers_multiply::<T>(n, m)
    &&& forall|digits: int, places: nat| #[trigger] decimals_scale::<T>(digits, places)
    &&& forall|base: T, x: T, y: T| #[trigger] powers_multiply(base, x, y)
    &&& forall|x: T, y: T| #[trigger] exponentials_multiply(x, y)
    &&& forall|a: T, b: T| #[trigger] logarithms_add(a, b)
    &&& forall|n: int| #[trigger] sine_vanishes::<T>(n)
    &&& forall|a: T| #[trigger] roots_have_signs(a)
    &&& forall|a: T| #[trigger] squares_have_roots(a)
}

// ------------------------------- Sums -------------------------------

/// Zero adds nothing on either side.
pub proof fn lemma_add_zero<T: PrcFmt>(a: T)
    requires
        is_exact::<T>(),
    ensures
        a.s_add(s_zero()) == a,
        s_zero::<T>().s_add(a) == a,
{
    assert(zero_is_neutral(a));
    assert(sums_commute(a, s_zero::<T>()));
}

/// What is added on both sides cancels.
pub proof fn lemma_cancel<T: PrcFmt>(a: T, b: T, c: T)
    requires
        is_exact::<T>(),
        a.s_add(c) == b.s_add(c),
    ensures
        a == b,
{
    let n = c.s_neg();
    assert(difference_cancels(c, c));
    assert(sums_commute(n, c));
    assert(sums_associate(a, c, n) && sums_associate(b, c, n));
    lemma_add_zero(a);
    lemma_add_zero(b);
}

/// A difference is what makes up for what is taken away.
pub proof fn lemma_sub_is<T: PrcFmt>(a: T, b: T, c: T)
    requires
        is_exact::<T>(),
        a == b.s_add(c),
    ensures
        a.s_sub(c) == b,
        a.s_sub(b) == c,
{
    assert(difference_cancels(a, c) && difference_cancels(a, b));
    lemma_cancel(a.s_sub(c), b, c);
    assert(sums_commute(b, c));
    lemma_cancel(a.s_sub(b), c, b);
}

/// A difference and what was taken away make up the whole.
pub proof fn lemma_sub_add<T: PrcFmt>(a: T, b: T)
    requires
        is_exact::<T>(),
    ensures
        a.s_sub(b).s_add(b) == a,
        b.s_add(a.s_sub(b)) == a,
{
    assert(difference_cancels(a, b));
    assert(sums_commute(a.s_sub(b), b));
}

/// To take away is to add the negative.
pub proof fn lemma_sub_is_add_neg<T: PrcFmt>(a: T, b: T)
    requires
        is_exact::<T>(),
    ensures
        a.s_sub(b) == a.s_add(b.s_neg()),
        b.s_add(b.s_neg()) == s_zero::<T>(),
        b.s_neg().s_add(b) == s_zero::<T>(),
        a.s_sub(a) == s_zero::<T>(),
        s_zero::<T>().s_sub(b) == b.s_neg(),
{
    let n = b.s_neg();
    assert(difference_cancels(b, b));
    assert(sums_commute(n, b));
    assert(sums_associate(a, n, b));
    lemma_add_zero(a);
    lemma_sub_is(a, a.s_add(n), b);
    lemma_sub_is(a, s_zero(), a);
    lemma_sub_is(s_zero(), n, b);
}

/// Four summands may be paired the other way.
pub proof fn lemma_pairs<T: PrcFmt>(a: T, b: T, c: T, d: T)
    requires
        is_exact::<T>(),
    ensures
        a.s_add(b).s_add(c.s_add(d)) == a.s_add(c).s_add(b.s_add(d)),
{
    assert(sums_associate(a, b, c.s_add(d)));
    assert(sums_associate(b, c, d));
    assert(sums_commute(b, c));
    assert(sums_associate(c, b, d));
    assert(sums_associate(a, c, b.s_add(d)));
}

/// The negative of a negative, of a sum and of a difference.
pub proof fn lemma_negatives<T: PrcFmt>(a: T, b: T)
    requires
        is_exact::<T>(),
    ensures
        a.s_neg().s_neg() == a,
        a.s_add(b).s_neg() == a.s_neg().s_add(b.s_neg()),
        a.s_sub(b).s_neg() == b.s_sub(a),
{
    lemma_sub_is_add_neg(a, a.s_neg());
    lemma_sub_is_add_neg(a, a);
    lemma_cancel(a.s_neg().s_neg(), a, a.s_neg());
    let s = a.s_add(b);
    let t = a.s_neg().s_add(b.s_neg());
    lemma_pairs(a.s_neg(), b.s_neg(), a, b);
    lemma_sub_is_add_neg(b, b);
    lemma_sub_is_add_neg(s, s);
    lemma_add_zero(s_zero::<T>());
    lemma_cancel(s.s_neg(), t, s);
    let d = a.s_sub(b);
    lemma_sub_is_add_neg(d, d);
    lemma_sub_is_add_neg(a, b);
    lemma_sub_is_add_neg(b, a);
    lemma_sub_is_add_neg(a, a);
    lemma_pairs(b, a.s_neg(), a, b.s_neg());
    assert(sums_commute(b, a));
    assert(b.s_sub(a).s_add(d) == s_zero::<T>()) by {
        lemma_pairs(b, a.s_neg(), b.s_neg(), a);
        assert(sums_commute(b.s_neg(), a));
    }
    lemma_cancel(d.s_neg(), b.s_sub(a), d);
}

// ------------------------------- Products -------------------------------

/// One and zero in products.
pub proof fn lemma_mul_units<T: PrcFmt>(a: T)
    requires
        is_exact::<T>(),
    ensures
        a.s_mul(s_one()) == a,
        s_one::<T>().s_mul(a) == a,
        a.s_mul(s_zero()) == s_zero::<T>(),
        s_zero::<T>().s_mul(a) == s_zero::<T>(),
{
    assert(one_is_neutral(a));
    assert(zero_is_neutral(a));
    assert(products_commute(a, s_one::<T>()));
    assert(products_commute(a, s_zero::<T>()));
}

/// Factors may be grouped and exchanged.
pub proof fn lemma_mul_moves<T: PrcFmt>(a: T, b: T, c: T)
    requires
        is_exact::<T>(),
    ensures
        a.s_mul(b) == b.s_mul(a),
        a.s_mul(b).s_mul(c) == a.s_mul(b.s_mul(c)),
        a.s_mul(b.s_mul(c)) == b.s_mul(a.s_mul(c)),
        a.s_mul(b).s_mul(c) == a.s_mul(c).s_mul(b),
{
    assert(products_commute(a, b) && products_commute(b, c));
    assert(products_distribute(a, b, c) && products_distribute(b, a, c) && products_distribute(
        a,
        c,
        b,
    ));
}

/// A factor distributes over sums and differences, from either side.
pub proof fn lemma_mul_spreads<T: PrcFmt>(a: T, b: T, c: T)
    requires
        is_exact::<T>(),
    ensures
        a.s_mul(b.s_add(c)) == a.s_mul(b).s_add(a.s_mul(c)),
        b.s_add(c).s_mul(a) == b.s_mul(a).s_add(c.s_mul(a)),
        a.s_mul(b.s_sub(c)) == a.s_mul(b).s_sub(a.s_mul(c)),
        b.s_sub(c).s_mul(a) == b.s_mul(a).s_sub(c.s_mul(a)),
{
    assert(products_distribute(a, b, c));
    assert(products_commute(a, b) && products_commute(a, c));
    assert(products_commute(a, b.s_add(c)));
    let d = b.s_sub(c);
    lemma_sub_add(b, c);
    assert(products_distribute(a, d, c));
    lemma_sub_is(a.s_mul(b), a.s_mul(d), a.s_mul(c));
    assert(products_commute(a, d));
}

/// The sign of a factor is the sign of the product.
pub proof fn lemma_mul_neg<T: PrcFmt>(a: T, b: T)
    requires
        is_exact::<T>(),
    ensures
        a.s_neg().s_mul(b) == a.s_mul(b).s_neg(),
        b.s_mul(a.s_neg()) == b.s_mul(a).s_neg(),
        a.s_neg().s_mul(b.s_neg()) == a.s_mul(b),
{
    lemma_sub_is_add_neg(a, a);
    lemma_mul_spreads(b, a.s_neg(), a);
    lemma_mul_units(b);
    let p = a.s_mul(b);
    lemma_sub_is_add_neg(p, p);
    lemma_cancel(a.s_neg().s_mul(b), p.s_neg(), p);
    lemma_mul_moves(a, b, b);
    lemma_mul_moves(a.s_neg(), b, b);
    // Both signs at once.
    lemma_sub_is_add_neg(b, b);
    let n = a.s_neg();
    lemma_mul_spreads(n, b.s_neg(), b);
    lemma_mul_units(n);
    lemma_sub_is_add_neg(p.s_neg(), p.s_neg());
    assert(n.s_mul(b) == p.s_neg());
    lemma_cancel(n.s_mul(b.s_neg()), p, p.s_neg());
}

// ------------------------------- Quotients -------------------------------

/// A quotient is what makes up the dividend with the divisor.
pub proof fn lemma_div_is<T: PrcFmt>(a: T, b: T, q: T)
    requires
        is_exact::<T>(),
        b != s_zero::<T>(),
        a == q.s_mul(b),
    ensures
        a.s_div(b) == q,
{
    assert(quotient_cancels(q, b));
}

/// A quotient times its divisor.
pub proof fn lemma_div_mul<T: PrcFmt>(a: T, b: T)
    requires
        is_exact::<T>(),
        b != s_zero::<T>(),
    ensures
        a.s_div(b).s_mul(b) == a,
        b.s_mul(a.s_div(b)) == a,
{
    assert(quotient_cancels(a, b));
    assert(products_commute(b, a.s_div(b)));
}

/// Quotients by the same divisor add up, and scale with the dividend.
pub proof fn lemma_div_spreads<T: PrcFmt>(a: T, b: T, c: T)
    requires
        is_exact::<T>(),
        c != s_zero::<T>(),
    ensures
        a.s_add(b).s_div(c) == a.s_div(c).s_add(b.s_div(c)),
        a.s_sub(b).s_div(c) == a.s_div(c).s_sub(b.s_div(c)),
        a.s_mul(b).s_div(c) == a.s_mul(b.s_div(c)),
        c.s_div(c) == s_one::<T>(),
        s_zero::<T>().s_div(c) == s_zero::<T>(),
{
    lemma_div_mul(a, c);
    lemma_div_mul(b, c);
    let x = a.s_div(c);
    let y = b.s_div(c);
    lemma_mul_spreads(c, x, y);
    lemma_div_is(a.s_add(b), c, x.s_add(y));
    lemma_div_is(a.s_sub(b), c, x.s_sub(y));
    lemma_mul_moves(a, y, c);
    lemma_div_is(a.s_mul(b), c, a.s_mul(y));
    lemma_mul_units(c);
    lemma_div_is(c, c, s_one());
    lemma_div_is(s_zero(), c, s_zero());
}

/// A factor other than zero cancels.
pub proof fn lemma_mul_cancel<T: PrcFmt>(a: T, b: T, c: T)
    requires
        is_exact::<T>(),
        c != s_zero::<T>(),
        a.s_mul(c) == b.s_mul(c),
    ensures
        a == b,
{
    assert(quotient_cancels(a, c) && quotient_cancels(b, c));
}

// ------------------------------- Integers -------------------------------

/// Integers add, multiply and are told apart.
pub proof fn lemma_integers<T: PrcFmt>(n: int, m: int)
    requires
        is_real::<T>(),
    ensures
        T::s_int(n).s_add(T::s_int(m)) == T::s_int(n + m),
        T::s_int(n).s_sub(T::s_int(m)) == T::s_int(n - m),
        T::s_int(n).s_mul(T::s_int(m)) == T::s_int(n * m),
        T::s_int(n).s_neg() == T::s_int(-n),
        n != m ==> T::s_int(n) != T::s_int(m),
        n < m <==> T::s_int(n).s_lt(T::s_int(m)),
{
    assert(integers_add::<T>(n, m));
    assert(integers_add::<T>(n - m, m));
    assert(integers_add::<T>(-n, n));
    assert(integers_multiply::<T>(n, m) && integers_multiply::<T>(m, n));
    T::s_int(n).lt_irreflexive();
    lemma_sub_is(T::s_int(n), T::s_int(n - m), T::s_int(m));
    lemma_sub_is_add_neg(T::s_int(n), T::s_int(n));
    lemma_cancel(T::s_int(n).s_neg(), T::s_int(-n), T::s_int(n));
}

/// A decimal times the power of ten behind it is its digits.
pub proof fn lemma_decimal<T: PrcFmt>(digits: int, places: nat)
    requires
        is_real::<T>(),
    ensures
        T::s_dec(digits, places).s_mul(T::s_int(power_of_ten(places))) == T::s_int(digits),
        T::s_int(power_of_ten(places)).s_mul(T::s_dec(digits, places)) == T::s_int(digits),
        0 < power_of_ten(places),
{
    assert(decimals_scale::<T>(digits, places));
    lemma_mul_moves(T::s_dec(digits, places), T::s_int(power_of_ten(places)), s_one());
    lemma_power_of_ten(places);
}

proof fn lemma_power_of_ten(n: nat)
    ensures
        0 < power_of_ten(n),
    decreases n,
{
    if n > 0 {
        lemma_power_of_ten((n - 1) as nat);
    }
}

/// One half is one half.
pub proof fn lemma_one_half<T: PrcFmt>()
    requires
        is_real::<T>(),
    ensures
        T::s_dec(5, 1).s_mul(T::s_int(2)) == s_one::<T>(),
        T::s_int(2).s_mul(T::s_dec(5, 1)) == s_one::<T>(),
        T::s_dec(5, 1).s_add(T::s_dec(5, 1)) == s_one::<T>(),
{
    let h = T::s_dec(5, 1);
    reveal_with_fuel(power_of_ten, 2);
    lemma_decimal::<T>(5, 1);
    lemma_integers::<T>(2, 5);
    lemma_integers::<T>(1, 5);
    lemma_integers::<T>(0, 5);
    lemma_mul_moves(h, T::s_int(2), T::s_int(5));
    lemma_mul_cancel(h.s_mul(T::s_int(2)), s_one(), T::s_int(5));
    lemma_mul_moves(h, T::s_int(2), s_one());
    lemma_integers::<T>(1, 1);
    lemma_mul_spreads(h, s_one(), s_one());
    lemma_mul_units(h);
}

// ------------------------------- Order -------------------------------

/// The order is total and agrees with itself.
pub proof fn lemma_order<T: PrcFmt>(a: T, b: T, c: T)
    requires
        is_real::<T>(),
    ensures
        a.s_lt(b) <==> !b.s_le(a),
        a.s_le(b) || b.s_le(a),
        a.s_le(a),
        a.s_lt(b) ==> a.s_le(b) && a != b,
        a.s_le(b) && b.s_le(c) ==> a.s_le(c),
        a.s_le(b) && b.s_le(a) ==> a == b,
        a.s_le(b) && a != b ==> a.s_lt(b),
{
    assert(order_is_total(a, b, c) && order_is_total(b, a, c) && order_is_total(a, a, a));
    assert(order_separates(a, b));
    a.lt_irreflexive();
}

/// Sums and products with what is not negative keep the order.
pub proof fn lemma_order_kept<T: PrcFmt>(a: T, b: T, c: T)
    requires
        is_real::<T>(),
        a.s_le(b),
    ensures
        c.s_add(a).s_le(c.s_add(b)),
        a.s_add(c).s_le(b.s_add(c)),
        a.s_sub(c).s_le(b.s_sub(c)),
        s_zero::<T>().s_le(b.s_sub(a)),
        s_zero::<T>().s_le(c) ==> c.s_mul(a).s_le(c.s_mul(b)),
        s_zero::<T>().s_le(c) ==> a.s_mul(c).s_le(b.s_mul(c)),
        s_zero::<T>().s_lt(c) ==> a.s_div(c).s_le(b.s_div(c)),
{
    assert(operations_rise(a, b, c));
    assert(operations_rise(a, b, c.s_neg()));
    assert(operations_rise(a, b, a.s_neg()));
    assert(sums_commute(c, a) && sums_commute(c, b));
    assert(sums_commute(c.s_neg(), a) && sums_commute(c.s_neg(), b));
    assert(sums_commute(a.s_neg(), b));
    lemma_sub_is_add_neg(a, c);
    lemma_sub_is_add_neg(b, c);
    lemma_sub_is_add_neg(b, a);
    lemma_sub_is_add_neg(a, a);
    assert(products_commute(c, a) && products_commute(c, b));
}

/// What is added to something that is not negative does not make it smaller.
pub proof fn lemma_add_not_below<T: PrcFmt>(a: T, b: T)
    requires
        is_real::<T>(),
        s_zero::<T>().s_le(b),
    ensures
        a.s_le(a.s_add(b)),
{
    lemma_order_kept(s_zero(), b, a);
    lemma_add_zero(a);
}

// ------------------------------- Levels -------------------------------

/// Twenty decibels more are ten times the amplitude.
pub proof fn lemma_twenty_decibels<T: PrcFmt>(db: T)
    requires
        is_real::<T>(),
    ensures
        T::s_int(10).s_pow(db.s_add(T::s_int(20)).s_div(T::s_int(20))) == T::s_int(10).s_mul(
            T::s_int(10).s_pow(db.s_div(T::s_int(20))),
        ),
        s_zero::<T>().s_lt(T::s_int(10).s_pow(db.s_div(T::s_int(20)))),
{
    let ten = T::s_int(10);
    let twenty = T::s_int(20);
    lemma_integers::<T>(0, 20);
    lemma_integers::<T>(0, 10);
    lemma_div_spreads(db, twenty, twenty);
    assert(powers_multiply(ten, db.s_div(twenty), s_one::<T>()));
    lemma_mul_moves(ten.s_pow(db.s_div(twenty)), ten, s_one());
}

/// 0 dB is an amplitude of one.
pub proof fn lemma_zero_decibels<T: PrcFmt>()
    requires
        is_real::<T>(),
    ensures
        T::s_int(10).s_pow(s_zero::<T>().s_div(T::s_int(20))) == s_one::<T>(),
{
    let ten = T::s_int(10);
    let twenty = T::s_int(20);
    let zero = s_zero::<T>();
    lemma_integers::<T>(0, 20);
    lemma_integers::<T>(0, 10);
    lemma_mul_units(twenty);
    lemma_div_is(zero, twenty, zero);
    lemma_add_zero(zero);
    assert(powers_multiply(ten, zero, zero));
    let p = ten.s_pow(zero);
    lemma_order(zero, p, zero);
    lemma_mul_units(p);
    lemma_mul_cancel(p, s_one(), p);
}

/// Ten times the amplitude is 20 dB more, and an amplitude of one is 0 dB.
pub proof fn lemma_level_of_tenfold<T: PrcFmt>(a: T)
    requires
        is_real::<T>(),
        s_zero::<T>().s_lt(a),
    ensures
        T::s_int(20).s_mul(T::s_int(10).s_mul(a).s_log10()) == T::s_int(20).s_mul(
            a.s_log10(),
        ).s_add(T::s_int(20)),
        s_one::<T>().s_log10() == s_zero::<T>(),
        T::s_int(20).s_mul(s_one::<T>().s_log10()) == s_zero::<T>(),
{
    let ten = T::s_int(10);
    let twenty = T::s_int(20);
    let one = s_one::<T>();
    lemma_integers::<T>(0, 10);
    lemma_integers::<T>(0, 1);
    assert(logarithms_add(ten, a));
    lemma_mul_spreads(twenty, one, a.s_log10());
    lemma_mul_units(twenty);
    assert(sums_commute(twenty, twenty.s_mul(a.s_log10())));
    assert(logarithms_add(one, one));
    lemma_mul_units(one);
    let z = one.s_log10();
    lemma_add_zero(z);
    lemma_cancel(z, s_zero(), z);
}

/// Products and quotients of positive values are positive.
pub proof fn lemma_positive<T: PrcFmt>(a: T, b: T)
    requires
        is_real::<T>(),
        s_zero::<T>().s_lt(a),
        s_zero::<T>().s_lt(b),
    ensures
        s_zero::<T>().s_lt(a.s_mul(b)),
        s_zero::<T>().s_lt(a.s_div(b)),
        a != s_zero::<T>(),
        a.s_mul(b) != s_zero::<T>(),
{
    let zero = s_zero::<T>();
    lemma_order(zero, a, zero);
    lemma_order(zero, b, zero);
    lemma_order_kept(zero, a, b);
    lemma_mul_units(b);
    let p = a.s_mul(b);
    if p == zero {
        lemma_mul_cancel(a, zero, b);
    }
    lemma_order(zero, p, zero);
    let q = a.s_div(b);
    lemma_div_mul(a, b);
    lemma_div_spreads(a, a, b);
    lemma_order(zero, q, zero);
}

/// A mixture of two values in exact arithmetic: the second, and a share of what the first is beyond
/// it.
pub proof fn lemma_mixture<T: PrcFmt>(c: T, state: T, input: T)
    requires
        is_exact::<T>(),
    ensures
        c.s_mul(state).s_add(s_one::<T>().s_sub(c).s_mul(input)) == input.s_add(
            c.s_mul(state.s_sub(input)),
        ),
        c.s_mul(state).s_add(s_one::<T>().s_sub(c).s_mul(input)).s_sub(input) == c.s_mul(
            state.s_sub(input),
        ),
{
    let one = s_one::<T>();
    let d = state.s_sub(input);
    let rest = one.s_sub(c);
    lemma_sub_add(state, input);
    lemma_mul_spreads(c, d, input);
    lemma_mul_spreads(input, rest, c);
    lemma_sub_add(one, c);
    lemma_mul_units(input);
    let a = c.s_mul(d);
    let b = c.s_mul(input);
    let e = rest.s_mul(input);
    assert(sums_commute(b, e));
    assert(sums_associate(a, b, e));
    assert(sums_commute(a, input));
    lemma_sub_is(input.s_add(a), input, a);
}

} // verus!
