//! What holds of fixed-point arithmetic: the operations and the elementary functions keep the order
//! exactly, in spite of rounding and saturation.

use crate::arith::{s_one, s_zero};
use crate::exact::{
    functions_have_signs, functions_rise, is_ordered, operations_rise, order_is_total,
};
use crate::fixed::{
    atanh_series, doubled, exp_series, grown, halved, ln_of, magnitude, saturated, squared, Fixed,
    EXP_FLOOR, EXP_SQUARINGS, EXP_TERMS, LIMIT, LN_10_RAW, LN_2_RAW, LN_TERMS, ONE,
};
use crate::prcfmt::PrcFmt;
use vstd::prelude::*;

verus! {

// ------------------------------- Operations -------------------------------

/// Zero times anything is zero.
pub proof fn lemma_zero_product(x: Fixed)
    ensures
        s_zero::<Fixed>().s_mul(x) == s_zero::<Fixed>(),
        x.s_mul(s_zero::<Fixed>()) == s_zero::<Fixed>(),
{
    let m = magnitude(x.raw as int);
    assert(0 * m == 0 && m * 0 == 0) by (nonlinear_arith);
}

/// A product with a factor that is not negative keeps the order.
pub proof fn lemma_product_rises(c: Fixed, a: Fixed, b: Fixed)
    requires
        0 <= c.raw,
        a.raw <= b.raw,
    ensures
        c.s_mul(a).raw <= c.s_mul(b).raw,
{
    let m = c.raw as int;
    let p = magnitude(a.raw as int);
    let q = magnitude(b.raw as int);
    let one = ONE as int;
    assert(0 <= m * p / one && 0 <= m * q / one) by (nonlinear_arith)
        requires
            0 <= m,
            0 <= p,
            0 <= q,
            one == 0x1_0000_0000,
    ;
    if p <= q {
        assert(m * p / one <= m * q / one) by (nonlinear_arith)
            requires
                0 <= m,
                0 <= p <= q,
                one == 0x1_0000_0000,
        ;
    } else {
        assert(m * q / one <= m * p / one) by (nonlinear_arith)
            requires
                0 <= m,
                0 <= q <= p,
                one == 0x1_0000_0000,
        ;
    }
}

/// A product of factors that are not negative is not negative, and rises with either.
pub proof fn lemma_products_rise(a: Fixed, b: Fixed, c: Fixed, d: Fixed)
    requires
        0 <= a.raw <= c.raw,
        0 <= b.raw <= d.raw,
    ensures
        0 <= a.s_mul(b).raw <= c.s_mul(d).raw,
{
    let (p, q, r, s) = (a.raw as int, b.raw as int, c.raw as int, d.raw as int);
    let one = ONE as int;
    assert(0 <= p * q / one <= r * s / one) by (nonlinear_arith)
        requires
            0 <= p <= r,
            0 <= q <= s,
            one == 0x1_0000_0000,
    ;
}

/// A quotient by a positive divisor keeps the order and the sign.
pub proof fn lemma_quotient_rises(a: Fixed, b: Fixed, c: Fixed)
    requires
        0 < c.raw,
        a.raw <= b.raw,
    ensures
        a.s_div(c).raw <= b.s_div(c).raw,
        0 <= a.raw ==> 0 <= a.s_div(c).raw,
        a.raw <= 0 ==> a.s_div(c).raw <= 0,
{
    let d = c.raw as int;
    let p = magnitude(a.raw as int);
    let q = magnitude(b.raw as int);
    assert(0 <= p * ONE / d && 0 <= q * ONE / d) by (nonlinear_arith)
        requires
            0 < d,
            0 <= p,
            0 <= q,
    ;
    if p <= q {
        assert(p * ONE / d <= q * ONE / d) by (nonlinear_arith)
            requires
                0 < d,
                0 <= p <= q,
        ;
    } else {
        assert(q * ONE / d <= p * ONE / d) by (nonlinear_arith)
            requires
                0 < d,
                0 <= q <= p,
        ;
    }
}

/// A quotient falls as its divisor rises.
proof fn lemma_quotient_falls(a: Fixed, b: Fixed, c: Fixed)
    requires
        0 <= a.raw,
        0 < b.raw <= c.raw,
    ensures
        0 <= a.s_div(c).raw <= a.s_div(b).raw,
{
    let (p, q, r) = (a.raw as int, b.raw as int, c.raw as int);
    assert(0 <= p * ONE / r <= p * ONE / q) by (nonlinear_arith)
        requires
            0 <= p,
            0 < q <= r,
    ;
}

// ------------------------------- The exponential -------------------------------

/// The series of the exponential does not fall below what it starts from, and rises with all that
/// it is made of.
proof fn lemma_exp_series_rises(
    y: Fixed,
    w: Fixed,
    k: int,
    term: Fixed,
    sum: Fixed,
    other: Fixed,
    total: Fixed,
)
    requires
        1 <= k,
        0 <= y.raw <= w.raw,
        0 <= term.raw <= other.raw,
        0 <= sum.raw <= total.raw,
    ensures
        sum.raw <= exp_series(y, k, term, sum).raw <= exp_series(w, k, other, total).raw,
    decreases EXP_TERMS + 1 - k,
{
    if k <= EXP_TERMS {
        let kf = Fixed::s_int(k);
        assert(kf.raw == k * ONE);
        lemma_products_rise(term, y, other, w);
        let p = term.s_mul(y);
        let q = other.s_mul(w);
        lemma_quotient_rises(p, q, kf);
        let a = p.s_div(kf);
        let b = q.s_div(kf);
        lemma_exp_series_rises(y, w, k + 1, a, sum.s_add(a), b, total.s_add(b));
    }
}

/// Squares keep the order, and those of numbers from one on are not below one.
proof fn lemma_squared_rises(v: Fixed, w: Fixed, n: nat)
    requires
        ONE <= v.raw <= w.raw,
    ensures
        ONE <= squared(v, n).raw <= squared(w, n).raw,
    decreases n,
{
    if n > 0 {
        lemma_products_rise(v, v, w, w);
        let m = v.raw as int;
        let one = ONE as int;
        assert(one <= m * m / one) by (nonlinear_arith)
            requires
                one <= m,
                one == 0x1_0000_0000,
        ;
        lemma_squared_rises(v.s_mul(v), w.s_mul(w), (n - 1) as nat);
    }
}

/// The exponential of a number that is not negative is at least one and keeps the order.
proof fn lemma_grown_rises(x: Fixed, y: Fixed)
    requires
        0 <= x.raw <= y.raw,
    ensures
        ONE <= grown(x).raw <= grown(y).raw,
{
    let one = Fixed::s_int(1);
    let d = Fixed::s_int(256);
    assert(d.raw == 256 * ONE);
    lemma_quotient_rises(x, y, d);
    let a = x.s_div(d);
    let b = y.s_div(d);
    lemma_exp_series_rises(a, b, 1, one, one, one, one);
    lemma_squared_rises(
        exp_series(a, 1, one, one),
        exp_series(b, 1, one, one),
        EXP_SQUARINGS as nat,
    );
}

/// An exponential is not negative, and that of a negative number is at most one.
pub proof fn lemma_exp_bounds(x: Fixed)
    ensures
        0 <= x.s_exp().raw,
        x.raw <= 0 ==> x.s_exp().raw <= ONE,
        0 <= x.raw ==> ONE <= x.s_exp().raw,
{
    if 0 <= x.raw {
        lemma_grown_rises(x, x);
        if x.raw == 0 {
            lemma_exp_of_zero();
        }
    } else if EXP_FLOOR <= x.raw {
        lemma_grown_rises(x.s_abs(), x.s_abs());
        lemma_quotient_falls(Fixed::s_int(1), Fixed::s_int(1), grown(x.s_abs()));
    }
}

/// The series of the exponential ends where the exponent vanishes.
proof fn lemma_exp_series_of_zero(k: int, term: Fixed)
    requires
        1 <= k,
        0 <= term.raw,
    ensures
        exp_series(saturated(0), k, term, Fixed::s_int(1)) == Fixed::s_int(1),
    decreases EXP_TERMS + 1 - k,
{
    if k <= EXP_TERMS {
        let zero = s_zero::<Fixed>();
        let kf = Fixed::s_int(k);
        assert(kf.raw == k * ONE);
        lemma_zero_product(term);
        lemma_quotient_rises(zero, zero, kf);
        assert(zero.s_div(kf) == zero);
        lemma_exp_series_of_zero(k + 1, zero);
    }
}

/// The exponential of zero is one.
pub proof fn lemma_exp_of_zero()
    ensures
        s_zero::<Fixed>().s_exp() == s_one::<Fixed>(),
{
    let zero = s_zero::<Fixed>();
    let one = s_one::<Fixed>();
    let d = Fixed::s_int(256);
    lemma_quotient_rises(zero, zero, d);
    assert(zero.s_div(d) == zero);
    lemma_exp_series_of_zero(1, one);
    assert(one.s_mul(one) == one) by {
        assert(ONE * ONE / (ONE as int) == ONE);
    }
    lemma_squares_of_one(EXP_SQUARINGS as nat);
}

proof fn lemma_squares_of_one(n: nat)
    ensures
        squared(s_one::<Fixed>(), n) == s_one::<Fixed>(),
    decreases n,
{
    if n > 0 {
        assert(ONE * ONE / (ONE as int) == ONE);
        lemma_squares_of_one((n - 1) as nat);
    }
}

/// The exponential keeps the order.
pub proof fn lemma_exp_rises(x: Fixed, y: Fixed)
    requires
        x.raw <= y.raw,
    ensures
        x.s_exp().raw <= y.s_exp().raw,
{
    lemma_exp_bounds(x);
    lemma_exp_bounds(y);
    if 0 <= x.raw {
        lemma_grown_rises(x, y);
    } else if EXP_FLOOR <= x.raw && y.raw < 0 {
        lemma_grown_rises(y.s_abs(), x.s_abs());
        lemma_quotient_falls(Fixed::s_int(1), grown(y.s_abs()), grown(x.s_abs()));
    }
}

// ------------------------------- The logarithm -------------------------------

/// The series of the inverse hyperbolic tangent does not fall below what it starts from, and rises
/// with all that it is made of.
proof fn lemma_atanh_rises(
    y: Fixed,
    w: Fixed,
    k: int,
    power: Fixed,
    sum: Fixed,
    other: Fixed,
    total: Fixed,
)
    requires
        1 <= k,
        0 <= y.raw <= w.raw,
        0 <= power.raw <= other.raw,
        0 <= sum.raw <= total.raw,
    ensures
        sum.raw <= atanh_series(y, k, power, sum).raw <= atanh_series(w, k, other, total).raw,
    decreases LN_TERMS + 1 - k,
{
    if k <= LN_TERMS {
        let d = Fixed::s_int(2 * k + 1);
        assert(d.raw == (2 * k + 1) * ONE);
        lemma_products_rise(power, y, other, w);
        let p = power.s_mul(y);
        let q = other.s_mul(w);
        lemma_quotient_rises(p, q, d);
        lemma_atanh_rises(y, w, k + 1, p, sum.s_add(p.s_div(d)), q, total.s_add(q.s_div(d)));
    }
}

/// One step of the series in units of the last place.
proof fn lemma_atanh_step(z: int, k: int, power: int, sum: int, next: int, total: int)
    requires
        1 <= k <= LN_TERMS,
        0 <= z <= ONE,
        0 <= power <= ONE,
        0 <= sum <= ONE,
        0 <= power * z - next * 0x1_0000_0000 < 0x1_0000_0000,
        0 <= next - (total - sum) * (2 * k + 1) < 2 * k + 1,
    ensures
        0 <= next <= ONE,
        atanh_series(saturated(z), k, saturated(power), saturated(sum)) == atanh_series(
            saturated(z),
            k + 1,
            saturated(next),
            saturated(total),
        ),
{
    let d = Fixed::s_int(2 * k + 1);
    assert(d.raw == (2 * k + 1) * ONE);
    assert(next == power * z / (ONE as int) && 0 <= next <= ONE) by (nonlinear_arith)
        requires
            0 <= power <= ONE,
            0 <= z <= ONE,
            0 <= power * z - next * 0x1_0000_0000 < 0x1_0000_0000,
    ;
    let n = 2 * k + 1;
    let e = n * ONE;
    assert(next * ONE / e == next / n) by (nonlinear_arith)
        requires
            0 <= next,
            1 <= n,
            e == n * ONE,
    ;
    assert(0 <= next / n <= next && total == sum + next / n) by (nonlinear_arith)
        requires
            0 <= next,
            1 <= n,
            0 <= next - (total - sum) * n < n,
    ;
    assert(saturated(power).s_mul(saturated(z)) == saturated(next));
    assert(saturated(next).s_div(d) == saturated(next / n));
}

/// A power of zero adds nothing.
proof fn lemma_atanh_ends(z2: Fixed, k: int, sum: Fixed)
    requires
        1 <= k,
        0 <= z2.raw,
        0 <= sum.raw,
    ensures
        atanh_series(z2, k, saturated(0), sum) == sum,
    decreases LN_TERMS + 1 - k,
{
    if k <= LN_TERMS {
        let zero = s_zero::<Fixed>();
        let d = Fixed::s_int(2 * k + 1);
        assert(d.raw == (2 * k + 1) * ONE);
        lemma_zero_product(z2);
        lemma_quotient_rises(zero, zero, d);
        assert(zero.s_div(d) == zero);
        lemma_atanh_ends(z2, k + 1, sum);
    }
}

/// One third, in units of the last place.
pub const THIRD: i64 = 1431655765;

/// The square of one third, in units of the last place.
pub const NINTH: i64 = 477218588;

/// The series at one third, for the logarithm of two.
proof fn lemma_atanh_of_third()
    ensures
        atanh_series(
            saturated(NINTH as int),
            1,
            saturated(THIRD as int),
            saturated(THIRD as int),
        ).raw == 1488522231,
{
    lemma_atanh_step(477218588, 1, 1431655765, 1431655765, 159072862, 1484680052);
    assert(159072862 * 477218588 == 75912526592758856) by (nonlinear_arith);
    lemma_atanh_step(477218588, 2, 159072862, 1484680052, 17674762, 1488215004);
    lemma_atanh_step(477218588, 3, 17674762, 1488215004, 1963862, 1488495555);
    lemma_atanh_step(477218588, 4, 1963862, 1488495555, 218206, 1488519800);
    lemma_atanh_step(477218588, 5, 218206, 1488519800, 24245, 1488522004);
    lemma_atanh_step(477218588, 6, 24245, 1488522004, 2693, 1488522211);
    lemma_atanh_step(477218588, 7, 2693, 1488522211, 299, 1488522230);
    lemma_atanh_step(477218588, 8, 299, 1488522230, 33, 1488522231);
    lemma_atanh_step(477218588, 9, 33, 1488522231, 3, 1488522231);
    lemma_atanh_step(477218588, 10, 3, 1488522231, 0, 1488522231);
    lemma_atanh_ends(saturated(477218588), 11, saturated(1488522231));
}

/// The logarithm of a mantissa in units of the last place.
pub open spec fn mantissa_ln(m: int) -> int {
    let v = saturated(m);
    let z = v.s_sub(Fixed::s_int(1)).s_div(v.s_add(Fixed::s_int(1)));
    2 * atanh_series(z.s_mul(z), 1, z, z).raw
}

/// What the logarithm of a mantissa stays below that of two by.
pub const OCTAVE_GAP: i64 = 10;

/// The logarithm of a mantissa, from one up to two, keeps the order and lies between zero and the
/// logarithm of two, which it does not reach.
proof fn lemma_mantissa_ln(a: int, b: int)
    requires
        ONE <= a <= b < 2 * ONE,
    ensures
        0 <= mantissa_ln(a) <= mantissa_ln(b) <= LN_2_RAW - OCTAVE_GAP,
        a == ONE ==> mantissa_ln(a) == 0,
{
    let one = Fixed::s_int(1);
    let (v, w) = (saturated(a), saturated(b));
    let p = v.s_sub(one);
    let q = v.s_add(one);
    let r = w.s_sub(one);
    let s = w.s_add(one);
    assert(p.raw == a - ONE && q.raw == a + ONE && r.raw == b - ONE && s.raw == b + ONE);
    let y = (a - ONE) * ONE / (a + ONE);
    let z = (b - ONE) * ONE / (b + ONE);
    assert(0 <= y <= z <= THIRD) by (nonlinear_arith)
        requires
            ONE <= a <= b < 2 * ONE,
            y == (a - ONE) * ONE / (a + ONE),
            z == (b - ONE) * ONE / (b + ONE),
    ;
    let yf = p.s_div(q);
    let zf = r.s_div(s);
    assert(yf.raw == y && zf.raw == z);
    let top = saturated(THIRD as int);
    lemma_products_rise(yf, yf, zf, zf);
    lemma_products_rise(zf, zf, top, top);
    assert(THIRD * THIRD / (ONE as int) == NINTH);
    assert(top.s_mul(top) == saturated(NINTH as int));
    lemma_atanh_rises(yf.s_mul(yf), zf.s_mul(zf), 1, yf, yf, zf, zf);
    lemma_atanh_rises(zf.s_mul(zf), top.s_mul(top), 1, zf, zf, top, top);
    lemma_atanh_of_third();
    if a == ONE {
        assert(0 * ONE / (2 * ONE) == 0);
        assert(yf == saturated(0));
        lemma_zero_product(yf);
        lemma_atanh_ends(yf, 1, yf);
    }
}

/// The logarithm in units of the last place, of a number that has been halved `n` times.
pub open spec fn ln_from(raw: int, n: int) -> int {
    let down = halved(raw, n);
    let (m, e) = doubled(down.0, down.1);
    mantissa_ln(m) + e * LN_2_RAW
}

/// The logarithm of a number in its octave: on either side of one and of two.
proof fn lemma_ln_bounds(raw: int, n: int)
    requires
        0 < raw,
    ensures
        raw < ONE ==> ln_from(raw, n) <= n * LN_2_RAW - OCTAVE_GAP,
        ONE <= raw ==> n * LN_2_RAW <= ln_from(raw, n),
        raw < 2 * ONE ==> ln_from(raw, n) <= (n + 1) * LN_2_RAW - OCTAVE_GAP,
        2 * ONE <= raw ==> (n + 1) * LN_2_RAW <= ln_from(raw, n),
    decreases
            if raw < ONE {
                4 * ONE - raw
            } else {
                raw
            },
{
    if 2 * ONE <= raw {
        lemma_ln_bounds(raw / 2, n + 1);
    } else if raw < ONE {
        lemma_ln_bounds(2 * raw, n - 1);
    } else {
        lemma_mantissa_ln(raw, raw);
    }
}

proof fn lemma_ln_from_rises(a: int, b: int, n: int)
    requires
        0 < a <= b,
    ensures
        ln_from(a, n) <= ln_from(b, n),
    decreases
            if b < ONE {
                4 * ONE - b
            } else {
                b
            },
{
    lemma_ln_bounds(a, n);
    lemma_ln_bounds(b, n);
    if 2 * ONE <= a {
        lemma_ln_from_rises(a / 2, b / 2, n + 1);
    } else if b < ONE {
        lemma_ln_from_rises(2 * a, 2 * b, n - 1);
    } else if ONE <= a && b < 2 * ONE {
        lemma_mantissa_ln(a, b);
    }
}

/// The logarithm keeps the order. That of one is zero, and below one it is negative.
pub proof fn lemma_ln_rises(x: Fixed, y: Fixed)
    requires
        x.raw <= y.raw,
    ensures
        x.s_ln().raw <= y.s_ln().raw,
        x.raw < ONE ==> x.s_ln().raw <= -OCTAVE_GAP,
        x.raw == ONE ==> x.s_ln().raw == 0,
{
    if 0 < x.raw {
        lemma_ln_from_rises(x.raw as int, y.raw as int, 0);
        lemma_ln_bounds(x.raw as int, 0);
        assert(ln_of(x.raw as int) == saturated(ln_from(x.raw as int, 0)));
        assert(ln_of(y.raw as int) == saturated(ln_from(y.raw as int, 0)));
        if x.raw == ONE {
            lemma_mantissa_ln(ONE as int, ONE as int);
        }
    }
}

/// The logarithm of one is zero, to either base.
pub proof fn lemma_log_of_one()
    ensures
        s_one::<Fixed>().s_ln() == s_zero::<Fixed>(),
        s_one::<Fixed>().s_log10() == s_zero::<Fixed>(),
{
    let one = s_one::<Fixed>();
    let zero = s_zero::<Fixed>();
    lemma_ln_rises(one, one);
    lemma_quotient_rises(zero, zero, Fixed { raw: LN_10_RAW });
}

/// The logarithm to base ten of what is below one is negative.
pub proof fn lemma_log10_sign(x: Fixed)
    requires
        x.raw < ONE,
    ensures
        x.s_log10().raw < 0,
{
    lemma_ln_rises(x, x);
    let ten = Fixed { raw: LN_10_RAW };
    let gap = Fixed { raw: -OCTAVE_GAP as i64 };
    lemma_quotient_rises(x.s_ln(), gap, ten);
    assert(OCTAVE_GAP * ONE / (LN_10_RAW as int) == 4);
    assert(gap.s_div(ten).raw == -4);
}

// ------------------------------- The order -------------------------------

/// A power of a positive base keeps the order and is not negative.
proof fn lemma_power_rises(a: Fixed, b: Fixed, c: Fixed)
    requires
        0 < a.raw <= b.raw,
    ensures
        0 <= a.s_pow(c).raw,
        0 <= c.raw ==> a.s_pow(c).raw <= b.s_pow(c).raw,
{
    lemma_exp_bounds(c.s_mul(a.s_ln()));
    if 0 <= c.raw {
        lemma_ln_rises(a, b);
        lemma_product_rises(c, a.s_ln(), b.s_ln());
        lemma_exp_rises(c.s_mul(a.s_ln()), c.s_mul(b.s_ln()));
    }
}

/// Fixed-point arithmetic keeps the order: sums, products with what is not negative, quotients by
/// what is positive, exponentials, logarithms and powers never fall as their operands rise.
pub proof fn lemma_fixed_point_is_ordered()
    ensures
        is_ordered::<Fixed>(),
{
    let zero = s_zero::<Fixed>();
    assert forall|a: Fixed, b: Fixed, c: Fixed| #[trigger] order_is_total(a, b, c) by {}
    assert forall|a: Fixed, b: Fixed, c: Fixed| #[trigger] operations_rise(a, b, c) by {
        if a.s_le(b) {
            if 0 <= c.raw {
                lemma_product_rises(c, a, b);
            }
            if 0 < c.raw {
                lemma_quotient_rises(a, b, c);
            }
        }
    }
    assert forall|a: Fixed, b: Fixed, c: Fixed| #[trigger] functions_rise(a, b, c) by {
        if a.s_le(b) {
            lemma_exp_rises(a, b);
            lemma_ln_rises(a, b);
            if 0 < a.raw {
                lemma_power_rises(a, b, c);
            }
        }
    }
    assert forall|a: Fixed, c: Fixed| #[trigger] functions_have_signs(a, c) by {
        lemma_exp_bounds(a);
        if 0 < a.raw {
            lemma_power_rises(a, a, c);
        }
        lemma_log_of_one();
        if 0 < c.raw {
            lemma_quotient_rises(zero, zero, c);
        }
    }
}

/// No logarithm is larger than thirty-one logarithms of two.
pub proof fn lemma_ln_limit(x: Fixed)
    ensures
        x.s_ln().raw <= 31 * LN_2_RAW,
{
    let top = Fixed { raw: LIMIT };
    lemma_ln_rises(x, top);
    assert(ln_from(LIMIT as int, 0) <= 31 * LN_2_RAW) by {
        reveal_with_fuel(halved, 32);
        lemma_ln_bounds(0x1_ffff_ffff, 30);
    }
    assert(ln_of(LIMIT as int) == saturated(ln_from(LIMIT as int, 0)));
}

} // verus!
