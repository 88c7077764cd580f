//! What clipping does to a sample, in literal numbers.

use crate::arith::{max_int, min_int, s_clamp, s_one, s_zero};
use crate::config::LimiterParameters;
use crate::filters::limiter::Limiter;
use crate::fixed::Fixed;
use crate::prcfmt::PrcFmt;
use crate::reals::{
    is_real, lemma_add_zero, lemma_decimal, lemma_div_is, lemma_div_mul, lemma_div_spreads,
    lemma_integers, lemma_mul_cancel, lemma_mul_moves, lemma_mul_neg, lemma_mul_spreads,
    lemma_mul_units, lemma_negatives, lemma_order, lemma_order_kept, lemma_positive,
    lemma_sub_is_add_neg, lemma_twenty_decibels, lemma_zero_decibels, power_of_ten,
};
use vstd::prelude::*;

verus! {

/// A value that is held between two bounds is the value where it lies between them, and the bound
/// that it lies beyond elsewhere.
pub proof fn lemma_clamp_is_median(x: Fixed, lo: Fixed, hi: Fixed)
    requires
        lo.raw <= hi.raw,
    ensures
        s_clamp(x, lo, hi).raw == max_int(lo.raw as int, min_int(x.raw as int, hi.raw as int)),
{
}

/// Hard clipping passes what lies within the limit and gives the limit, with the sign of the
/// sample, elsewhere.
pub proof fn lemma_hard_clip(l: Limiter<Fixed>, x: Fixed)
    requires
        !l.soft_clip,
        0 <= l.clip_limit.raw,
    ensures
        l.clip_limit.raw <= x.raw ==> l.clipped(x) == l.clip_limit,
        x.raw <= -l.clip_limit.raw ==> l.clipped(x).raw == -l.clip_limit.raw,
        -l.clip_limit.raw <= x.raw <= l.clip_limit.raw ==> l.clipped(x) == x,
{
}

/// The limit is a level in decibels: 20 dB more are ten times the limit, and 0 dBFS is one.
pub proof fn lemma_clip_limit_in_decibels<T: PrcFmt>(p: LimiterParameters<T>, q: LimiterParameters<T>)
    requires
        is_real::<T>(),
        q.clip_limit == p.clip_limit.s_add(T::s_int(20)),
    ensures
        Limiter::of(q).clip_limit == T::s_int(10).s_mul(Limiter::of(p).clip_limit),
        s_zero::<T>().s_lt(Limiter::of(p).clip_limit),
        p.clip_limit == s_zero::<T>() ==> Limiter::of(p).clip_limit == s_one::<T>(),
{
    lemma_twenty_decibels(p.clip_limit);
    lemma_zero_decibels::<T>();
}

/// One and a half, and six and three quarters.
proof fn lemma_literals<T: PrcFmt>()
    requires
        is_real::<T>(),
    ensures
        T::s_dec(15, 1).s_mul(T::s_int(2)) == T::s_int(3),
        T::s_dec(-15, 1) == T::s_dec(15, 1).s_neg(),
        T::s_dec(675, 2).s_mul(T::s_int(4)) == T::s_int(27),
        s_zero::<T>().s_lt(T::s_dec(15, 1)),
        T::s_dec(675, 2) != s_zero::<T>(),
{
    reveal_with_fuel(power_of_ten, 4);
    let h = T::s_dec(15, 1);
    let n = T::s_dec(-15, 1);
    let q = T::s_dec(675, 2);
    lemma_decimal::<T>(15, 1);
    lemma_decimal::<T>(-15, 1);
    lemma_decimal::<T>(675, 2);
    lemma_integers::<T>(10, 0);
    lemma_integers::<T>(0, 10);
    lemma_integers::<T>(0, 15);
    lemma_integers::<T>(2, 5);
    lemma_integers::<T>(5, 0);
    lemma_integers::<T>(3, 5);
    lemma_integers::<T>(15, 0);
    lemma_mul_moves(h, T::s_int(2), T::s_int(5));
    lemma_mul_cancel(h.s_mul(T::s_int(2)), T::s_int(3), T::s_int(5));
    lemma_mul_neg(h, T::s_int(10));
    lemma_mul_cancel(n, h.s_neg(), T::s_int(10));
    lemma_integers::<T>(4, 25);
    lemma_integers::<T>(27, 25);
    lemma_integers::<T>(25, 0);
    lemma_mul_moves(q, T::s_int(4), T::s_int(25));
    lemma_mul_cancel(q.s_mul(T::s_int(4)), T::s_int(27), T::s_int(25));
    lemma_integers::<T>(675, 0);
    lemma_mul_units(T::s_int(100));
    lemma_positive(T::s_int(15), T::s_int(10));
    lemma_div_is(T::s_int(15), T::s_int(10), h);
}

/// Up to one and a half times the limit, soft clipping takes `4/27` of the cube of a sample away:
/// `27 y L^2 = 27 x L^2 - 4 x^3`.
pub proof fn lemma_soft_clip_is_a_cubic<T: PrcFmt>(l: Limiter<T>, x: T)
    requires
        is_real::<T>(),
        l.soft_clip,
        s_zero::<T>().s_lt(l.clip_limit),
        T::s_int(2).s_mul(x).s_le(T::s_int(3).s_mul(l.clip_limit)),
        T::s_int(-3).s_mul(l.clip_limit).s_le(T::s_int(2).s_mul(x)),
    ensures
        ({
            let square = l.clip_limit.s_mul(l.clip_limit);
            T::s_int(27).s_mul(l.clipped(x)).s_mul(square) == T::s_int(27).s_mul(x).s_mul(
                square,
            ).s_sub(T::s_int(4).s_mul(x.s_mul(x).s_mul(x)))
        }),
{
    let lim = l.clip_limit;
    let zero = s_zero::<T>();
    let one = s_one::<T>();
    let h = T::s_dec(15, 1);
    let two = T::s_int(2);
    lemma_literals::<T>();
    lemma_order(zero, lim, zero);
    let z = x.s_div(lim);
    lemma_div_mul(x, lim);
    // The bounds of the scaled sample.
    lemma_integers::<T>(2, 0);
    lemma_integers::<T>(0, 2);
    lemma_integers::<T>(3, 0);
    let m = two.s_mul(lim);
    lemma_positive(two, lim);
    assert(z.s_mul(m) == two.s_mul(x)) by {
        lemma_mul_moves(z, two, lim);
        lemma_mul_moves(two, z, lim);
    }
    assert(h.s_mul(m) == T::s_int(3).s_mul(lim)) by {
        lemma_mul_moves(h, two, lim);
    }
    assert(h.s_neg().s_mul(m) == T::s_int(-3).s_mul(lim)) by {
        lemma_mul_neg(h, m);
        lemma_mul_neg(T::s_int(3), lim);
    }
    lemma_order_kept(z.s_mul(m), h.s_mul(m), m);
    lemma_order_kept(h.s_neg().s_mul(m), z.s_mul(m), m);
    lemma_div_is(z.s_mul(m), m, z);
    lemma_div_is(h.s_mul(m), m, h);
    lemma_div_is(h.s_neg().s_mul(m), m, h.s_neg());
    lemma_order(z, h, zero);
    lemma_order(h, z, zero);
    lemma_order(h.s_neg(), z, zero);
    lemma_order(z, h.s_neg(), zero);
    assert(s_clamp(z, T::s_dec(-15, 1), h) == z);
    // The cubic, times the limit.
    let third = one.s_div(T::s_dec(675, 2));
    let cube = z.s_mul(z).s_mul(z);
    let y = z.s_sub(third.s_mul(cube)).s_mul(lim);
    assert(l.clipped(x) == y);
    let taken = third.s_mul(cube).s_mul(lim);
    lemma_mul_spreads(lim, z, third.s_mul(cube));
    assert(y == x.s_sub(taken));
    let square = lim.s_mul(lim);
    let c27 = T::s_int(27);
    let cubed = x.s_mul(x).s_mul(x);
    lemma_mul_spreads(c27, x, taken);
    lemma_mul_spreads(square, c27.s_mul(x), c27.s_mul(taken));
    assert(c27.s_mul(y).s_mul(square) == c27.s_mul(x).s_mul(square).s_sub(
        c27.s_mul(taken).s_mul(square),
    ));
    // 27/6.75 is 4.
    assert(c27.s_mul(third) == T::s_int(4)) by {
        lemma_div_spreads(c27, one, T::s_dec(675, 2));
        lemma_mul_units(c27);
        lemma_mul_moves(T::s_dec(675, 2), T::s_int(4), one);
        lemma_div_is(c27, T::s_dec(675, 2), T::s_int(4));
    }
    assert(c27.s_mul(taken).s_mul(square) == T::s_int(4).s_mul(cubed)) by {
        let v = cube.s_mul(lim);
        lemma_mul_moves(third, cube, lim);
        lemma_mul_moves(c27, third, v);
        assert(c27.s_mul(taken) == T::s_int(4).s_mul(v));
        lemma_mul_moves(T::s_int(4), v, square);
        assert(v.s_mul(square) == cubed) by {
            lemma_cube(z, lim);
        }
    }
}

/// `(z^3 l) l^2 = (z l)^3`.
proof fn lemma_cube<T: PrcFmt>(z: T, l: T)
    requires
        is_real::<T>(),
    ensures
        z.s_mul(z).s_mul(z).s_mul(l).s_mul(l.s_mul(l)) == z.s_mul(l).s_mul(z.s_mul(l)).s_mul(
            z.s_mul(l),
        ),
{
    let p = z.s_mul(l);
    let zz = z.s_mul(z);
    let ll = l.s_mul(l);
    // p p = (z z) (l l).
    assert(p.s_mul(p) == zz.s_mul(ll)) by {
        lemma_mul_moves(z, l, p);
        lemma_mul_moves(l, z, l);
        lemma_mul_moves(z, z, ll);
    }
    // (z z) (l l) (z l) = (z z z) l (l l).
    lemma_mul_moves(zz, ll, p);
    lemma_mul_moves(ll, z, l);
    lemma_mul_moves(ll, p, l);
    lemma_mul_moves(zz, p, ll);
    lemma_mul_moves(zz, z, l);
}

/// Beyond one and a half times the limit, soft clipping gives the limit, with the sign of the
/// sample.
pub proof fn lemma_soft_clip_ends_at_the_limit<T: PrcFmt>(l: Limiter<T>, x: T)
    requires
        is_real::<T>(),
        l.soft_clip,
        s_zero::<T>().s_lt(l.clip_limit),
    ensures
        T::s_int(3).s_mul(l.clip_limit).s_le(T::s_int(2).s_mul(x)) ==> l.clipped(x) == l.clip_limit,
        T::s_int(2).s_mul(x).s_le(T::s_int(-3).s_mul(l.clip_limit)) ==> l.clipped(x)
            == l.clip_limit.s_neg(),
{
    let lim = l.clip_limit;
    let zero = s_zero::<T>();
    let one = s_one::<T>();
    let h = T::s_dec(15, 1);
    let two = T::s_int(2);
    lemma_literals::<T>();
    lemma_order(zero, lim, zero);
    let z = x.s_div(lim);
    lemma_div_mul(x, lim);
    lemma_integers::<T>(2, 0);
    lemma_integers::<T>(0, 2);
    lemma_integers::<T>(3, 0);
    let m = two.s_mul(lim);
    lemma_positive(two, lim);
    assert(z.s_mul(m) == two.s_mul(x)) by {
        lemma_mul_moves(z, two, lim);
        lemma_mul_moves(two, z, lim);
    }
    assert(h.s_mul(m) == T::s_int(3).s_mul(lim)) by {
        lemma_mul_moves(h, two, lim);
    }
    assert(h.s_neg().s_mul(m) == T::s_int(-3).s_mul(lim)) by {
        lemma_mul_neg(h, m);
        lemma_mul_neg(T::s_int(3), lim);
    }
    lemma_div_is(z.s_mul(m), m, z);
    lemma_div_is(h.s_mul(m), m, h);
    lemma_div_is(h.s_neg().s_mul(m), m, h.s_neg());
    lemma_order(z, h, zero);
    lemma_order(h, z, zero);
    lemma_order(h.s_neg(), z, zero);
    lemma_order(z, h.s_neg(), zero);
    assert(h.s_neg().s_le(zero)) by {
        lemma_order(zero, h, zero);
        lemma_order_kept(zero, h, h.s_neg());
        lemma_sub_is_add_neg(h, h);
        lemma_add_zero(h.s_neg());
    }
    lemma_order(h.s_neg(), zero, h);
    lemma_order(zero, h, zero);
    lemma_order(h.s_neg(), h, zero);
    lemma_order(h, h.s_neg(), zero);
    lemma_turning_value::<T>();
    lemma_mul_units(lim);
    lemma_mul_neg(one, lim);
    if T::s_int(3).s_mul(lim).s_le(two.s_mul(x)) {
        lemma_order_kept(h.s_mul(m), z.s_mul(m), m);
        assert(h.s_le(z));
        lemma_order(h.s_neg(), h, z);
        lemma_order(z, h.s_neg(), z);
        assert(s_clamp(z, T::s_dec(-15, 1), h) == h);
    }
    if two.s_mul(x).s_le(T::s_int(-3).s_mul(lim)) {
        lemma_order_kept(z.s_mul(m), h.s_neg().s_mul(m), m);
        assert(z.s_le(h.s_neg()));
        assert(s_clamp(z, T::s_dec(-15, 1), h) == h.s_neg());
    }
}

/// The cubic is one at one and a half, and its negative at the negative of it.
proof fn lemma_turning_value<T: PrcFmt>()
    requires
        is_real::<T>(),
    ensures
        ({
            let h = T::s_dec(15, 1);
            let third = s_one::<T>().s_div(T::s_dec(675, 2));
            &&& h.s_sub(third.s_mul(h.s_mul(h).s_mul(h))) == s_one::<T>()
            &&& h.s_neg().s_sub(third.s_mul(h.s_neg().s_mul(h.s_neg()).s_mul(h.s_neg())))
                == s_one::<T>().s_neg()
        }),
{
    let one = s_one::<T>();
    let h = T::s_dec(15, 1);
    let q = T::s_dec(675, 2);
    let third = one.s_div(q);
    let two = T::s_int(2);
    let eight = T::s_int(8);
    lemma_literals::<T>();
    lemma_integers::<T>(2, 2);
    lemma_integers::<T>(4, 2);
    lemma_integers::<T>(3, 3);
    lemma_integers::<T>(9, 3);
    lemma_integers::<T>(8, 0);
    lemma_integers::<T>(2, 0);
    lemma_integers::<T>(4, 0);
    let cube = h.s_mul(h).s_mul(h);
    // 8 h^3 = 27, so that h^3 is half of 6.75.
    assert(cube.s_mul(two).s_mul(two.s_mul(two)) == T::s_int(27)) by {
        lemma_cube(h, two);
        lemma_mul_moves(T::s_int(3), T::s_int(3), T::s_int(3));
    }
    assert(cube.s_mul(two) == q) by {
        lemma_mul_cancel(cube.s_mul(two), q, T::s_int(4));
    }
    let part = third.s_mul(cube);
    assert(part.s_mul(two) == one) by {
        lemma_mul_moves(third, cube, two);
        lemma_div_mul(one, q);
    }
    let rest = h.s_sub(part);
    assert(rest.s_mul(two) == two) by {
        lemma_mul_spreads(two, h, part);
        lemma_integers::<T>(3, 1);
    }
    lemma_mul_units(two);
    lemma_mul_cancel(rest, one, two);
    // The other side mirrors it.
    let n = h.s_neg();
    lemma_mul_neg(h, h);
    lemma_mul_neg(h, h.s_mul(h));
    lemma_mul_neg(cube, third);
    assert(n.s_mul(n).s_mul(n) == cube.s_neg());
    assert(n.s_sub(part.s_neg()) == rest.s_neg()) by {
        lemma_sub_is_add_neg(n, part.s_neg());
        lemma_negatives(part, part);
        lemma_sub_is_add_neg(h, part);
        lemma_negatives(h, part.s_neg());
    }
}

} // verus!
