//! The zeros of the halfband filter, in fixed point.

use crate::filters::tubestage::halfband::{
    halfband_at, halfband_coeffs, s_kaiser_window, unscaled_halfband,
};
use crate::fixed::{
    folded, lemma_sine_of_small, magnitude, reduced, Fixed, ONE, PI_RAW, TAU_RAW,
};
use crate::prcfmt::PrcFmt;
use crate::utils::window::sum_of;
use vstd::arithmetic::div_mod::lemma_fundamental_div_mod_converse;
use vstd::prelude::*;

verus! {

/// A whole number of half turns is within a few units of none or one.
proof fn lemma_half_turns(j: int, negative: bool)
    requires
        1 <= j <= 60000,
    ensures
        magnitude(
            folded(
                reduced(
                    if negative {
                        -(PI_RAW * j)
                    } else {
                        PI_RAW * j
                    },
                ),
            ),
        ) <= j,
{
    let q = j / 2;
    let angle = if negative {
        -(PI_RAW * j)
    } else {
        PI_RAW * j
    };
    let rest = angle - (if negative {
        -q - 1
    } else {
        q
    }) * TAU_RAW;
    lemma_fundamental_div_mod_converse(
        angle,
        TAU_RAW as int,
        if negative {
            -q - 1
        } else {
            q
        },
        rest,
    );
}

/// The sinc of the halfband filter vanishes at every even distance from the centre.
proof fn lemma_halfband_sinc_vanishes(m: int)
    requires
        m != 0,
        m % 2 == 0,
        -100000 <= m <= 100000,
    ensures
        Fixed::s_pi().s_mul(Fixed::s_int(m)).s_div(Fixed::s_int(2)).s_sin().s_div(
            Fixed::s_pi().s_mul(Fixed::s_int(m)),
        ).raw == 0,
{
    let d = magnitude(m);
    let j = d / 2;
    let mf = Fixed::s_int(m);
    assert(mf.raw == m * ONE);
    let turn = Fixed::s_pi().s_mul(mf);
    let mm = magnitude(mf.raw as int);
    assert(PI_RAW * mm / (ONE as int) == PI_RAW * d) by (nonlinear_arith)
        requires
            mm == d * ONE,
    ;
    assert(turn.raw == if m < 0 {
        -(PI_RAW * d)
    } else {
        PI_RAW * d
    });
    let two = Fixed::s_int(2);
    assert(two.raw == 2 * ONE);
    let t = magnitude(turn.raw as int);
    let w = magnitude(two.raw as int);
    assert(t * ONE / w == PI_RAW * j) by (nonlinear_arith)
        requires
            t == PI_RAW * d,
            w == 2 * ONE,
            d == 2 * j,
            0 <= j,
    ;
    let half = turn.s_div(two);
    assert(half.raw == if m < 0 {
        -(PI_RAW * j)
    } else {
        PI_RAW * j
    });
    lemma_half_turns(j, m < 0);
    lemma_sine_of_small(half.raw as int);
    let x = magnitude(half.s_sin().raw as int);
    assert(x <= j);
    assert(x * ONE / t == 0) by (nonlinear_arith)
        requires
            0 <= x <= j,
            t == PI_RAW * (2 * j),
            1 <= j,
    ;
}

/// For a length of the form `4k + 3` every coefficient at an odd position but the middle one is
/// zero, before the filter is scaled and after it: it is a true halfband filter.
pub proof fn lemma_halfband_has_zeros(n: int, length: int, beta: Fixed)
    requires
        length % 4 == 3,
        0 <= n < length <= 100000,
        n % 2 == 1,
        n != length / 2,
    ensures
        unscaled_halfband(length, beta)[n].raw == 0,
        sum_of(unscaled_halfband(length, beta), length).raw != 0 ==> halfband_coeffs(
            length,
            beta,
        )[n].raw == 0,
{
    let m = n - length / 2;
    assert(m % 2 == 0);
    lemma_halfband_sinc_vanishes(m);
    let win = s_kaiser_window(n, length, beta);
    let w = magnitude(win.raw as int);
    assert(0 * w == 0) by (nonlinear_arith);
    assert(halfband_at(n, length, beta).raw == 0);
    let h = unscaled_halfband(length, beta);
    assert(h[n] == halfband_at(n, length, beta));
    let total = sum_of(h, length);
    if total.raw != 0 {
        let t = magnitude(total.raw as int);
        assert(0 * ONE / t == 0) by (nonlinear_arith)
            requires
                0 < t,
        ;
        assert(h[n].s_div(total).raw == 0);
    }
}

} // verus!
