//! What the gains of the tube stage are in decibels: the makeup gain scales the output, and the
//! drive scales the input.

use crate::arith::{s_db_to_linear, s_one, s_zero};
use crate::config::TubeStageParameters;
use crate::filters::tubestage::ramp::{
    lemma_one_pole_is_a_fraction, lemma_step_scales_the_distance, RampedValue,
};
use crate::filters::tubestage::shaper::Shaper;
use crate::fixed::{magnitude, tenths, Fixed, ONE};
use crate::fixed_laws::{
    lemma_exp_bounds, lemma_exp_rises, lemma_ln_rises, lemma_product_rises, lemma_quotient_rises,
    lemma_zero_product,
};
use crate::prcfmt::PrcFmt;
use crate::reals::{
    is_real, lemma_add_zero, lemma_mul_moves, lemma_mul_spreads, lemma_mul_units,
    lemma_sub_is_add_neg, lemma_twenty_decibels, lemma_zero_decibels,
};
use vstd::prelude::*;

verus! {

/// A smoother that rests stays at its value.
pub proof fn lemma_rest_is_kept<T: PrcFmt>(r: RampedValue<T>)
    requires
        is_real::<T>(),
        r.current == r.target,
    ensures
        r.ticked() == r,
{
    lemma_step_scales_the_distance(r);
    lemma_sub_is_add_neg(r.target, r.target);
    lemma_mul_units(r.coeff);
    lemma_add_zero(r.target);
}

/// Whether two chains differ in nothing but their makeup gain, and the gain of the first is `k`
/// times that of the second.
pub open spec fn scaled_chain<T: PrcFmt>(a: Shaper<T>, b: Shaper<T>, k: T) -> bool {
    &&& a.dc_blocker_in == b.dc_blocker_in
    &&& a.model == b.model
    &&& a.transformer == b.transformer
    &&& a.dc_blocker_out == b.dc_blocker_out
    &&& a.makeup_gain.coeff == b.makeup_gain.coeff
    &&& a.makeup_gain.current == b.makeup_gain.current.s_mul(k)
    &&& a.makeup_gain.target == b.makeup_gain.target.s_mul(k)
}

proof fn lemma_scaled_step<T: PrcFmt>(a: RampedValue<T>, b: RampedValue<T>, k: T)
    requires
        is_real::<T>(),
        a.coeff == b.coeff,
        a.current == b.current.s_mul(k),
        a.target == b.target.s_mul(k),
    ensures
        a.ticked().current == b.ticked().current.s_mul(k),
{
    let rest = s_one::<T>().s_sub(a.coeff);
    lemma_mul_moves(a.coeff, b.current, k);
    lemma_mul_moves(rest, b.target, k);
    lemma_mul_spreads(k, a.coeff.s_mul(b.current), rest.s_mul(b.target));
}

proof fn lemma_scaled_chain<T: PrcFmt>(a: Shaper<T>, b: Shaper<T>, k: T, wave: Seq<T>, n: int)
    requires
        is_real::<T>(),
        scaled_chain(a, b, k),
    ensures
        scaled_chain(a.after_wave(wave, n), b.after_wave(wave, n), k),
    decreases n,
{
    if n > 0 {
        lemma_scaled_chain(a, b, k, wave, n - 1);
        let c = a.after_wave(wave, n - 1);
        let d = b.after_wave(wave, n - 1);
        lemma_scaled_step(c.makeup_gain, d.makeup_gain, k);
    }
}

/// Of two chains that differ in nothing but a makeup gain that is `k` times as large, the output is
/// `k` times as large, sample by sample.
pub proof fn lemma_makeup_gain_multiplies<T: PrcFmt>(
    a: Shaper<T>,
    b: Shaper<T>,
    k: T,
    wave: Seq<T>,
    i: int,
)
    requires
        is_real::<T>(),
        scaled_chain(a, b, k),
        0 <= i < wave.len(),
    ensures
        a.shaped(wave)[i] == b.shaped(wave)[i].s_mul(k),
{
    lemma_scaled_chain(a, b, k, wave, i);
    let c = a.after_wave(wave, i);
    let d = b.after_wave(wave, i);
    lemma_scaled_step(c.makeup_gain, d.makeup_gain, k);
    lemma_mul_moves(d.blocked_out(wave[i]), d.makeup_gain.ticked().current, k);
}

/// A makeup gain of `g` dB puts out `10^(g/20)` times what the same chain puts out without one.
pub proof fn lemma_makeup_gain_in_decibels<T: PrcFmt>(
    p: TubeStageParameters<T>,
    g: T,
    fs: int,
    wave: Seq<T>,
    i: int,
)
    requires
        is_real::<T>(),
        p.makeup_gain_db is None,
        0 <= i < wave.len(),
    ensures
        ({
            let q = TubeStageParameters { makeup_gain_db: Some(g), ..p };
            Shaper::resting(q, fs).shaped(wave)[i] == Shaper::resting(p, fs).shaped(wave)[i].s_mul(
                T::s_int(10).s_pow(g.s_div(T::s_int(20))),
            )
        }),
{
    let q = TubeStageParameters { makeup_gain_db: Some(g), ..p };
    let k = T::s_int(10).s_pow(g.s_div(T::s_int(20)));
    let a = Shaper::resting(q, fs);
    let b = Shaper::resting(p, fs);
    lemma_zero_decibels::<T>();
    lemma_mul_units(k);
    lemma_makeup_gain_multiplies(a, b, k, wave, i);
}

/// Twenty decibels more of makeup gain put out ten times as much: of chains that are built anew,
/// and of one chain that is led to the one gain or the other and has reached it.
pub proof fn lemma_twenty_decibels_of_makeup<T: PrcFmt>(
    s: Shaper<T>,
    p: TubeStageParameters<T>,
    g: T,
    fs: int,
    wave: Seq<T>,
    i: int,
)
    requires
        is_real::<T>(),
        p.makeup_gain_db == Some(g),
        0 <= i < wave.len(),
    ensures
        ({
            let q = TubeStageParameters { makeup_gain_db: Some(g.s_add(T::s_int(20))), ..p };
            &&& Shaper::resting(q, fs).shaped(wave)[i] == Shaper::resting(p, fs).shaped(
                wave,
            )[i].s_mul(T::s_int(10))
            &&& settled(s.redirected(q, fs)).shaped(wave)[i] == settled(s.redirected(p, fs)).shaped(
                wave,
            )[i].s_mul(T::s_int(10))
        }),
{
    let q = TubeStageParameters { makeup_gain_db: Some(g.s_add(T::s_int(20))), ..p };
    let k = T::s_int(10);
    lemma_twenty_decibels(g);
    lemma_mul_moves(k, s_db_to_linear(g), k);
    lemma_makeup_gain_multiplies(Shaper::resting(q, fs), Shaper::resting(p, fs), k, wave, i);
    lemma_makeup_gain_multiplies(
        settled(s.redirected(q, fs)),
        settled(s.redirected(p, fs)),
        k,
        wave,
        i,
    );
}

/// A chain whose makeup gain has reached its target.
pub open spec fn settled<T: PrcFmt>(s: Shaper<T>) -> Shaper<T> {
    Shaper {
        makeup_gain: RampedValue { current: s.makeup_gain.target, ..s.makeup_gain },
        ..s
    }
}

/// A chain that is led to `g` dB of makeup gain, and has reached it, puts out `10^(g/20)` times what
/// it puts out where it is led to no makeup gain.
pub proof fn lemma_redirected_makeup_in_decibels<T: PrcFmt>(
    s: Shaper<T>,
    p: TubeStageParameters<T>,
    g: T,
    fs: int,
    wave: Seq<T>,
    i: int,
)
    requires
        is_real::<T>(),
        p.makeup_gain_db is None,
        0 <= i < wave.len(),
    ensures
        ({
            let q = TubeStageParameters { makeup_gain_db: Some(g), ..p };
            settled(s.redirected(q, fs)).shaped(wave)[i] == settled(s.redirected(p, fs)).shaped(
                wave,
            )[i].s_mul(T::s_int(10).s_pow(g.s_div(T::s_int(20))))
        }),
{
    let q = TubeStageParameters { makeup_gain_db: Some(g), ..p };
    let k = T::s_int(10).s_pow(g.s_div(T::s_int(20)));
    lemma_zero_decibels::<T>();
    lemma_mul_units(k);
    lemma_makeup_gain_multiplies(
        settled(s.redirected(q, fs)),
        settled(s.redirected(p, fs)),
        k,
        wave,
        i,
    );
}

// ------------------------------- Fixed point -------------------------------

proof fn lemma_product_commutes(a: Fixed, b: Fixed)
    ensures
        a.s_mul(b) == b.s_mul(a),
{
    let m = magnitude(a.raw as int);
    let n = magnitude(b.raw as int);
    assert(m * n == n * m) by (nonlinear_arith);
}

/// More decibels are never a smaller factor; no decibels are a factor of one.
pub proof fn lemma_decibels_rise(g: Fixed, h: Fixed)
    requires
        g.raw <= h.raw,
    ensures
        0 <= s_db_to_linear(g).raw <= s_db_to_linear(h).raw,
        0 <= g.raw ==> ONE <= s_db_to_linear(g).raw,
        h.raw <= 0 ==> s_db_to_linear(h).raw <= ONE,
{
    let ten = Fixed::s_int(10);
    let one = s_one::<Fixed>();
    let zero = s_zero::<Fixed>();
    let twenty = Fixed::s_int(20);
    let l = ten.s_ln();
    lemma_ln_rises(one, ten);
    lemma_ln_rises(one, one);
    let x = g.s_div(twenty);
    let y = h.s_div(twenty);
    lemma_quotient_rises(g, h, twenty);
    lemma_quotient_rises(h, h, twenty);
    lemma_product_rises(l, x, y);
    lemma_product_commutes(l, x);
    lemma_product_commutes(l, y);
    lemma_exp_rises(x.s_mul(l), y.s_mul(l));
    lemma_zero_product(l);
    if 0 <= g.raw {
        lemma_product_rises(l, zero, x);
    }
    if h.raw <= 0 {
        lemma_product_rises(l, y, zero);
    }
    lemma_exp_bounds(x.s_mul(l));
    lemma_exp_bounds(y.s_mul(l));
}

/// Whether two chains differ in nothing but their makeup gain, and that of the first is nowhere
/// above that of the second.
pub open spec fn no_louder(a: Shaper<Fixed>, b: Shaper<Fixed>) -> bool {
    &&& a.dc_blocker_in == b.dc_blocker_in
    &&& a.model == b.model
    &&& a.transformer == b.transformer
    &&& a.dc_blocker_out == b.dc_blocker_out
    &&& a.makeup_gain.coeff == b.makeup_gain.coeff
    &&& 0 <= a.makeup_gain.coeff.raw <= ONE
    &&& 0 <= a.makeup_gain.current.raw <= b.makeup_gain.current.raw
    &&& 0 <= a.makeup_gain.target.raw <= b.makeup_gain.target.raw
}

proof fn lemma_louder_step(a: RampedValue<Fixed>, b: RampedValue<Fixed>)
    requires
        a.coeff == b.coeff,
        0 <= a.coeff.raw <= ONE,
        0 <= a.current.raw <= b.current.raw,
        0 <= a.target.raw <= b.target.raw,
    ensures
        0 <= a.ticked().current.raw <= b.ticked().current.raw,
{
    let rest = s_one::<Fixed>().s_sub(a.coeff);
    let zero = s_zero::<Fixed>();
    lemma_product_rises(a.coeff, a.current, b.current);
    lemma_product_rises(rest, a.target, b.target);
    lemma_product_rises(a.coeff, zero, a.current);
    lemma_product_rises(rest, zero, a.target);
    lemma_zero_product(a.coeff);
    lemma_zero_product(rest);
}

proof fn lemma_louder_chain(a: Shaper<Fixed>, b: Shaper<Fixed>, wave: Seq<Fixed>, n: int)
    requires
        no_louder(a, b),
    ensures
        no_louder(a.after_wave(wave, n), b.after_wave(wave, n)),
    decreases n,
{
    if n > 0 {
        lemma_louder_chain(a, b, wave, n - 1);
        lemma_louder_step(
            a.after_wave(wave, n - 1).makeup_gain,
            b.after_wave(wave, n - 1).makeup_gain,
        );
    }
}

/// More makeup gain never makes a sample smaller: of two chains that differ in it alone, whether
/// they are built anew or led on from where they are, the one with more decibels puts out no less,
/// sample by sample, whatever the sign of the sample.
pub proof fn lemma_more_makeup_is_no_quieter(
    s: Shaper<Fixed>,
    p: TubeStageParameters<Fixed>,
    g: Fixed,
    h: Fixed,
    fs: int,
    wave: Seq<Fixed>,
    i: int,
)
    requires
        g.raw <= h.raw,
        0 <= s.makeup_gain.current.raw,
        0 <= fs,
        0 <= i < wave.len(),
    ensures
        ({
            let less = TubeStageParameters { makeup_gain_db: Some(g), ..p };
            let more = TubeStageParameters { makeup_gain_db: Some(h), ..p };
            &&& magnitude(Shaper::resting(less, fs).shaped(wave)[i].raw as int) <= magnitude(
                Shaper::resting(more, fs).shaped(wave)[i].raw as int,
            )
            &&& magnitude(s.redirected(less, fs).shaped(wave)[i].raw as int) <= magnitude(
                s.redirected(more, fs).shaped(wave)[i].raw as int,
            )
        }),
{
    let less = TubeStageParameters { makeup_gain_db: Some(g), ..p };
    let more = TubeStageParameters { makeup_gain_db: Some(h), ..p };
    lemma_decibels_rise(g, h);
    let tau = Fixed::s_dec(20, 3);
    assert(0 <= tau.raw) by {
        reveal_with_fuel(tenths, 4);
    }
    lemma_one_pole_is_a_fraction(tau, fs);
    lemma_louder_output(Shaper::resting(less, fs), Shaper::resting(more, fs), wave, i);
    lemma_louder_output(s.redirected(less, fs), s.redirected(more, fs), wave, i);
}

proof fn lemma_louder_output(a: Shaper<Fixed>, b: Shaper<Fixed>, wave: Seq<Fixed>, i: int)
    requires
        no_louder(a, b),
        0 <= i < wave.len(),
    ensures
        magnitude(a.shaped(wave)[i].raw as int) <= magnitude(b.shaped(wave)[i].raw as int),
{
    lemma_louder_chain(a, b, wave, i);
    let c = a.after_wave(wave, i);
    let d = b.after_wave(wave, i);
    lemma_louder_step(c.makeup_gain, d.makeup_gain);
    let x = magnitude(c.blocked_out(wave[i]).raw as int);
    let u = c.makeup_gain.ticked().current.raw as int;
    let v = d.makeup_gain.ticked().current.raw as int;
    assert(0 <= x * u / (ONE as int) <= x * v / (ONE as int)) by (nonlinear_arith)
        requires
            0 <= x,
            0 <= u <= v,
    ;
}

} // verus!
