//! What the triode model does to the signal: the plate current equation in literal numbers, the
//! grid swing, the sag, the inversion and the normalisation.

use crate::arith::{s_db_to_linear, s_one, s_zero};
use crate::config::TriodeModelParameters;
use crate::exact::sums_commute;
use crate::filters::biquad_laws::{lemma_highpass, lemma_low_shelf};
use crate::filters::tubestage::gain_laws::lemma_rest_is_kept;
use crate::filters::tubestage::triode::{
    bypass, coupling, koren, koren_drive, normalisation, plate_current, quiescent, softplus,
    TriodeModel,
};
use crate::prcfmt::PrcFmt;
use crate::reals::{
    choices_follow_order, exponentials_multiply, is_real, lemma_add_not_below, lemma_add_zero,
    lemma_decimal, lemma_div_is, lemma_div_mul, lemma_integers, lemma_mixture, lemma_mul_cancel,
    lemma_mul_moves, lemma_mul_neg, lemma_mul_spreads, lemma_mul_units, lemma_negatives,
    lemma_order, lemma_order_kept, lemma_pairs, lemma_positive, lemma_sub_add, lemma_sub_is,
    lemma_sub_is_add_neg, lemma_twenty_decibels, power_of_ten, powers_multiply,
};
use vstd::prelude::*;

verus! {

// ------------------------------- Plate current -------------------------------

/// Between -30 and 30 the softplus is the logarithm of one and the exponential of its argument;
/// above it is the argument, and below it is zero.
pub proof fn lemma_softplus<T: PrcFmt>(z: T)
    requires
        is_real::<T>(),
    ensures
        T::s_int(-30).s_le(z) && z.s_le(T::s_int(30)) ==> softplus(z).s_exp() == s_one::<T>().s_add(
            z.s_exp(),
        ),
        T::s_int(30).s_lt(z) ==> softplus(z) == z,
        z.s_lt(T::s_int(-30)) ==> softplus(z) == s_zero::<T>(),
{
    let one = s_one::<T>();
    let zero = s_zero::<T>();
    let sum = one.s_add(z.s_exp());
    lemma_order(z, T::s_int(-30), z);
    lemma_order(T::s_int(-30), z, T::s_int(30));
    lemma_order(T::s_int(30), z, z);
    lemma_order(z, T::s_int(30), z);
    lemma_integers::<T>(-30, 30);
    lemma_order(T::s_int(-30), T::s_int(30), z);
    assert(exponentials_multiply(z, z));
    lemma_integers::<T>(0, 1);
    lemma_order(zero, z.s_exp(), zero);
    lemma_order_kept(zero, z.s_exp(), one);
    lemma_add_zero(one);
    lemma_order(zero, one, sum);
    lemma_order(zero, sum, one);
    lemma_order(sum, zero, one);
    lemma_order(one, zero, sum);
    lemma_order(one, sum, zero);
    assert(zero.s_lt(sum));
    assert(exponentials_multiply(sum, sum));
}

/// The argument of the softplus, without quotients: `z mu r = kp (r + mu Vgk)`, where the square of
/// `r` is `Kvb + Vpk^2`.
pub proof fn lemma_koren_drive<T: PrcFmt>(vgk: T, vpk: T, mu: T, kp: T, kvb: T)
    requires
        is_real::<T>(),
        mu != s_zero::<T>(),
        kvb.s_add(vpk.s_mul(vpk)).s_sqrt() != s_zero::<T>(),
    ensures
        ({
            let r = kvb.s_add(vpk.s_mul(vpk)).s_sqrt();
            koren_drive(vgk, vpk, mu, kp, kvb).s_mul(mu.s_mul(r)) == kp.s_mul(
                r.s_add(mu.s_mul(vgk)),
            )
        }),
{
    let r = kvb.s_add(vpk.s_mul(vpk)).s_sqrt();
    let one = s_one::<T>();
    let a = one.s_div(mu);
    let b = vgk.s_div(r);
    let m = mu.s_mul(r);
    lemma_div_mul(one, mu);
    lemma_div_mul(vgk, r);
    lemma_mul_moves(a, mu, r);
    lemma_mul_units(r);
    assert(a.s_mul(m) == r);
    lemma_mul_moves(b, mu, r);
    assert(b.s_mul(m) == mu.s_mul(vgk));
    lemma_mul_spreads(m, a, b);
    lemma_mul_moves(kp, a.s_add(b), m);
}

/// The plate current with an exponent of one: `Ip Kg1 mu = Kp softplus(z)`, where that is above
/// zero, and zero elsewhere. The exponents of two currents add up where the currents are
/// multiplied, so that this settles every exponent.
pub proof fn lemma_koren_current<T: PrcFmt>(
    vgk: T,
    vpk: T,
    mu: T,
    kp: T,
    kvb: T,
    kg1: T,
    x: T,
    y: T,
)
    requires
        is_real::<T>(),
        s_zero::<T>().s_lt(mu),
        s_zero::<T>().s_lt(kp),
        s_zero::<T>().s_lt(kg1),
    ensures
        ({
            let soft = softplus(koren_drive(vgk, vpk, mu, kp, kvb));
            &&& s_zero::<T>().s_lt(soft) ==> koren(vgk, vpk, mu, kp, kvb, kg1, s_one()).s_mul(
                kg1,
            ).s_mul(mu) == kp.s_mul(soft)
            &&& s_zero::<T>().s_lt(soft) ==> koren(
                vgk,
                vpk,
                mu,
                kp,
                kvb,
                kg1,
                x.s_add(y),
            ).s_mul(kg1) == koren(vgk, vpk, mu, kp, kvb, kg1, x).s_mul(kg1).s_mul(
                koren(vgk, vpk, mu, kp, kvb, kg1, y).s_mul(kg1),
            )
            &&& !s_zero::<T>().s_lt(soft) ==> koren(vgk, vpk, mu, kp, kvb, kg1, x) == s_zero::<T>()
        }),
{
    let zero = s_zero::<T>();
    let one = s_one::<T>();
    let soft = softplus(koren_drive(vgk, vpk, mu, kp, kvb));
    let g = kp.s_div(mu);
    let e1 = g.s_mul(soft);
    lemma_positive(kp, mu);
    lemma_order(zero, mu, zero);
    lemma_order(zero, kg1, zero);
    lemma_order(zero, g, zero);
    if zero.s_lt(soft) {
        lemma_positive(g, soft);
        assert(powers_multiply(e1, x, y));
        lemma_div_mul(e1.s_pow(one), kg1);
        lemma_div_mul(e1.s_pow(x), kg1);
        lemma_div_mul(e1.s_pow(y), kg1);
        lemma_div_mul(e1.s_pow(x.s_add(y)), kg1);
        lemma_div_mul(kp, mu);
        lemma_mul_moves(g, soft, mu);
    } else {
        lemma_order(zero, soft, zero);
        lemma_order_kept(soft, zero, g);
        lemma_mul_units(g);
        lemma_order(zero, e1, zero);
    }
}

// ------------------------------- Grid, sag and inversion -------------------------------

/// The input swings the grid about its bias: an input of full scale takes it from the bias to zero,
/// and one of the other sign to twice the bias, at the plate voltage that the sag leaves.
pub proof fn lemma_full_swing<T: PrcFmt>(m: TriodeModel<T>, x: T)
    requires
        is_real::<T>(),
        m.vbias.s_lt(s_zero()),
        m.sag_env == m.ip_quiescent,
    ensures
        m.drive_lin.ticked().current.s_mul(m.coupling_in.output(x)) == s_one::<T>()
            ==> m.current_for(x) == koren(
            s_zero(),
            m.vplate,
            m.mu,
            m.kp,
            m.kvb,
            m.kg1,
            m.x_param,
        ),
        m.drive_lin.ticked().current.s_mul(m.coupling_in.output(x)) == s_one::<T>().s_neg()
            ==> m.current_for(x) == koren(
            m.vbias.s_add(m.vbias),
            m.vplate,
            m.mu,
            m.kp,
            m.kvb,
            m.kg1,
            m.x_param,
        ),
        m.drive_lin.ticked().current.s_mul(m.coupling_in.output(x)) == s_zero::<T>()
            ==> m.current_for(x) == koren(
            m.vbias,
            m.vplate,
            m.mu,
            m.kp,
            m.kvb,
            m.kg1,
            m.x_param,
        ),
{
    let zero = s_zero::<T>();
    let one = s_one::<T>();
    let b = m.vbias;
    assert(choices_follow_order(b, zero));
    let swing = b.s_abs();
    assert(swing == b.s_neg());
    lemma_sub_is_add_neg(b, b);
    lemma_mul_units(swing);
    lemma_mul_neg(one, swing);
    lemma_mul_units(one);
    lemma_negatives(b, b);
    lemma_add_zero(b);
    lemma_no_sag(m);
}

/// A current envelope at its quiescent value leaves the plate voltage alone.
proof fn lemma_no_sag<T: PrcFmt>(m: TriodeModel<T>)
    requires
        is_real::<T>(),
        m.sag_env == m.ip_quiescent,
    ensures
        m.vplate.s_sub(m.sag_amount.s_mul(m.sag_env.s_sub(m.ip_quiescent))) == m.vplate,
{
    lemma_sub_is_add_neg(m.sag_env, m.sag_env);
    lemma_mul_units(m.sag_amount);
    lemma_add_zero(m.vplate);
    lemma_sub_is(m.vplate, m.vplate, s_zero());
}

/// The plate voltage sags with the current: an envelope that lies `d` above the quiescent current
/// does what a plate voltage does that is lower by `d` times the sag amount.
pub proof fn lemma_sag_lowers_the_plate_voltage<T: PrcFmt>(m: TriodeModel<T>, d: T, x: T)
    requires
        is_real::<T>(),
        m.sag_env == m.ip_quiescent,
    ensures
        (TriodeModel { sag_env: m.ip_quiescent.s_add(d), ..m }).current_for(x) == (TriodeModel {
            vplate: m.vplate.s_sub(m.sag_amount.s_mul(d)),
            ..m
        }).current_for(x),
{
    lemma_sub_is(m.ip_quiescent.s_add(d), m.ip_quiescent, d);
    lemma_no_sag(TriodeModel { vplate: m.vplate.s_sub(m.sag_amount.s_mul(d)), ..m });
}

/// The envelope follows the current: each sample takes its distance from the current down by the
/// coefficient.
pub proof fn lemma_envelope_follows_the_current<T: PrcFmt>(m: TriodeModel<T>, x: T)
    requires
        is_real::<T>(),
    ensures
        m.after(x).sag_env.s_sub(m.current_for(x)) == m.sag_coeff.s_mul(
            m.sag_env.s_sub(m.current_for(x)),
        ),
{
    lemma_mixture(m.sag_coeff, m.sag_env, m.current_for(x));
}

/// The plate inverts: of two inputs, the one that draws more current puts out no more.
pub proof fn lemma_plate_inverts<T: PrcFmt>(m: TriodeModel<T>, x: T, y: T)
    requires
        is_real::<T>(),
        s_zero::<T>().s_le(m.norm),
        m.current_for(x).s_le(m.current_for(y)),
    ensures
        m.plate_signal(y).s_le(m.plate_signal(x)),
        m.plate_signal(x).s_sub(m.plate_signal(y)) == m.current_for(y).s_sub(
            m.current_for(x),
        ).s_mul(m.norm),
{
    let q = m.ip_quiescent;
    let a = m.current_for(x);
    let b = m.current_for(y);
    lemma_negatives(a, q);
    lemma_negatives(b, q);
    let u = q.s_sub(a);
    let v = q.s_sub(b);
    lemma_mul_spreads(m.norm, u, v);
    // (q - a) - (q - b) = b - a.
    assert(u.s_sub(v) == b.s_sub(a)) by {
        lemma_sub_is_add_neg(q, a);
        lemma_sub_is_add_neg(u, v);
        lemma_negatives(q, b);
        lemma_sub_is_add_neg(b, q);
        lemma_sub_is_add_neg(b, a);
        lemma_sub_is_add_neg(q, q);
        lemma_pairs(q, a.s_neg(), q.s_neg(), b);
        assert(sums_commute(q.s_neg(), b));
        assert(sums_commute(a.s_neg(), b));
        lemma_add_zero(b.s_sub(a));
    }
    let d = b.s_sub(a);
    lemma_order_kept(a, b, a);
    lemma_order_kept(s_zero(), d, m.norm);
    lemma_mul_units(m.norm);
    let s = m.plate_signal(x);
    let t = m.plate_signal(y);
    lemma_sub_add(s, t);
    lemma_add_not_below(t, s.s_sub(t));
}

/// Silence gives silence: a model that rests puts out zero for an input of zero.
pub proof fn lemma_silence_stays_silent<T: PrcFmt>(p: TriodeModelParameters<T>, fs: int)
    requires
        is_real::<T>(),
    ensures
        TriodeModel::resting(p, fs).plate_signal(s_zero()) == s_zero::<T>(),
        TriodeModel::resting(p, fs).output(s_zero()) == s_zero::<T>(),
{
    let m = TriodeModel::resting(p, fs);
    let zero = s_zero::<T>();
    let drive = m.drive_lin.ticked().current;
    lemma_mul_units(m.coupling_in.coeffs.b0);
    lemma_mul_units(m.cathode_bypass.coeffs.b0);
    lemma_mul_units(m.coupling_out.coeffs.b0);
    lemma_add_zero(zero);
    lemma_mul_units(drive);
    lemma_mul_units(m.vbias.s_abs());
    lemma_add_zero(m.vbias);
    lemma_no_sag(m);
    let q = quiescent(p);
    assert(m.current_for(zero) == q);
    lemma_sub_is_add_neg(q, q);
    lemma_sub_is_add_neg(zero, zero);
    lemma_add_zero(zero.s_neg());
    lemma_mul_units(m.norm);
}

/// Twenty decibels more of drive do to the grid what an input ten times as large does.
pub proof fn lemma_drive_scales_the_grid_swing<T: PrcFmt>(
    p: TriodeModelParameters<T>,
    q: TriodeModelParameters<T>,
    fs: int,
    x: T,
)
    requires
        is_real::<T>(),
        q == (TriodeModelParameters { drive_db: p.drive_db.s_add(T::s_int(20)), ..p }),
    ensures
        TriodeModel::resting(q, fs).current_for(x) == TriodeModel::resting(p, fs).current_for(
            T::s_int(10).s_mul(x),
        ),
        TriodeModel::resting(q, fs).output(x) == TriodeModel::resting(p, fs).output(
            T::s_int(10).s_mul(x),
        ),
{
    let a = TriodeModel::resting(p, fs);
    let b = TriodeModel::resting(q, fs);
    let ten = T::s_int(10);
    let k = s_db_to_linear(p.drive_db);
    lemma_rest_is_kept(a.drive_lin);
    lemma_rest_is_kept(b.drive_lin);
    lemma_twenty_decibels(p.drive_db);
    assert(quiescent(q) == quiescent(p) && normalisation(q) == normalisation(p));
    let b0 = a.coupling_in.coeffs.b0;
    lemma_add_zero(b0.s_mul(x));
    lemma_add_zero(b0.s_mul(ten.s_mul(x)));
    lemma_mul_moves(b0, ten, x);
    let c = b0.s_mul(x);
    lemma_mul_moves(ten, k, c);
    lemma_mul_moves(k, ten, c);
    assert(ten.s_mul(k).s_mul(c) == k.s_mul(ten.s_mul(c)));
}

// ------------------------------- Normalisation and filters -------------------------------

/// The normalisation makes the slope at the quiescent point one over the full grid swing: with the
/// step `dv` that the slope is estimated by, `norm |I(bias + dv) - I(bias)| swing = dv`, where the
/// slope is not below `1e-9`. The step is a hundredth of the bias, or a tenth where that is larger.
pub proof fn lemma_normalisation<T: PrcFmt>(p: TriodeModelParameters<T>, dv: T)
    requires
        is_real::<T>(),
        s_zero::<T>().s_lt(dv),
        T::s_int(10).s_le(p.s_vbias().s_abs()) ==> dv.s_mul(T::s_int(100)) == p.s_vbias().s_abs(),
        p.s_vbias().s_abs().s_lt(T::s_int(10)) ==> dv.s_mul(T::s_int(10)) == s_one::<T>(),
        T::s_dec(1, 9).s_lt(
            plate_current(p, p.s_vbias().s_add(dv), p.s_vplate()).s_sub(quiescent(p)).s_div(
                dv,
            ).s_abs(),
        ),
    ensures
        normalisation(p).s_mul(
            plate_current(p, p.s_vbias().s_add(dv), p.s_vplate()).s_sub(quiescent(p)).s_div(
                dv,
            ).s_abs().s_mul(p.s_vbias().s_abs().s_max(s_one())),
        ) == s_one::<T>(),
{
    let zero = s_zero::<T>();
    let one = s_one::<T>();
    let swing = p.s_vbias().s_abs();
    let h = T::s_dec(1, 2);
    let t = T::s_dec(1, 1);
    reveal_with_fuel(power_of_ten, 10);
    lemma_decimal::<T>(1, 2);
    lemma_decimal::<T>(1, 1);
    lemma_decimal::<T>(1, 9);
    lemma_integers::<T>(0, 100);
    lemma_integers::<T>(0, 10);
    lemma_integers::<T>(100, 0);
    lemma_integers::<T>(10, 0);
    lemma_integers::<T>(0, 1);
    lemma_integers::<T>(10, 10);
    lemma_integers::<T>(0, 1000000000);
    let part = swing.s_mul(h);
    lemma_mul_moves(swing, h, T::s_int(100));
    lemma_mul_units(swing);
    assert(part.s_mul(T::s_int(100)) == swing);
    lemma_mul_moves(t, T::s_int(10), T::s_int(10));
    lemma_mul_units(T::s_int(10));
    assert(t.s_mul(T::s_int(100)) == T::s_int(10));
    lemma_div_is(swing, T::s_int(100), part);
    lemma_div_is(T::s_int(10), T::s_int(100), t);
    assert(choices_follow_order(part, t));
    lemma_order(T::s_int(10), swing, zero);
    lemma_order(swing, T::s_int(10), zero);
    lemma_order(part, t, zero);
    lemma_order(t, part, zero);
    if T::s_int(10).s_le(swing) {
        lemma_order_kept(T::s_int(10), swing, T::s_int(100));
        lemma_mul_cancel(dv, part, T::s_int(100));
    } else {
        lemma_order_kept(swing, T::s_int(10), T::s_int(100));
        lemma_mul_cancel(dv, t, T::s_int(10));
    }
    assert(part.s_max(t) == dv);
    let slope = plate_current(p, p.s_vbias().s_add(dv), p.s_vplate()).s_sub(quiescent(p)).s_div(
        dv,
    ).s_abs();
    let least = T::s_dec(1, 9);
    assert(choices_follow_order(slope, least));
    lemma_order(least, slope, zero);
    lemma_order(slope, least, zero);
    assert(slope.s_max(least) == slope);
    lemma_positive(one, T::s_int(1000000000));
    lemma_div_is(one, T::s_int(1000000000), least);
    lemma_order(zero, least, slope);
    lemma_order(zero, slope, zero);
    lemma_order(slope, zero, least);
    lemma_order(least, zero, slope);
    assert(zero.s_lt(slope));
    let full = swing.s_max(one);
    assert(choices_follow_order(swing, one));
    lemma_order(zero, one, full);
    lemma_order(swing, one, zero);
    lemma_order(one, swing, zero);
    lemma_order(zero, full, one);
    lemma_order(full, zero, one);
    assert(zero.s_lt(full)) by {
        lemma_order(one, full, zero);
        lemma_order(one, zero, full);
    }
    lemma_positive(slope, full);
    lemma_div_mul(one, slope.s_mul(full));
}

/// The coupling capacitors let no DC through, and the cathode bypass takes 2 dB from it.
pub proof fn lemma_filters_at_dc<T: PrcFmt>(freq: T, fs: int)
    requires
        is_real::<T>(),
        fs > 0,
        s_one::<T>().s_add(T::s_pi().s_mul(freq).s_div(T::s_int(fs)).s_tan()) != s_zero::<T>(),
        T::s_pi().s_mul(freq).s_div(T::s_int(fs)).s_tan().s_add(
            T::s_int(10).s_pow(T::s_int(-2).s_div(T::s_int(40))),
        ) != s_zero::<T>(),
    ensures
        coupling(freq, fs).b0.s_add(coupling(freq, fs).b1) == s_zero::<T>(),
        bypass(freq, fs).b0.s_add(bypass(freq, fs).b1) == T::s_int(10).s_pow(
            T::s_int(-2).s_div(T::s_int(20)),
        ).s_mul(s_one::<T>().s_add(bypass(freq, fs).a1)),
{
    lemma_highpass(fs, freq);
    lemma_low_shelf(fs, freq, T::s_int(-2));
}

} // verus!
