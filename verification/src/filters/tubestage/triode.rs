//! Single-ended triode model, based on the Koren plate-current equation:
//!
//! ```text
//! E1 = (Kp / mu) * ln(1 + exp(Kp * (1/mu + Vgk / sqrt(Kvb + Vpk^2))))
//! Ip = (E1^X) / Kg1                if E1 > 0, else 0
//! ```
//!
//! The audio path is: coupling cap (highpass), grid voltage swing, Koren static curve with a
//! plate voltage that sags with the current, the current about its quiescent value scaled and
//! inverted, cathode bypass (low-shelf attenuation), coupling cap (highpass). All running at the
//! oversampled rate.

use crate::arith::{db_to_linear, s_db_to_linear, s_one, s_zero};
use crate::config::TriodeModelParameters;
use crate::exact::{
    functions_have_signs, functions_rise, is_ordered, operations_rise, order_is_total,
};
use crate::filters::biquad::{coefficients_of, Biquad, BiquadCoefficients, BiquadParameters};
use crate::filters::tubestage::polynomial::{s_smooth_tau, smooth_tau};
use crate::filters::tubestage::ramp::{one_pole, one_pole_coeff, RampedValue};
use crate::fixed::{isqrt, lemma_isqrt, magnitude, Fixed, LN_2_RAW, ONE};
use crate::fixed_laws::{lemma_fixed_point_is_ordered, lemma_ln_limit};
use crate::prcfmt::PrcFmt;
use vstd::prelude::*;

verus! {

/// The triode model.
#[derive(Clone, Copy)]
pub struct TriodeModel<T: PrcFmt> {
    pub mu: T,
    pub kp: T,
    pub kvb: T,
    pub kg1: T,
    pub x_param: T,
    pub vbias: T,
    pub vplate: T,
    pub drive_lin: RampedValue<T>,
    pub sag_amount: T,
    /// Plate current at the quiescent operating point. Subtracted from the instantaneous current
    /// to centre the audio output around zero.
    pub ip_quiescent: T,
    /// Output normalisation derived from the small-signal slope at the quiescent point so that a
    /// unit input produces roughly a unit output.
    pub norm: T,
    /// Slow envelope of the plate current used for the sag (power-supply) modelling.
    pub sag_env: T,
    /// One-pole coefficient for the sag envelope.
    pub sag_coeff: T,
    pub coupling_in: Biquad<T>,
    pub coupling_out: Biquad<T>,
    /// Cathode bypass: low-shelf with negative gain to model the cathode resistor's effect at low
    /// frequencies (loss of gain due to local negative feedback below the bypass cap corner).
    pub cathode_bypass: Biquad<T>,
}

/// `ln(1 + exp(z))`, with its asymptotes where `z` is far from zero.
pub open spec fn softplus<T: PrcFmt>(z: T) -> T {
    if T::s_int(30).s_lt(z) {
        z
    } else if z.s_lt(T::s_int(-30)) {
        s_zero()
    } else {
        s_one::<T>().s_add(z.s_exp()).s_ln()
    }
}

/// The Koren plate current.
pub open spec fn koren<T: PrcFmt>(vgk: T, vpk: T, mu: T, kp: T, kvb: T, kg1: T, x_param: T) -> T {
    let z = kp.s_mul(
        s_one::<T>().s_div(mu).s_add(vgk.s_div(kvb.s_add(vpk.s_mul(vpk)).s_sqrt())),
    );
    let e1 = kp.s_div(mu).s_mul(softplus(z));
    if s_zero::<T>().s_lt(e1) {
        e1.s_pow(x_param).s_div(kg1)
    } else {
        s_zero()
    }
}

/// Computes the Koren plate current.
pub fn koren_plate_current<T: PrcFmt>(
    vgk: T,
    vpk: T,
    mu: T,
    kp: T,
    kvb: T,
    kg1: T,
    x_param: T,
) -> (r: T)
    ensures
        r == koren(vgk, vpk, mu, kp, kvb, kg1, x_param),
{
    let zero: T = T::of_int(0);
    let one: T = T::of_int(1);
    let z: T = kp.times(one.over(mu).plus(vgk.over(kvb.plus(vpk.times(vpk)).sqrt())));
    let soft: T = if T::of_int(30).lt(z) {
        z
    } else if z.lt(T::of_int(-30)) {
        zero
    } else {
        one.plus(z.exp()).ln()
    };
    let e1: T = kp.over(mu).times(soft);
    if zero.lt(e1) {
        e1.powf(x_param).over(kg1)
    } else {
        zero
    }
}

/// The plate current of the tube that `p` describes.
pub open spec fn plate_current<T: PrcFmt>(p: TriodeModelParameters<T>, vgk: T, vpk: T) -> T {
    koren(vgk, vpk, p.s_mu(), p.s_kp(), p.s_kvb(), p.s_kg1(), p.s_x())
}

/// The plate current at the quiescent point.
pub open spec fn quiescent<T: PrcFmt>(p: TriodeModelParameters<T>) -> T {
    plate_current(p, p.s_vbias(), p.s_vplate())
}

/// The normalisation: one over the small-signal slope at the quiescent point times the full grid
/// swing. The slope is estimated by a small step of the grid voltage.
pub open spec fn normalisation<T: PrcFmt>(p: TriodeModelParameters<T>) -> T {
    let bias = p.s_vbias();
    let dv = bias.s_abs().s_mul(T::s_dec(1, 2)).s_max(T::s_dec(1, 1));
    let slope = plate_current(p, bias.s_add(dv), p.s_vplate()).s_sub(quiescent(p)).s_div(
        dv,
    ).s_abs().s_max(T::s_dec(1, 9));
    s_one::<T>().s_div(slope.s_mul(bias.s_abs().s_max(s_one())))
}

/// The coefficients of a coupling capacitor.
pub open spec fn coupling<T: PrcFmt>(freq: T, fs: int) -> BiquadCoefficients<T> {
    coefficients_of(fs, BiquadParameters::HighpassFO { freq })
}

/// The coefficients of the cathode bypass.
pub open spec fn bypass<T: PrcFmt>(freq: T, fs: int) -> BiquadCoefficients<T> {
    coefficients_of(fs, BiquadParameters::LowshelfFO { freq, gain: T::s_int(-2) })
}

/// The sag envelope has a time constant of 50 ms.
pub open spec fn sag_coeff_at<T: PrcFmt>(fs: int) -> T {
    one_pole(T::s_dec(50, 3), fs)
}

/// A coupling capacitor.
pub fn make_highpass<T: PrcFmt>(freq: T, fs: usize) -> (r: Biquad<T>)
    ensures
        r == Biquad::at_rest(coupling(freq, fs as int)),
{
    Biquad::new(BiquadCoefficients::from_config(fs, BiquadParameters::HighpassFO { freq }))
}

/// A first-order low shelf.
pub fn make_low_shelf<T: PrcFmt>(freq: T, gain_db: T, fs: usize) -> (r: Biquad<T>)
    ensures
        r == Biquad::at_rest(
            coefficients_of(fs as int, BiquadParameters::LowshelfFO { freq, gain: gain_db }),
        ),
{
    Biquad::new(
        BiquadCoefficients::from_config(fs, BiquadParameters::LowshelfFO { freq, gain: gain_db }),
    )
}

impl<T: PrcFmt> TriodeModel<T> {
    /// The model that rests at the given parameters.
    pub open spec fn resting(p: TriodeModelParameters<T>, fs: int) -> Self {
        TriodeModel {
            mu: p.s_mu(),
            kp: p.s_kp(),
            kvb: p.s_kvb(),
            kg1: p.s_kg1(),
            x_param: p.s_x(),
            vbias: p.s_vbias(),
            vplate: p.s_vplate(),
            drive_lin: RampedValue::resting(s_db_to_linear(p.drive_db), s_smooth_tau(), fs),
            sag_amount: p.sag_amount,
            ip_quiescent: quiescent(p),
            norm: normalisation(p),
            sag_env: quiescent(p),
            sag_coeff: sag_coeff_at(fs),
            coupling_in: Biquad::at_rest(coupling(p.coupling_freq_in, fs)),
            coupling_out: Biquad::at_rest(coupling(p.coupling_freq_out, fs)),
            cathode_bypass: Biquad::at_rest(bypass(p.cathode_bypass_freq, fs)),
        }
    }

    /// The model on its way to the given parameters: everything is derived anew, but the states of
    /// the filters, of the drive smoother and of the sag envelope stay as they are.
    pub open spec fn redirected(self, p: TriodeModelParameters<T>, fs: int) -> Self {
        let new = Self::resting(p, fs);
        TriodeModel {
            drive_lin: self.drive_lin.redirected(
                s_db_to_linear(p.drive_db),
                s_smooth_tau(),
                fs,
            ),
            sag_env: self.sag_env,
            coupling_in: Biquad { coeffs: new.coupling_in.coeffs, ..self.coupling_in },
            coupling_out: Biquad { coeffs: new.coupling_out.coeffs, ..self.coupling_out },
            cathode_bypass: Biquad { coeffs: new.cathode_bypass.coeffs, ..self.cathode_bypass },
            ..new
        }
    }

    /// The plate current for the input `x`.
    pub open spec fn current_for(self, x: T) -> T {
        let drive = self.drive_lin.ticked().current;
        let scaled = drive.s_mul(self.coupling_in.output(x));
        let vgk = self.vbias.s_add(scaled.s_mul(self.vbias.s_abs()));
        let vplate_eff = self.vplate.s_sub(
            self.sag_amount.s_mul(self.sag_env.s_sub(self.ip_quiescent)),
        );
        koren(vgk, vplate_eff, self.mu, self.kp, self.kvb, self.kg1, self.x_param)
    }

    /// The signal at the plate for the input `x`: the current about its quiescent value, scaled
    /// and inverted.
    pub open spec fn plate_signal(self, x: T) -> T {
        self.current_for(x).s_sub(self.ip_quiescent).s_neg().s_mul(self.norm)
    }

    /// The output for the input `x`.
    pub open spec fn output(self, x: T) -> T {
        self.coupling_out.output(self.cathode_bypass.output(self.plate_signal(x)))
    }

    /// The model after the input `x`.
    pub open spec fn after(self, x: T) -> Self {
        let raw = self.plate_signal(x);
        TriodeModel {
            drive_lin: self.drive_lin.ticked(),
            sag_env: self.sag_coeff.s_mul(self.sag_env).s_add(
                s_one::<T>().s_sub(self.sag_coeff).s_mul(self.current_for(x)),
            ),
            coupling_in: self.coupling_in.after(x),
            cathode_bypass: self.cathode_bypass.after(raw),
            coupling_out: self.coupling_out.after(self.cathode_bypass.output(raw)),
            ..self
        }
    }

    pub fn from_config(p: &TriodeModelParameters<T>, oversampled_fs: usize) -> (r: Self)
        ensures
            r == Self::resting(*p, oversampled_fs as int),
    {
        let mu: T = p.mu();
        let kp: T = p.kp();
        let kvb: T = p.kvb();
        let kg1: T = p.kg1();
        let x_param: T = p.x();
        let vbias: T = p.vbias();
        let vplate: T = p.vplate();
        let drive_lin: T = db_to_linear(p.drive_db);
        let ip_quiescent: T = koren_plate_current(vbias, vplate, mu, kp, kvb, kg1, x_param);
        let dv: T = vbias.abs().times(T::decimal(1, 2)).max(T::decimal(1, 1));
        let ip_plus: T = koren_plate_current(vbias.plus(dv), vplate, mu, kp, kvb, kg1, x_param);
        let slope: T = ip_plus.minus(ip_quiescent).over(dv).abs().max(T::decimal(1, 9));
        let norm: T = T::of_int(1).over(slope.times(vbias.abs().max(T::of_int(1))));
        let coupling_in: Biquad<T> = make_highpass(p.coupling_freq_in, oversampled_fs);
        let coupling_out: Biquad<T> = make_highpass(p.coupling_freq_out, oversampled_fs);
        let cathode_bypass: Biquad<T> = make_low_shelf(
            p.cathode_bypass_freq,
            T::of_int(-2),
            oversampled_fs,
        );
        let sag_coeff: T = one_pole_coeff(T::decimal(50, 3), oversampled_fs);
        TriodeModel {
            mu,
            kp,
            kvb,
            kg1,
            x_param,
            vbias,
            vplate,
            drive_lin: RampedValue::new(drive_lin, smooth_tau(), oversampled_fs),
            sag_amount: p.sag_amount,
            ip_quiescent,
            norm,
            sag_env: ip_quiescent,
            sag_coeff,
            coupling_in,
            coupling_out,
            cathode_bypass,
        }
    }

    /// Re-derive everything from the new config but keep the filter and smoother states to avoid
    /// clicks.
    pub fn update(&mut self, p: &TriodeModelParameters<T>, oversampled_fs: usize)
        ensures
            *final(self) == old(self).redirected(*p, oversampled_fs as int),
    {
        let new: TriodeModel<T> = Self::from_config(p, oversampled_fs);
        self.mu = new.mu;
        self.kp = new.kp;
        self.kvb = new.kvb;
        self.kg1 = new.kg1;
        self.x_param = new.x_param;
        self.vbias = new.vbias;
        self.vplate = new.vplate;
        self.drive_lin.set_target(new.drive_lin.target());
        self.drive_lin.retune(smooth_tau(), oversampled_fs);
        self.sag_amount = new.sag_amount;
        self.ip_quiescent = new.ip_quiescent;
        self.norm = new.norm;
        self.coupling_in.set_coeffs(new.coupling_in.coeffs);
        self.coupling_out.set_coeffs(new.coupling_out.coeffs);
        self.cathode_bypass.set_coeffs(new.cathode_bypass.coeffs);
        self.sag_coeff = new.sag_coeff;
    }

    pub fn process_sample(&mut self, audio_in: T) -> (r: T)
        ensures
            r == old(self).output(audio_in),
            *final(self) == old(self).after(audio_in),
    {
        let coupled: T = self.coupling_in.process_single(audio_in);
        let drive: T = self.drive_lin.tick();
        let scaled: T = drive.times(coupled);
        let vgk: T = self.vbias.plus(scaled.times(self.vbias.abs()));
        let vplate_eff: T = self.vplate.minus(
            self.sag_amount.times(self.sag_env.minus(self.ip_quiescent)),
        );
        let ip: T = koren_plate_current(
            vgk,
            vplate_eff,
            self.mu,
            self.kp,
            self.kvb,
            self.kg1,
            self.x_param,
        );
        self.sag_env = self.sag_coeff.times(self.sag_env).plus(
            T::of_int(1).minus(self.sag_coeff).times(ip),
        );
        let raw: T = ip.minus(self.ip_quiescent).negated().times(self.norm);
        let bypassed: T = self.cathode_bypass.process_single(raw);
        self.coupling_out.process_single(bypassed)
    }
}

// ------------------------------- Laws -------------------------------

/// The argument of the softplus in the plate current.
pub open spec fn koren_drive<T: PrcFmt>(vgk: T, vpk: T, mu: T, kp: T, kvb: T) -> T {
    kp.s_mul(s_one::<T>().s_div(mu).s_add(vgk.s_div(kvb.s_add(vpk.s_mul(vpk)).s_sqrt())))
}

/// On either side of its upper cutoff the softplus does not fall as its argument rises.
proof fn lemma_softplus_rises<T: PrcFmt>(y: T, z: T)
    requires
        is_ordered::<T>(),
        y.s_le(z),
        T::s_int(30).s_lt(y) == T::s_int(30).s_lt(z),
    ensures
        softplus(y).s_le(softplus(z)),
{
    let zero = s_zero::<T>();
    let one = s_one::<T>();
    let low = T::s_int(-30);
    assert(functions_rise(y, z, zero));
    assert(functions_have_signs(y, zero) && functions_have_signs(z, zero));
    assert(operations_rise(y.s_exp(), z.s_exp(), one));
    assert(operations_rise(zero, y.s_exp(), one) && operations_rise(zero, z.s_exp(), one));
    let a = one.s_add(y.s_exp());
    let b = one.s_add(z.s_exp());
    // One and an exponential are at least one, so their logarithm is not negative.
    assert(order_is_total(zero, one, a) && order_is_total(zero, a, one));
    assert(order_is_total(one, a, zero) && order_is_total(zero, zero, zero));
    assert(zero.s_lt(a));
    assert(functions_rise(a, b, zero));
    assert(functions_rise(one, b, zero));
    if y.s_lt(low) {
        assert(zero.s_le(b.s_ln()));
    } else if z.s_lt(low) {
        assert(order_is_total(y, low, zero) && order_is_total(z, low, zero));
        assert(order_is_total(low, y, z));
    }
}

/// The plate current is not negative, and rises with the softplus of its drive.
proof fn lemma_current_rises_with_drive<T: PrcFmt>(
    low: T,
    high: T,
    vpk: T,
    mu: T,
    kp: T,
    kvb: T,
    kg1: T,
    x_param: T,
)
    requires
        is_ordered::<T>(),
        s_zero::<T>().s_lt(mu),
        s_zero::<T>().s_lt(kp),
        s_zero::<T>().s_lt(kg1),
        s_zero::<T>().s_lt(x_param),
        softplus(koren_drive(low, vpk, mu, kp, kvb)).s_le(
            softplus(koren_drive(high, vpk, mu, kp, kvb)),
        ),
    ensures
        s_zero::<T>().s_le(koren(low, vpk, mu, kp, kvb, kg1, x_param)),
        koren(low, vpk, mu, kp, kvb, kg1, x_param).s_le(
            koren(high, vpk, mu, kp, kvb, kg1, x_param),
        ),
{
    let zero = s_zero::<T>();
    let y = koren_drive(low, vpk, mu, kp, kvb);
    let z = koren_drive(high, vpk, mu, kp, kvb);
    assert(order_is_total(zero, kp, zero) && order_is_total(kp, zero, zero));
    assert(order_is_total(zero, x_param, zero) && order_is_total(x_param, zero, zero));
    let gain = kp.s_div(mu);
    assert(zero.s_le(gain)) by {
        assert(operations_rise(zero, kp, mu));
        assert(functions_have_signs(zero, mu));
    }
    let a = gain.s_mul(softplus(y));
    let b = gain.s_mul(softplus(z));
    assert(a.s_le(b)) by {
        assert(operations_rise(softplus(y), softplus(z), gain));
    }
    assert(order_is_total(zero, a, b) && order_is_total(zero, b, a) && order_is_total(a, b, zero));
    assert(order_is_total(zero, zero, zero));
    assert(functions_rise(a, b, x_param));
    assert(functions_have_signs(a, x_param) && functions_have_signs(b, x_param));
    assert(functions_have_signs(b, kg1));
    assert(operations_rise(a.s_pow(x_param), b.s_pow(x_param), kg1));
    assert(operations_rise(zero, a.s_pow(x_param), kg1));
    assert(operations_rise(zero, b.s_pow(x_param), kg1));
    if zero.s_lt(a) {
        assert(zero.s_lt(b));
    }
}

/// The drive rises with the grid voltage.
proof fn lemma_drive_rises<T: PrcFmt>(low: T, high: T, vpk: T, mu: T, kp: T, kvb: T)
    requires
        is_ordered::<T>(),
        low.s_le(high),
        s_zero::<T>().s_lt(kp),
        s_zero::<T>().s_lt(kvb.s_add(vpk.s_mul(vpk)).s_sqrt()),
    ensures
        koren_drive(low, vpk, mu, kp, kvb).s_le(koren_drive(high, vpk, mu, kp, kvb)),
{
    let zero = s_zero::<T>();
    let root = kvb.s_add(vpk.s_mul(vpk)).s_sqrt();
    let base = s_one::<T>().s_div(mu);
    assert(order_is_total(zero, kp, zero) && order_is_total(kp, zero, zero));
    assert(operations_rise(low, high, root));
    assert(operations_rise(low.s_div(root), high.s_div(root), base));
    assert(operations_rise(base.s_add(low.s_div(root)), base.s_add(high.s_div(root)), kp));
}

/// The plate current never falls as the grid voltage rises, where arithmetic keeps the order. The
/// two voltages lie on the same side of the point from which on the softplus is replaced by its
/// asymptote.
pub proof fn lemma_plate_current_rises<T: PrcFmt>(
    low: T,
    high: T,
    vpk: T,
    mu: T,
    kp: T,
    kvb: T,
    kg1: T,
    x_param: T,
)
    requires
        is_ordered::<T>(),
        low.s_le(high),
        s_zero::<T>().s_lt(mu),
        s_zero::<T>().s_lt(kp),
        s_zero::<T>().s_lt(kvb.s_add(vpk.s_mul(vpk)).s_sqrt()),
        s_zero::<T>().s_lt(kg1),
        s_zero::<T>().s_lt(x_param),
        T::s_int(30).s_lt(koren_drive(low, vpk, mu, kp, kvb)) == T::s_int(30).s_lt(
            koren_drive(high, vpk, mu, kp, kvb),
        ),
    ensures
        s_zero::<T>().s_le(koren(low, vpk, mu, kp, kvb, kg1, x_param)),
        koren(low, vpk, mu, kp, kvb, kg1, x_param).s_le(
            koren(high, vpk, mu, kp, kvb, kg1, x_param),
        ),
{
    lemma_drive_rises(low, high, vpk, mu, kp, kvb);
    lemma_softplus_rises(
        koren_drive(low, vpk, mu, kp, kvb),
        koren_drive(high, vpk, mu, kp, kvb),
    );
    lemma_current_rises_with_drive(low, high, vpk, mu, kp, kvb, kg1, x_param);
}

/// In fixed point the softplus does not fall as its argument rises, across its upper cutoff too:
/// the largest logarithm lies below the cutoff.
proof fn lemma_softplus_rises_in_fixed_point(y: Fixed, z: Fixed)
    requires
        y.raw <= z.raw,
    ensures
        softplus(y).raw <= softplus(z).raw,
{
    lemma_fixed_point_is_ordered();
    let cutoff = Fixed::s_int(30);
    assert(cutoff.raw == 30 * ONE);
    if cutoff.s_lt(y) == cutoff.s_lt(z) {
        lemma_softplus_rises(y, z);
    } else {
        lemma_ln_limit(s_one::<Fixed>().s_add(y.s_exp()));
        assert(31 * LN_2_RAW < 30 * ONE);
    }
}

/// In fixed point the plate current is never negative and never falls as the grid voltage rises,
/// not even by the last place.
pub proof fn lemma_plate_current_rises_in_fixed_point(
    low: Fixed,
    high: Fixed,
    vpk: Fixed,
    mu: Fixed,
    kp: Fixed,
    kvb: Fixed,
    kg1: Fixed,
    x_param: Fixed,
)
    requires
        low.raw <= high.raw,
        0 < mu.raw,
        0 < kp.raw,
        0 < kvb.raw,
        0 < kg1.raw,
        0 < x_param.raw,
    ensures
        0 <= koren(low, vpk, mu, kp, kvb, kg1, x_param).raw <= koren(
            high,
            vpk,
            mu,
            kp,
            kvb,
            kg1,
            x_param,
        ).raw,
{
    lemma_fixed_point_is_ordered();
    let sum = kvb.s_add(vpk.s_mul(vpk));
    let m = magnitude(vpk.raw as int);
    assert(0 <= m * m / (ONE as int)) by (nonlinear_arith);
    assert(0 < sum.raw);
    lemma_isqrt(sum.raw * ONE);
    assert(0 < isqrt(sum.raw * ONE)) by (nonlinear_arith)
        requires
            0 < sum.raw,
            0 <= isqrt(sum.raw * ONE),
            sum.raw * ONE < (isqrt(sum.raw * ONE) + 1) * (isqrt(sum.raw * ONE) + 1),
    ;
    lemma_drive_rises(low, high, vpk, mu, kp, kvb);
    lemma_softplus_rises_in_fixed_point(
        koren_drive(low, vpk, mu, kp, kvb),
        koren_drive(high, vpk, mu, kp, kvb),
    );
    lemma_current_rises_with_drive(low, high, vpk, mu, kp, kvb, kg1, x_param);
}

} // verus!
