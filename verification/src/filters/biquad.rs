//! Second-order sections.

use crate::arith::{s_one, s_zero};
use crate::prcfmt::PrcFmt;
use vstd::prelude::*;

verus! {

/// The coefficients of a section, normalised so that the first feedback coefficient is one.
#[derive(Clone, Copy)]
pub struct BiquadCoefficients<T: PrcFmt> {
    pub a1: T,
    pub a2: T,
    pub b0: T,
    pub b1: T,
    pub b2: T,
}

/// The sections that the tube stage is built from.
pub enum BiquadParameters<T> {
    /// First-order high shelf.
    HighshelfFO { freq: T, gain: T },
    /// First-order low shelf.
    LowshelfFO { freq: T, gain: T },
    /// First-order highpass.
    HighpassFO { freq: T },
}

/// First-order coefficients divided by the first feedback coefficient.
pub open spec fn first_order<T: PrcFmt>(a0: T, a1: T, b0: T, b1: T) -> BiquadCoefficients<T> {
    BiquadCoefficients {
        a1: a1.s_div(a0),
        a2: s_zero::<T>().s_div(a0),
        b0: b0.s_div(a0),
        b1: b1.s_div(a0),
        b2: s_zero::<T>().s_div(a0),
    }
}

/// The tangent of half the angular frequency.
pub open spec fn warped<T: PrcFmt>(fs: int, freq: T) -> T {
    T::s_int(2).s_mul(T::s_pi()).s_mul(freq).s_div(T::s_int(fs)).s_div(T::s_int(2)).s_tan()
}

/// The root of the amplitude of a shelf gain in decibels.
pub open spec fn shelf_amplitude<T: PrcFmt>(gain: T) -> T {
    T::s_int(10).s_pow(gain.s_div(T::s_int(40)))
}

/// The coefficients of a section at the sample rate `fs`.
pub open spec fn coefficients_of<T: PrcFmt>(
    fs: int,
    params: BiquadParameters<T>,
) -> BiquadCoefficients<T> {
    match params {
        BiquadParameters::HighshelfFO { freq, gain } => {
            let tn = warped(fs, freq);
            let ampl = shelf_amplitude(gain);
            first_order(
                ampl.s_mul(tn).s_add(s_one()),
                ampl.s_mul(tn).s_sub(s_one()),
                ampl.s_mul(tn).s_add(ampl.s_mul(ampl)),
                ampl.s_mul(tn).s_sub(ampl.s_mul(ampl)),
            )
        },
        BiquadParameters::LowshelfFO { freq, gain } => {
            let tn = warped(fs, freq);
            let ampl = shelf_amplitude(gain);
            first_order(
                tn.s_add(ampl),
                tn.s_sub(ampl),
                ampl.s_mul(ampl).s_mul(tn).s_add(ampl),
                ampl.s_mul(ampl).s_mul(tn).s_sub(ampl),
            )
        },
        BiquadParameters::HighpassFO { freq } => {
            let k = warped(fs, freq);
            let alpha = s_one::<T>().s_add(k);
            BiquadCoefficients {
                a1: s_one::<T>().s_sub(k).s_div(alpha).s_neg(),
                a2: s_zero(),
                b0: s_one::<T>().s_div(alpha),
                b1: s_one::<T>().s_neg().s_div(alpha),
                b2: s_zero(),
            }
        },
    }
}

fn normalized<T: PrcFmt>(a0: T, a1: T, b0: T, b1: T) -> (r: BiquadCoefficients<T>)
    ensures
        r == first_order(a0, a1, b0, b1),
{
    let zero: T = T::of_int(0);
    BiquadCoefficients {
        a1: a1.over(a0),
        a2: zero.over(a0),
        b0: b0.over(a0),
        b1: b1.over(a0),
        b2: zero.over(a0),
    }
}

fn warp<T: PrcFmt>(fs: usize, freq: T) -> (r: T)
    ensures
        r == warped(fs as int, freq),
{
    T::of_int(2).times(T::pi()).times(freq).over(T::of_usize(fs)).over(T::of_int(2)).tan()
}

impl<T: PrcFmt> BiquadCoefficients<T> {
    /// Computes the coefficients of a section at the sample rate `fs`.
    pub fn from_config(fs: usize, params: BiquadParameters<T>) -> (r: Self)
        ensures
            r == coefficients_of(fs as int, params),
    {
        let one: T = T::of_int(1);
        match params {
            BiquadParameters::HighshelfFO { freq, gain } => {
                let tn: T = warp(fs, freq);
                let ampl: T = T::of_int(10).powf(gain.over(T::of_int(40)));
                let slope: T = ampl.times(tn);
                let sq: T = ampl.times(ampl);
                normalized(slope.plus(one), slope.minus(one), slope.plus(sq), slope.minus(sq))
            },
            BiquadParameters::LowshelfFO { freq, gain } => {
                let tn: T = warp(fs, freq);
                let ampl: T = T::of_int(10).powf(gain.over(T::of_int(40)));
                let slope: T = ampl.times(ampl).times(tn);
                normalized(tn.plus(ampl), tn.minus(ampl), slope.plus(ampl), slope.minus(ampl))
            },
            BiquadParameters::HighpassFO { freq } => {
                let k: T = warp(fs, freq);
                let alpha: T = one.plus(k);
                BiquadCoefficients {
                    a1: one.minus(k).over(alpha).negated(),
                    a2: T::of_int(0),
                    b0: one.over(alpha),
                    b1: one.negated().over(alpha),
                    b2: T::of_int(0),
                }
            },
        }
    }
}

/// A second-order section in transposed direct form.
#[derive(Clone, Copy)]
pub struct Biquad<T: PrcFmt> {
    pub s1: T,
    pub s2: T,
    pub coeffs: BiquadCoefficients<T>,
}

impl<T: PrcFmt> Biquad<T> {
    /// A section that has seen no audio yet.
    pub open spec fn at_rest(coeffs: BiquadCoefficients<T>) -> Self {
        Biquad { s1: s_zero(), s2: s_zero(), coeffs }
    }

    /// The output for the input `x`.
    pub open spec fn output(self, x: T) -> T {
        self.s1.s_add(self.coeffs.b0.s_mul(x))
    }

    /// The section after the input `x`.
    pub open spec fn after(self, x: T) -> Self {
        let out = self.output(x);
        Biquad {
            s1: self.s2.s_add(self.coeffs.b1.s_mul(x)).s_sub(self.coeffs.a1.s_mul(out)),
            s2: self.coeffs.b2.s_mul(x).s_sub(self.coeffs.a2.s_mul(out)),
            coeffs: self.coeffs,
        }
    }

    pub fn new(coeffs: BiquadCoefficients<T>) -> (r: Self)
        ensures
            r == Self::at_rest(coeffs),
    {
        Biquad { s1: T::of_int(0), s2: T::of_int(0), coeffs }
    }

    /// Takes over new coefficients. The state stays as it is.
    pub fn set_coeffs(&mut self, coeffs: BiquadCoefficients<T>)
        ensures
            *final(self) == (Biquad { coeffs, ..*old(self) }),
    {
        self.coeffs = coeffs;
    }

    /// Processes one sample.
    pub fn process_single(&mut self, x: T) -> (r: T)
        ensures
            r == old(self).output(x),
            *final(self) == old(self).after(x),
    {
        let out: T = self.s1.plus(self.coeffs.b0.times(x));
        self.s1 = self.s2.plus(self.coeffs.b1.times(x)).minus(self.coeffs.a1.times(out));
        self.s2 = self.coeffs.b2.times(x).minus(self.coeffs.a2.times(out));
        out
    }
}

} // verus!
