//! Asymmetric polynomial waveshaper. The transfer function is
//! `y(x) = d + k2 d^2 + k3 d^3 + k4 d^4` with `d = drive * x + bias`. The constant DC offset
//! introduced by the bias and the even terms is removed later by the output DC blocker of the tube
//! stage.

use crate::arith::{db_to_linear, s_db_to_linear};
use crate::config::PolynomialModelParameters;
use crate::filters::tubestage::ramp::RampedValue;
use crate::prcfmt::PrcFmt;
use vstd::prelude::*;

verus! {

/// The waveshaper. Drive and bias are smoothed, the coefficients are not.
#[derive(Clone, Copy)]
pub struct PolynomialModel<T: PrcFmt> {
    pub drive_lin: RampedValue<T>,
    pub bias: RampedValue<T>,
    pub k2: T,
    pub k3: T,
    pub k4: T,
}

/// The smoother time constant for parameters that influence the audio amplitude: 20 ms. Short
/// enough to follow the user's intent, long enough to not click.
pub open spec fn s_smooth_tau<T: PrcFmt>() -> T {
    T::s_dec(20, 3)
}

/// The smoother time constant.
pub fn smooth_tau<T: PrcFmt>() -> (r: T)
    ensures
        r == s_smooth_tau::<T>(),
{
    T::decimal(20, 3)
}

/// The polynomial at `d`.
pub open spec fn polynomial<T: PrcFmt>(d: T, k2: T, k3: T, k4: T) -> T {
    let d2 = d.s_mul(d);
    let d3 = d2.s_mul(d);
    let d4 = d3.s_mul(d);
    d.s_add(k2.s_mul(d2)).s_add(k3.s_mul(d3)).s_add(k4.s_mul(d4))
}

impl<T: PrcFmt> PolynomialModel<T> {
    /// The model that rests at the given parameters.
    pub open spec fn resting(p: PolynomialModelParameters<T>, fs: int) -> Self {
        PolynomialModel {
            drive_lin: RampedValue::resting(s_db_to_linear(p.drive_db), s_smooth_tau(), fs),
            bias: RampedValue::resting(p.bias, s_smooth_tau(), fs),
            k2: p.k2,
            k3: p.k3,
            k4: p.k4,
        }
    }

    /// The model on its way to the given parameters.
    pub open spec fn redirected(self, p: PolynomialModelParameters<T>, fs: int) -> Self {
        PolynomialModel {
            drive_lin: self.drive_lin.redirected(
                s_db_to_linear(p.drive_db),
                s_smooth_tau(),
                fs,
            ),
            bias: self.bias.redirected(p.bias, s_smooth_tau(), fs),
            k2: p.k2,
            k3: p.k3,
            k4: p.k4,
        }
    }

    /// The model one sample later.
    pub open spec fn ticked(self) -> Self {
        PolynomialModel {
            drive_lin: self.drive_lin.ticked(),
            bias: self.bias.ticked(),
            ..self
        }
    }

    /// The output for the input `x`.
    pub open spec fn output(self, x: T) -> T {
        let next = self.ticked();
        polynomial(
            next.drive_lin.current.s_mul(x).s_add(next.bias.current),
            self.k2,
            self.k3,
            self.k4,
        )
    }

    pub fn from_config(p: &PolynomialModelParameters<T>, oversampled_fs: usize) -> (r: Self)
        ensures
            r == Self::resting(*p, oversampled_fs as int),
    {
        PolynomialModel {
            drive_lin: RampedValue::new(db_to_linear(p.drive_db), smooth_tau(), oversampled_fs),
            bias: RampedValue::new(p.bias, smooth_tau(), oversampled_fs),
            k2: p.k2,
            k3: p.k3,
            k4: p.k4,
        }
    }

    /// Update targets only: the per-sample ramp will move smoothly to them.
    pub fn update(&mut self, p: &PolynomialModelParameters<T>, oversampled_fs: usize)
        ensures
            *final(self) == old(self).redirected(*p, oversampled_fs as int),
    {
        self.drive_lin.set_target(db_to_linear(p.drive_db));
        self.bias.set_target(p.bias);
        self.drive_lin.retune(smooth_tau(), oversampled_fs);
        self.bias.retune(smooth_tau(), oversampled_fs);
        self.k2 = p.k2;
        self.k3 = p.k3;
        self.k4 = p.k4;
    }

    pub fn process_sample(&mut self, x: T) -> (r: T)
        ensures
            r == old(self).output(x),
            *final(self) == old(self).ticked(),
    {
        let drive: T = self.drive_lin.tick();
        let bias: T = self.bias.tick();
        let d: T = drive.times(x).plus(bias);
        let d2: T = d.times(d);
        let d3: T = d2.times(d);
        let d4: T = d3.times(d);
        d.plus(self.k2.times(d2)).plus(self.k3.times(d3)).plus(self.k4.times(d4))
    }
}

} // verus!
