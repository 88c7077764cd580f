//! What holds of a parameter that is left out, in literal numbers.

use crate::arith::s_zero;
use crate::config::{
    DeclipperParameters, ExpanderParameters, TriodeModelParameters, TruePeakParameters,
    TubeStageParameters,
};
use crate::prcfmt::PrcFmt;
use crate::reals::{is_real, lemma_decimal, power_of_ten};
use vstd::prelude::*;

verus! {

/// A triode whose parameters are left out is a 300B: an amplification factor of 3.85, a knee factor
/// of 4.5 at 140 V, a current scale of 1500, an exponent of 1.4, at -60 V on the grid and 300 V on
/// the plate. What is given is taken.
pub proof fn lemma_default_triode<T: PrcFmt>(p: TriodeModelParameters<T>, v: T)
    requires
        is_real::<T>(),
    ensures
        p.mu is None ==> p.s_mu().s_mul(T::s_int(100)) == T::s_int(385),
        p.kp is None ==> p.s_kp().s_mul(T::s_int(10)) == T::s_int(45),
        p.kvb is None ==> p.s_kvb() == T::s_int(140),
        p.kg1 is None ==> p.s_kg1() == T::s_int(1500),
        p.x is None ==> p.s_x().s_mul(T::s_int(10)) == T::s_int(14),
        p.vbias is None ==> p.s_vbias() == T::s_int(-60),
        p.vplate is None ==> p.s_vplate() == T::s_int(300),
        p.mu == Some(v) ==> p.s_mu() == v,
        p.kp == Some(v) ==> p.s_kp() == v,
        p.kvb == Some(v) ==> p.s_kvb() == v,
        p.kg1 == Some(v) ==> p.s_kg1() == v,
        p.x == Some(v) ==> p.s_x() == v,
        p.vbias == Some(v) ==> p.s_vbias() == v,
        p.vplate == Some(v) ==> p.s_vplate() == v,
{
    reveal_with_fuel(power_of_ten, 3);
    lemma_decimal::<T>(385, 2);
    lemma_decimal::<T>(45, 1);
    lemma_decimal::<T>(14, 1);
}

/// The levels that are left out: no makeup gain, a ceiling of -1 dBFS and a knee of 6 dB. What is
/// given is taken.
pub proof fn lemma_default_levels<T: PrcFmt>(
    tube: TubeStageParameters<T>,
    declipper: DeclipperParameters<T>,
    limiter: TruePeakParameters<T>,
    expander: ExpanderParameters<T>,
    v: T,
)
    ensures
        tube.makeup_gain_db is None ==> tube.s_makeup_gain_db() == s_zero::<T>(),
        declipper.makeup_gain_db is None ==> declipper.s_makeup_gain_db() == s_zero::<T>(),
        limiter.ceiling_dbfs is None ==> limiter.s_ceiling_dbfs() == T::s_int(-1),
        expander.makeup_gain is None ==> expander.s_makeup_gain() == s_zero::<T>(),
        expander.knee_db is None ==> expander.s_knee_db() == T::s_int(6),
        tube.makeup_gain_db == Some(v) ==> tube.s_makeup_gain_db() == v,
        declipper.makeup_gain_db == Some(v) ==> declipper.s_makeup_gain_db() == v,
        limiter.ceiling_dbfs == Some(v) ==> limiter.s_ceiling_dbfs() == v,
        expander.makeup_gain == Some(v) ==> expander.s_makeup_gain() == v,
        expander.knee_db == Some(v) ==> expander.s_knee_db() == v,
{
}

} // verus!
