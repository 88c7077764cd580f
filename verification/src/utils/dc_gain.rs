//! The gain of the filters at zero frequency where arithmetic is exact.

use crate::arith::{copies, s_one, s_zero};
use crate::exact::{
    equals_are_equal, is_exact, one_is_neutral, products_commute, products_distribute,
    quotient_cancels, zero_is_neutral,
};
use crate::filters::tubestage::halfband::{
    fir, stage_coeffs, stage_fir, unscaled_halfband, HALFBAND_LENGTH, KAISER_BETA,
};
use crate::prcfmt::PrcFmt;
use crate::processors::truepeak::probe::{
    dot, doubled, every_second, halfband_of, probe_branch, HALFBAND_TAPS,
};
use crate::utils::resampling::design::{scaled_lp, unscaled_lp};
use crate::utils::window::sum_of;
use vstd::prelude::*;

verus! {

/// Coefficients that are all multiplied by a factor add up to the sum times the factor.
pub proof fn lemma_scaled_sum<T: PrcFmt>(h: Seq<T>, scaled: Seq<T>, k: T, n: int)
    requires
        is_exact::<T>(),
        0 <= n <= h.len(),
        forall|i: int| 0 <= i < n ==> #[trigger] scaled[i] == h[i].s_mul(k),
    ensures
        sum_of(scaled, n) == sum_of(h, n).s_mul(k),
    decreases n,
{
    if n == 0 {
        assert(zero_is_neutral(k));
    } else {
        lemma_scaled_sum(h, scaled, k, n - 1);
        let s = sum_of(h, n - 1);
        let v = h[n - 1];
        assert(products_commute(s.s_add(v), k));
        assert(products_distribute(k, s, v));
        assert(products_commute(k, s));
        assert(products_commute(k, v));
    }
}

/// Coefficients that are all divided by their sum add up to one.
pub proof fn lemma_divided_sum<T: PrcFmt>(h: Seq<T>, divided: Seq<T>)
    requires
        is_exact::<T>(),
        sum_of(h, h.len() as int) != s_zero::<T>(),
        divided.len() == h.len(),
        forall|i: int|
            0 <= i < h.len() ==> #[trigger] divided[i] == h[i].s_div(sum_of(h, h.len() as int)),
    ensures
        sum_of(divided, h.len() as int) == s_one::<T>(),
{
    let n = h.len() as int;
    let s = sum_of(h, n);
    assert forall|i: int| 0 <= i < n implies #[trigger] h[i] == divided[i].s_mul(s) by {
        assert(quotient_cancels(h[i], s));
        assert(divided[i] == h[i].s_div(s));
    }
    lemma_scaled_sum(divided, h, s, n);
    let u = sum_of(divided, n);
    assert(quotient_cancels(u, s));
    assert(quotient_cancels(s_one::<T>(), s));
    assert(one_is_neutral(s));
}

/// The lowpass is scaled so that its gain at zero frequency is the oversampling factor.
pub proof fn lemma_lowpass_dc_gain<T: PrcFmt>(
    len: int,
    cutoff: T,
    attenuation_db: T,
    oversampling: int,
)
    requires
        is_exact::<T>(),
        ({
            let h = unscaled_lp(len, cutoff, attenuation_db);
            sum_of(h, h.len() as int) != s_zero::<T>()
        }),
    ensures
        ({
            let h = scaled_lp(len, cutoff, attenuation_db, oversampling);
            sum_of(h, h.len() as int) == T::s_int(oversampling)
        }),
{
    let h = unscaled_lp(len, cutoff, attenuation_db);
    let n = h.len() as int;
    let s = sum_of(h, n);
    let scale = T::s_int(oversampling).s_div(s);
    lemma_scaled_sum(h, scaled_lp(len, cutoff, attenuation_db, oversampling), scale, n);
    assert(products_commute(s, scale));
    assert(quotient_cancels(T::s_int(oversampling), s));
}

/// The inner product with a constant is the sum times the constant.
proof fn lemma_constant_line<T: PrcFmt>(coeffs: Seq<T>, v: T, n: int)
    requires
        is_exact::<T>(),
        0 <= n <= coeffs.len(),
    ensures
        dot(coeffs, copies(coeffs.len(), v), n) == sum_of(coeffs, n).s_mul(v),
        fir(coeffs, copies(coeffs.len(), v), n) == sum_of(coeffs, n).s_mul(v),
    decreases n,
{
    if n == 0 {
        assert(zero_is_neutral(v));
    } else {
        lemma_constant_line(coeffs, v, n - 1);
        let s = sum_of(coeffs, n - 1);
        let c = coeffs[n - 1];
        assert(products_commute(s.s_add(c), v));
        assert(products_distribute(v, s, c));
        assert(products_commute(v, s));
        assert(products_commute(v, c));
        if c.s_eq(s_zero()) {
            let sv = s.s_mul(v);
            assert(equals_are_equal(c, s_zero::<T>()));
            assert(zero_is_neutral(v));
            assert(crate::exact::sums_commute(sv, s_zero::<T>()));
            assert(zero_is_neutral(sv));
        }
    }
}

/// A constant passes the halfband filter of a stage with unity gain.
pub proof fn lemma_stage_passes_dc<T: PrcFmt>(v: T)
    requires
        is_exact::<T>(),
        ({
            let h = unscaled_halfband(HALFBAND_LENGTH as int, T::s_int(KAISER_BETA as int));
            sum_of(h, h.len() as int) != s_zero::<T>()
        }),
    ensures
        stage_fir(copies(HALFBAND_LENGTH as nat, v)) == v,
{
    let h = unscaled_halfband(HALFBAND_LENGTH as int, T::s_int(KAISER_BETA as int));
    let coeffs = stage_coeffs::<T>();
    lemma_divided_sum(h, coeffs);
    lemma_constant_line(coeffs, v, HALFBAND_LENGTH as int);
    assert(one_is_neutral(v));
}

/// A constant passes a stage of the true-peak probe with unity gain, in both phases.
pub proof fn lemma_probe_passes_dc<T: PrcFmt>(v: T)
    requires
        is_exact::<T>(),
        forall|phase: int|
            0 <= phase < 2 ==> {
                let h = #[trigger] every_second(halfband_of::<T>(HALFBAND_TAPS as int), phase);
                sum_of(h, h.len() as int) != s_zero::<T>()
            },
    ensures
        doubled(copies((HALFBAND_TAPS as int / 2 + 1) as nat, v)) == (v, v),
{
    let proto = halfband_of::<T>(HALFBAND_TAPS as int);
    let even = every_second(proto, 0);
    let odd = every_second(proto, 1);
    lemma_divided_sum(even, probe_branch::<T>(0));
    lemma_divided_sum(odd, probe_branch::<T>(1));
    lemma_constant_line(probe_branch::<T>(0), v, even.len() as int);
    lemma_constant_line(probe_branch::<T>(1), v, odd.len() as int);
    assert(one_is_neutral(v));
}

} // verus!
