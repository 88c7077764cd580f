//! What the autoregressive model is fitted to: the correlations, the context around a gap and the
//! order that it carries.

use crate::arith::s_one;
use crate::exact::{sums_associate, total};
use crate::fixed::{magnitude, tenths, Fixed, LIMIT};
use crate::prcfmt::PrcFmt;
use crate::processors::declipper::gap::{
    clean_run, clip_boundary, flat_top, model_order, ArSettings,
};
use crate::processors::declipper::lpc::{
    autocorrelation_at, autocorrelation_over, coeff_autocorr_over, lag_sum, with_noise_floor,
};
use crate::reals::{
    is_real, lemma_decimal, lemma_integers, lemma_mul_moves, lemma_mul_spreads, lemma_mul_units,
    lemma_sub_is, power_of_ten,
};
use vstd::prelude::*;

verus! {

proof fn lemma_lag_sum<T: PrcFmt>(seg: Seq<T>, k: int, n: nat)
    ensures
        lag_sum(seg, k, n) == total(|i: int| seg[i].s_mul(seg[i + k]), 0, n as int),
    decreases n,
{
    if n > 0 {
        lemma_lag_sum(seg, k, (n - 1) as nat);
    }
}

/// The autocorrelation at a lag is the sum of the products of all samples that lie so far apart.
/// That of the coefficients likewise, over the `order + 1` of the model. The noise floor is on lag
/// zero alone.
pub proof fn lemma_correlations_are_sums_of_products<T: PrcFmt>(
    seg: Seq<T>,
    order: int,
    over: Seq<T>,
    k: int,
)
    requires
        0 <= k <= order < over.len(),
        order < seg.len(),
    ensures
        autocorrelation_at(seg, k) == total(
            |i: int| seg[i].s_mul(seg[i + k]),
            0,
            seg.len() - k,
        ),
        k > 0 ==> autocorrelation_over(seg, order, over)[k] == total(
            |i: int| seg[i].s_mul(seg[i + k]),
            0,
            seg.len() - k,
        ),
        autocorrelation_over(seg, order, over)[0] == with_noise_floor(
            total(|i: int| seg[i].s_mul(seg[i + 0]), 0, seg.len() as int),
        ),
        coeff_autocorr_over(seg, order, over)[k] == total(
            |i: int| seg[i].s_mul(seg[i + k]),
            0,
            order - k + 1,
        ),
{
    lemma_lag_sum(seg, k, (seg.len() - k) as nat);
    lemma_lag_sum(seg, 0, seg.len());
    lemma_lag_sum(seg, k, (order - k + 1) as nat);
}

/// The noise floor adds a millionth of the energy and `1e-12`.
pub proof fn lemma_noise_floor<T: PrcFmt>(r0: T)
    requires
        is_real::<T>(),
    ensures
        with_noise_floor(r0).s_sub(r0).s_mul(T::s_int(1000000000000)) == T::s_int(1000000).s_mul(
            r0,
        ).s_add(s_one()),
{
    reveal_with_fuel(power_of_ten, 13);
    let one = s_one::<T>();
    let a = T::s_dec(1, 6);
    let b = T::s_dec(1, 12);
    let m = T::s_int(1000000);
    let mm = T::s_int(1000000000000);
    lemma_decimal::<T>(1, 6);
    lemma_decimal::<T>(1, 12);
    lemma_integers::<T>(1000000, 1000000);
    lemma_mul_spreads(r0, one, a);
    lemma_mul_units(r0);
    let p = r0.s_mul(a);
    assert(sums_associate(r0, p, b));
    let extra = p.s_add(b);
    lemma_sub_is(with_noise_floor(r0), r0, extra);
    lemma_mul_spreads(mm, p, b);
    assert(p.s_mul(mm) == m.s_mul(r0)) by {
        lemma_mul_moves(p, m, m);
        lemma_mul_moves(r0, a, m);
        lemma_mul_moves(r0, m, one);
        assert(p.s_mul(m) == r0);
    }
}

/// The level that a repaired sample may not fall short of is that of the clipped sample itself.
pub proof fn lemma_boundary_is_the_clip_level(clip: Fixed)
    requires
        -LIMIT <= clip.raw,
    ensures
        clip_boundary(clip) == clip,
{
}

/// The right context of a gap runs up to the next flat top, the end of the buffer or the limit: no
/// sample in it is as loud as the threshold and within `1e-5` of the one before, and it goes on as
/// long as that holds.
pub proof fn lemma_right_context(buf: Seq<Fixed>, e: int, set: ArSettings<Fixed>, len: int, p: int)
    requires
        1 <= e,
        0 <= len <= set.max_ctx,
        e + len <= buf.len(),
        forall|k: int|
            0 <= k < buf.len() ==> magnitude((#[trigger] buf[k]).raw as int) <= LIMIT / 2,
    ensures
        ({
            let run = clean_run(buf, e, set, len);
            &&& len <= run <= set.max_ctx
            &&& e + run <= buf.len()
            &&& e + len <= p < e + run ==> magnitude(buf[p].raw as int) < set.threshold.raw || 42949
                < magnitude(buf[p].raw - buf[p - 1].raw)
            &&& run < set.max_ctx && e + run < buf.len() ==> set.threshold.raw <= magnitude(
                buf[e + run].raw as int,
            ) && magnitude(buf[e + run].raw - buf[e + run - 1].raw) <= 42949
        }),
    decreases buf.len() - e - len,
{
    assert(Fixed::s_dec(1, 5).raw == 42949) by {
        reveal_with_fuel(tenths, 6);
    }
    if e + len < buf.len() {
        assert(magnitude(buf[e + len].raw as int) <= LIMIT / 2);
        assert(magnitude(buf[e + len - 1].raw as int) <= LIMIT / 2);
    }
    if len < set.max_ctx && e + len < buf.len() && !flat_top(buf, e + len, set.threshold) {
        lemma_right_context(buf, e, set, len + 1, p);
    }
}

/// The model order is the largest that was asked for, fits the scratch vectors, and leaves each
/// context a sample more than it; without context there is none.
pub proof fn lemma_model_order_is_the_largest<T: PrcFmt>(
    buf: Seq<T>,
    s: int,
    e: int,
    set: ArSettings<T>,
    order_cap: int,
)
    requires
        0 <= s,
        0 <= clean_run(buf, e, set, 0),
        0 <= order_cap,
    ensures
        ({
            let order = model_order(buf, s, e, set, order_cap);
            let right = clean_run(buf, e, set, 0);
            let left = if s < set.max_ctx {
                s
            } else {
                set.max_ctx as int
            };
            &&& order <= set.req_order && order <= order_cap
            &&& order < left || order == 0
            &&& order < right || order == 0
            &&& order == set.req_order || order == order_cap || left <= order + 1 || right <= order
                + 1
        }),
{
}

} // verus!
