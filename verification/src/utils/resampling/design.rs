//! Prototype filter design for the polyphase upsampler.

use crate::prcfmt::PrcFmt;
use crate::utils::window::{
    lemma_windowed_sinc_is_symmetric, odd_len, sum, sum_of, windowed_sinc, windowed_sinc_of,
};
use vstd::prelude::*;

verus! {

/// Stopband attenuation target of the Kaiser prototype, in dB.
pub const STOPBAND_ATTENUATION_DB: i64 = 140;

/// The Kaiser transition width for a prototype of `proto_len` coefficients. The length estimate
/// slightly under-predicts the realised width, so it is widened by a tenth before the cutoff is
/// shifted down; the stopband is then genuinely reached at or before the source Nyquist.
pub open spec fn s_transition_width<T: PrcFmt>(proto_len: int) -> T {
    T::s_dec(11, 1).s_mul(
        T::s_int(STOPBAND_ATTENUATION_DB as int).s_sub(T::s_dec(795, 2)),
    ).s_div(T::s_dec(1436, 2).s_mul(T::s_int(proto_len)))
}

/// Kaiser transition width for a prototype of `proto_len` coefficients, normalized to the
/// upsampled rate.
pub fn transition_width<T: PrcFmt>(proto_len: usize) -> (r: T)
    ensures
        r == s_transition_width::<T>(proto_len as int),
{
    T::decimal(11, 1).times(T::of_int(STOPBAND_ATTENUATION_DB).minus(T::decimal(795, 2))).over(
        T::decimal(1436, 2).times(T::of_usize(proto_len)),
    )
}

/// The Kaiser shape parameter for a stopband attenuation in dB.
pub open spec fn s_kaiser_beta<T: PrcFmt>(attenuation_db: T) -> T {
    if T::s_int(50).s_lt(attenuation_db) {
        T::s_dec(1102, 4).s_mul(attenuation_db.s_sub(T::s_dec(87, 1)))
    } else if T::s_int(21).s_le(attenuation_db) {
        T::s_dec(5842, 4).s_mul(
            attenuation_db.s_sub(T::s_int(21)).s_pow(T::s_dec(4, 1)),
        ).s_add(T::s_dec(7886, 5).s_mul(attenuation_db.s_sub(T::s_int(21))))
    } else {
        T::s_int(0)
    }
}

/// Computes the Kaiser shape parameter for a stopband attenuation in dB.
fn kaiser_beta<T: PrcFmt>(attenuation_db: T) -> (r: T)
    ensures
        r == s_kaiser_beta(attenuation_db),
{
    if T::of_int(50).lt(attenuation_db) {
        T::decimal(1102, 4).times(attenuation_db.minus(T::decimal(87, 1)))
    } else if T::of_int(21).le(attenuation_db) {
        T::decimal(5842, 4).times(
            attenuation_db.minus(T::of_int(21)).powf(T::decimal(4, 1)),
        ).plus(T::decimal(7886, 5).times(attenuation_db.minus(T::of_int(21))))
    } else {
        T::of_int(0)
    }
}

/// A Kaiser-windowed lowpass of `len` coefficients before it is scaled.
pub open spec fn unscaled_lp<T: PrcFmt>(len: int, cutoff: T, attenuation_db: T) -> Seq<T> {
    let twice = T::s_int(2).s_mul(cutoff);
    windowed_sinc_of(len, twice, twice, s_kaiser_beta(attenuation_db))
}

/// A Kaiser-windowed lowpass of `len` coefficients, scaled so that they add up to `oversampling`.
pub open spec fn scaled_lp<T: PrcFmt>(
    len: int,
    cutoff: T,
    attenuation_db: T,
    oversampling: int,
) -> Seq<T> {
    let h = unscaled_lp(len, cutoff, attenuation_db);
    let scale = T::s_int(oversampling).s_div(sum_of(h, h.len() as int));
    Seq::new(h.len(), |n: int| h[n].s_mul(scale))
}

/// Computes a Kaiser-windowed lowpass of exactly `len` coefficients.
fn lowpass<T: PrcFmt>(len: usize, cutoff: T, attenuation_db: T, oversampling: usize) -> (h: Vec<T>)
    requires
        0 < len <= i64::MAX,
    ensures
        h@ == scaled_lp(len as int, cutoff, attenuation_db, oversampling as int),
{
    let beta: T = kaiser_beta(attenuation_db);
    let twice: T = T::of_int(2).times(cutoff);
    let mut h: Vec<T> = windowed_sinc(len, twice, twice, beta);
    let ghost raw = h@;
    let dc: T = sum(&h);
    let scale: T = T::of_usize(oversampling).over(dc);
    let mut n: usize = 0;
    while n < h.len()
        invariant
            n <= h@.len(),
            h@.len() == raw.len(),
            forall|j: int|
                0 <= j < h@.len() ==> #[trigger] h@[j] == if j < n {
                    raw[j].s_mul(scale)
                } else {
                    raw[j]
                },
        decreases h@.len() - n,
    {
        h[n] = h[n].times(scale);
        n += 1;
    }
    assert(h@ =~= scaled_lp(len as int, cutoff, attenuation_db, oversampling as int));
    h
}

/// Kaiser-window-based lowpass FIR designer.
///
/// * `len` is rounded up to odd, for true linear phase.
/// * `cutoff` is normalized to the sample rate (one half is Nyquist).
/// * `attenuation_db` drives the Kaiser beta.
/// * The filter is scaled so that DC gain equals `oversampling`, which gives unity gain after the
///   polyphase decimation.
pub fn design_kaiser_lp<T: PrcFmt>(
    len: usize,
    cutoff: T,
    attenuation_db: T,
    oversampling: usize,
) -> (h: Vec<T>)
    requires
        len < usize::MAX,
        len < i64::MAX,
    ensures
        h@ == scaled_lp(odd_len(len as int), cutoff, attenuation_db, oversampling as int),
{
    let odd: usize = if len % 2 == 0 {
        len + 1
    } else {
        len
    };
    lowpass(odd, cutoff, attenuation_db, oversampling)
}

/// The -6 dB point of the prototype: half a transition width below the source Nyquist.
pub open spec fn prototype_cutoff<T: PrcFmt>(taps: int, oversampling: int) -> T {
    T::s_dec(5, 1).s_div(T::s_int(oversampling)).s_sub(
        s_transition_width::<T>(taps * oversampling).s_div(T::s_int(2)),
    )
}

/// The linear-phase prototype lowpass for `taps` per branch and `oversampling` branches:
/// `taps * oversampling + 1` coefficients, centred at half of `taps * oversampling`.
pub open spec fn prototype_of<T: PrcFmt>(taps: int, oversampling: int) -> Seq<T> {
    scaled_lp(
        taps * oversampling + 1,
        prototype_cutoff(taps, oversampling),
        T::s_int(STOPBAND_ATTENUATION_DB as int),
        oversampling,
    )
}

/// Design the linear-phase prototype lowpass for `taps` per branch and `oversampling` branches.
///
/// The prototype runs at the upsampled rate, so the source Nyquist sits at one half over
/// `oversampling`. The cutoff (the -6 dB point) is placed half a transition width below that,
/// which puts the stopband edge on the source Nyquist instead of the middle of the transition:
/// nothing from the transition band images into the output.
///
/// One coefficient more than `taps * oversampling` makes branch `b` the time-reverse of branch
/// `oversampling - b`, whether that product is even or odd.
pub fn design_prototype<T: PrcFmt>(taps: usize, oversampling: usize) -> (h: Vec<T>)
    requires
        taps * oversampling < usize::MAX,
        taps * oversampling < i64::MAX,
    ensures
        h@ == prototype_of::<T>(taps as int, oversampling as int),
        h@.len() == taps * oversampling + 1,
        forall|m: int|
            0 <= m <= taps * oversampling ==> #[trigger] h@[m] == h@[taps * oversampling - m],
{
    let proto_len: usize = taps * oversampling;
    let width: T = transition_width(proto_len);
    let cutoff: T = T::decimal(5, 1).over(T::of_usize(oversampling)).minus(
        width.over(T::of_int(2)),
    );
    let h: Vec<T> = lowpass(
        proto_len + 1,
        cutoff,
        T::of_int(STOPBAND_ATTENUATION_DB),
        oversampling,
    );
    proof {
        assert forall|m: int| 0 <= m <= taps * oversampling implies #[trigger] h@[m] == h@[taps
            * oversampling - m] by {
            lemma_prototype_is_symmetric::<T>(taps as int, oversampling as int, m);
        }
    }
    h
}

/// The prototype is symmetric, whether it has an odd or an even number of coefficients.
pub proof fn lemma_prototype_is_symmetric<T: PrcFmt>(taps: int, oversampling: int, m: int)
    requires
        0 <= taps * oversampling,
        0 <= m <= taps * oversampling,
    ensures
        prototype_of::<T>(taps, oversampling).len() == taps * oversampling + 1,
        prototype_of::<T>(taps, oversampling)[taps * oversampling - m] == prototype_of::<T>(
            taps,
            oversampling,
        )[m],
{
    let twice = T::s_int(2).s_mul(prototype_cutoff(taps, oversampling));
    lemma_windowed_sinc_is_symmetric(
        m,
        taps * oversampling + 1,
        twice,
        twice,
        s_kaiser_beta(T::s_int(STOPBAND_ATTENUATION_DB as int)),
    );
}

} // verus!
