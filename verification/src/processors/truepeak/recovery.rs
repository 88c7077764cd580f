//! How the gain of the limiter moves: down to what the peaks ask for and no further, and back up
//! with the release time.

use crate::arith::{pushed, s_one, s_zero};
use crate::exact::{sums_associate, sums_commute};
use crate::fixed::{Fixed, ONE};
use crate::prcfmt::PrcFmt;
use crate::processors::truepeak::limiter::{
    frame_peak, s_ceiling_from_dbfs, s_release_from_ms, target_gain, LimiterState,
};
use crate::processors::truepeak::probe::peak_of;
use crate::processors::truepeak::{after_frames, lemma_quiet_asks_for_no_attenuation};
use crate::reals::{
    choices_follow_order, exponentials_multiply, is_real, lemma_div_mul, lemma_integers,
    lemma_mul_cancel, lemma_mul_moves, lemma_mul_spreads, lemma_mul_units, lemma_order,
    lemma_sub_add, lemma_sub_is, lemma_twenty_decibels, lemma_zero_decibels,
};
use vstd::prelude::*;

verus! {

/// Whether no peak in the window exceeds the ceiling once `frame` has come in.
pub open spec fn quiet_with<T: PrcFmt>(st: LimiterState<T>, frame: Seq<T>, ceiling: T) -> bool {
    forall|i: int|
        0 <= i < st.peaks.len() ==> !ceiling.s_lt(
            #[trigger] st.after(frame, ceiling, s_one()).peaks[i],
        )
}

/// The peaks in the window do not depend on the release.
proof fn lemma_peaks_ignore_release<T: PrcFmt>(
    st: LimiterState<T>,
    frame: Seq<T>,
    ceiling: T,
    release: T,
)
    requires
        0 < st.peaks.len(),
        quiet_with(st, frame, ceiling),
    ensures
        st.after(frame, ceiling, release).peaks.len() == st.peaks.len(),
        target_gain(
            st.after(frame, ceiling, release).peaks,
            ceiling,
            st.peaks.len() as int,
        ) == s_one::<T>(),
{
    let peaks = st.after(frame, ceiling, s_one()).peaks;
    assert(st.after(frame, ceiling, release).peaks == peaks);
    assert(peaks.len() == st.peaks.len());
    lemma_quiet_asks_for_no_attenuation(peaks, ceiling, peaks.len() as int);
}

/// The gain recovers: as long as no peak in the window exceeds the ceiling, what is missing to one
/// shrinks by the release coefficient with every frame.
pub proof fn lemma_gain_recovers<T: PrcFmt>(
    st: LimiterState<T>,
    frame: Seq<T>,
    ceiling: T,
    release: T,
)
    requires
        is_real::<T>(),
        0 < st.peaks.len(),
        quiet_with(st, frame, ceiling),
        st.gain.s_le(s_one()),
    ensures
        s_one::<T>().s_sub(st.after(frame, ceiling, release).gain) == s_one::<T>().s_sub(
            st.gain,
        ).s_mul(s_one::<T>().s_sub(release)),
{
    let one = s_one::<T>();
    let g = st.gain;
    let r = release;
    lemma_peaks_ignore_release(st, frame, ceiling, release);
    lemma_order(one, g, one);
    one.lt_irreflexive();
    assert(choices_follow_order(one, one));
    let d = one.s_sub(g);
    let step = d.s_mul(r);
    assert(st.after(frame, ceiling, release).gain == g.s_add(step));
    // One is the gain, the step, and what is left.
    lemma_mul_spreads(d, one, r);
    lemma_mul_units(d);
    let rest = d.s_mul(one.s_sub(r));
    lemma_sub_add(d, step);
    assert(rest == d.s_sub(step));
    lemma_sub_add(one, g);
    assert(sums_associate(g, step, rest));
    assert(sums_commute(g.s_add(step), rest));
    lemma_sub_is(one, rest, g.s_add(step));
}

/// In fixed point the gain that recovers rises by the share of the release in what is missing to
/// one, rounded down: it never falls, it rises as long as that share is not below the last place,
/// and with an immediate release it is one again.
pub proof fn lemma_gain_recovers_in_fixed_point(
    st: LimiterState<Fixed>,
    frame: Seq<Fixed>,
    ceiling: Fixed,
    release: Fixed,
)
    requires
        0 < st.peaks.len(),
        quiet_with(st, frame, ceiling),
        0 <= st.gain.raw <= ONE,
        0 <= release.raw <= ONE,
    ensures
        st.after(frame, ceiling, release).gain.raw == st.gain.raw + (ONE - st.gain.raw)
            * release.raw / (ONE as int),
        st.gain.raw <= st.after(frame, ceiling, release).gain.raw <= ONE,
        ONE <= (ONE - st.gain.raw) * release.raw ==> st.gain.raw < st.after(
            frame,
            ceiling,
            release,
        ).gain.raw,
        release.raw == ONE ==> st.after(frame, ceiling, release).gain == s_one::<Fixed>(),
{
    lemma_peaks_ignore_release(st, frame, ceiling, release);
    let one = s_one::<Fixed>();
    let d = ONE - st.gain.raw;
    let step = d * release.raw / (ONE as int);
    assert(0 <= step <= d && (ONE <= d * release.raw ==> 0 < step) && (release.raw == ONE ==> step
        == d)) by (nonlinear_arith)
        requires
            0 <= d,
            0 <= release.raw <= ONE,
            step == d * release.raw / (ONE as int),
    ;
    assert(one.s_min(one).s_sub(st.gain).raw == d);
    assert(one.s_min(one).s_sub(st.gain).s_mul(release).raw == step);
}

/// Whether every frame of a sequence leaves the window without a peak above the ceiling.
pub open spec fn quiet_throughout<T: PrcFmt>(
    st: LimiterState<T>,
    frames: Seq<Seq<T>>,
    ceiling: T,
    release: T,
) -> bool {
    forall|f: int|
        0 <= f < frames.len() ==> quiet_with(
            #[trigger] after_frames(st, frames.take(f), ceiling, release),
            frames[f],
            ceiling,
        )
}

/// Over quiet frames the gain comes back: after `n` of them it is either so close to one that the
/// step is rounded away, or it has risen by at least `n` units.
pub proof fn lemma_gain_comes_back(
    st: LimiterState<Fixed>,
    frames: Seq<Seq<Fixed>>,
    ceiling: Fixed,
    release: Fixed,
)
    requires
        0 < st.peaks.len(),
        quiet_throughout(st, frames, ceiling, release),
        0 <= st.gain.raw <= ONE,
        0 <= release.raw <= ONE,
    ensures
        ({
            let gain = after_frames(st, frames, ceiling, release).gain.raw;
            &&& st.gain.raw <= gain <= ONE
            &&& (ONE - gain) * release.raw < ONE || st.gain.raw + frames.len() <= gain
        }),
        after_frames(st, frames, ceiling, release).peaks.len() == st.peaks.len(),
    decreases frames.len(),
{
    if frames.len() > 0 {
        let first = frames.drop_last();
        assert forall|f: int| 0 <= f < first.len() implies quiet_with(
            #[trigger] after_frames(st, first.take(f), ceiling, release),
            first[f],
            ceiling,
        ) by {
            assert(first.take(f) =~= frames.take(f));
        }
        lemma_gain_comes_back(st, first, ceiling, release);
        let before = after_frames(st, first, ceiling, release);
        assert(frames.take(frames.len() - 1) =~= first);
        assert(quiet_with(before, frames.last(), ceiling));
        lemma_gain_recovers_in_fixed_point(before, frames.last(), ceiling, release);
        let after = before.after(frames.last(), ceiling, release);
        assert(after.peaks.len() == before.peaks.len());
        let a = ONE - before.gain.raw;
        let b = ONE - after.gain.raw;
        assert(b * release.raw <= a * release.raw) by (nonlinear_arith)
            requires
                0 <= b <= a,
                0 <= release.raw,
        ;
    } else {
        assert((ONE - st.gain.raw) * release.raw >= 0) by (nonlinear_arith)
            requires
                0 <= st.gain.raw <= ONE,
                0 <= release.raw,
        ;
    }
}

/// The limiter does no more than the peaks ask for: the gain that a window asks for is one, or takes
/// one of its peaks, which lies above the ceiling, exactly down to it.
pub proof fn lemma_target_is_asked_for<T: PrcFmt>(peaks: Seq<T>, ceiling: T, n: int)
    requires
        0 <= n <= peaks.len(),
    ensures
        ({
            let g = target_gain(peaks, ceiling, n);
            g == s_one::<T>() || exists|i: int|
                0 <= i < n && ceiling.s_lt(#[trigger] peaks[i]) && g == ceiling.s_div(peaks[i])
        }),
    decreases n,
{
    if n > 0 {
        lemma_target_is_asked_for(peaks, ceiling, n - 1);
        let p = peaks[n - 1];
        if !(ceiling.s_lt(p) && ceiling.s_div(p).s_lt(target_gain(peaks, ceiling, n - 1))) {
            if target_gain(peaks, ceiling, n) != s_one::<T>() {
                let i = choose|i: int|
                    0 <= i < n - 1 && ceiling.s_lt(#[trigger] peaks[i]) && target_gain(
                        peaks,
                        ceiling,
                        n - 1,
                    ) == ceiling.s_div(peaks[i]);
                assert(ceiling.s_lt(peaks[i]));
            }
        }
    }
}

/// The window of peaks moves on by one frame: the oldest peak leaves it, and that of the new frame
/// is at its end.
pub proof fn lemma_peaks_leave_the_window<T: PrcFmt>(
    st: LimiterState<T>,
    frame: Seq<T>,
    ceiling: T,
    release: T,
)
    requires
        0 < st.peaks.len(),
    ensures
        ({
            let next = st.after(frame, ceiling, release).peaks;
            &&& next.len() == st.peaks.len()
            &&& forall|i: int|
                0 <= i < st.peaks.len() - 1 ==> #[trigger] next[i] == st.peaks[i + 1]
            &&& next.last() == frame_peak(st, frame, st.delays.len() as int)
        }),
{
}

/// The peak of a frame is measured, not made up: it is zero, or the magnitude of one of the samples,
/// or what the probe measured on one of the channels.
pub proof fn lemma_frame_peak_is_measured<T: PrcFmt>(st: LimiterState<T>, frame: Seq<T>, n: int)
    requires
        is_real::<T>(),
        0 <= n <= frame.len(),
    ensures
        ({
            let p = frame_peak(st, frame, n);
            p == s_zero::<T>() || exists|ch: int|
                0 <= ch < n && (p == (#[trigger] frame[ch]).s_abs() || p == peak_of(
                    pushed(st.lines1[ch], frame[ch]),
                    st.lines2[ch],
                ))
        }),
    decreases n,
{
    if n > 0 {
        lemma_frame_peak_is_measured(st, frame, n - 1);
        let v = frame[n - 1];
        let m = peak_of(pushed(st.lines1[n - 1], v), st.lines2[n - 1]);
        assert(choices_follow_order(m, v.s_abs()));
        let before = frame_peak(st, frame, n - 1);
        let p = frame_peak(st, frame, n);
        if before.s_lt(m.s_max(v.s_abs())) {
            assert(p == frame[n - 1].s_abs() || p == m);
        } else if p != s_zero::<T>() {
            let ch = choose|ch: int|
                0 <= ch < n - 1 && (before == (#[trigger] frame[ch]).s_abs() || before == peak_of(
                    pushed(st.lines1[ch], frame[ch]),
                    st.lines2[ch],
                ));
            assert(p == frame[ch].s_abs() || p == peak_of(
                pushed(st.lines1[ch], frame[ch]),
                st.lines2[ch],
            ));
        }
    }
}

/// A ceiling that is 20 dB higher is ten times as high, and 0 dBFS is full scale.
pub proof fn lemma_ceiling_in_decibels<T: PrcFmt>(ceiling_dbfs: T)
    requires
        is_real::<T>(),
    ensures
        s_ceiling_from_dbfs(ceiling_dbfs.s_add(T::s_int(20))) == T::s_int(10).s_mul(
            s_ceiling_from_dbfs(ceiling_dbfs),
        ),
        s_ceiling_from_dbfs(s_zero::<T>()) == s_one::<T>(),
        s_zero::<T>().s_lt(s_ceiling_from_dbfs(ceiling_dbfs)),
{
    lemma_twenty_decibels(ceiling_dbfs);
    lemma_twenty_decibels::<T>(s_zero());
    lemma_zero_decibels::<T>();
}

/// The release takes its time: what a frame leaves of the distance to one has a logarithm of minus
/// one over the number of frames in `release_ms`, so that after that time the distance has come
/// down to `1 / e`. Without a time the release is immediate.
pub proof fn lemma_release_takes_its_time<T: PrcFmt>(release_ms: T, samplerate: int)
    requires
        is_real::<T>(),
        0 < samplerate,
    ensures
        s_zero::<T>().s_lt(release_ms) ==> s_one::<T>().s_sub(
            s_release_from_ms(release_ms, samplerate),
        ).s_ln().s_mul(T::s_int(samplerate).s_mul(release_ms)) == T::s_int(-1000),
        !s_zero::<T>().s_lt(release_ms) ==> s_release_from_ms(release_ms, samplerate)
            == s_one::<T>(),
{
    let zero = s_zero::<T>();
    let one = s_one::<T>();
    if zero.s_lt(release_ms) {
        let fs = T::s_int(samplerate);
        let k = T::s_int(1000);
        let product = fs.s_mul(release_ms);
        lemma_integers::<T>(0, samplerate);
        lemma_integers::<T>(0, 1000);
        lemma_integers::<T>(-1, 1000);
        lemma_order(zero, release_ms, zero);
        assert(product != zero) by {
            if product == zero {
                lemma_mul_moves(fs, release_ms, one);
                lemma_mul_units(release_ms);
                lemma_mul_cancel(fs, zero, release_ms);
            }
        }
        let span = product.s_div(k);
        lemma_div_mul(product, k);
        assert(span != zero) by {
            lemma_mul_units(k);
        }
        let x = T::s_int(-1).s_div(span);
        lemma_div_mul(T::s_int(-1), span);
        let e = x.s_exp();
        assert(exponentials_multiply(x, x));
        lemma_sub_add(one, e);
        lemma_sub_is(one, one.s_sub(e), e);
        assert(one.s_sub(one.s_sub(e)) == e);
        lemma_mul_moves(x, span, k);
    }
}

} // verus!
