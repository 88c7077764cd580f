//! The lookahead limiter behind the true-peak probe.

use crate::arith::{copies, fill, filled, pushed, s_one, s_zero};
use crate::prcfmt::{Metered, PrcFmt};
use crate::processors::truepeak::probe::{line2_after, peak_of, TruePeakProbe};
use vstd::prelude::*;

verus! {

/// Number of samples of lookahead. At 96 kHz this is about 0.17 ms.
pub const LOOKAHEAD_SAMPLES: usize = 16;

/// The amplitude of a level in dBFS: `10^(dbfs / 20)`.
pub open spec fn s_ceiling_from_dbfs<T: PrcFmt>(ceiling_dbfs: T) -> T {
    T::s_int(10).s_pow(ceiling_dbfs.s_div(T::s_int(20)))
}

/// The coefficient of a one-pole release that takes `release_ms` to come within `1/e`:
/// `1 - exp(-1 / (rate * release_ms / 1000))`, or one where the time is not above zero.
pub open spec fn s_release_from_ms<T: PrcFmt>(release_ms: T, samplerate: int) -> T {
    if s_zero::<T>().s_lt(release_ms) {
        s_one::<T>().s_sub(
            T::s_int(-1).s_div(
                T::s_int(samplerate).s_mul(release_ms).s_div(T::s_int(1000)),
            ).s_exp(),
        )
    } else {
        s_one()
    }
}

/// The state of a limiter: what a frame is limited by, and what it changes.
#[verifier::ext_equal]
pub struct LimiterState<T> {
    /// The gain applied last. One means no attenuation.
    pub gain: T,
    /// The true peaks of the frames in the lookahead window, oldest first.
    pub peaks: Seq<T>,
    /// The samples in the lookahead window of each channel, oldest first.
    pub delays: Seq<Seq<T>>,
    /// The two delay lines of the probe, for each channel.
    pub lines1: Seq<Seq<T>>,
    pub lines2: Seq<Seq<T>>,
}

/// The true peak of a frame over its first `n` channels.
pub open spec fn frame_peak<T: PrcFmt>(st: LimiterState<T>, frame: Seq<T>, n: int) -> T
    decreases n,
{
    if n <= 0 {
        s_zero()
    } else {
        let peak = frame_peak(st, frame, n - 1);
        let v = frame[n - 1];
        let here = peak_of(pushed(st.lines1[n - 1], v), st.lines2[n - 1]).s_max(v.s_abs());
        if peak.s_lt(here) {
            here
        } else {
            peak
        }
    }
}

/// The gain that the first `n` peaks ask for: the smallest of one and `ceiling / p` for the peaks
/// `p` above the ceiling.
pub open spec fn target_gain<T: PrcFmt>(peaks: Seq<T>, ceiling: T, n: int) -> T
    decreases n,
{
    if n <= 0 {
        s_one()
    } else {
        let target = target_gain(peaks, ceiling, n - 1);
        let p = peaks[n - 1];
        if ceiling.s_lt(p) && ceiling.s_div(p).s_lt(target) {
            ceiling.s_div(p)
        } else {
            target
        }
    }
}

/// The gain after a frame: the attack is instantaneous (the lookahead handles it), the release is
/// one-pole towards the target, at most one.
pub open spec fn next_gain<T: PrcFmt>(gain: T, target: T, release: T) -> T {
    if target.s_lt(gain) {
        target
    } else {
        gain.s_add(target.s_min(s_one()).s_sub(gain).s_mul(release))
    }
}

/// A window that has moved on by one: its first element gone, `v` at its end.
pub open spec fn moved_on<T>(window: Seq<T>, v: T) -> Seq<T> {
    window.skip(1).push(v)
}

impl<T: PrcFmt> LimiterState<T> {
    /// The state after a frame.
    pub open spec fn after(self, frame: Seq<T>, ceiling: T, release: T) -> Self {
        let n = self.delays.len();
        let peaks = moved_on(self.peaks, frame_peak(self, frame, n as int));
        LimiterState {
            gain: next_gain(self.gain, target_gain(peaks, ceiling, peaks.len() as int), release),
            peaks,
            delays: Seq::new(n, |ch: int| moved_on(self.delays[ch], frame[ch])),
            lines1: Seq::new(n, |ch: int| pushed(self.lines1[ch], frame[ch])),
            lines2: Seq::new(
                n,
                |ch: int| line2_after(pushed(self.lines1[ch], frame[ch]), self.lines2[ch]),
            ),
        }
    }

    /// What comes out for a frame: on every channel the oldest sample in the window, scaled by the
    /// gain after the frame.
    pub open spec fn output(self, frame: Seq<T>, ceiling: T, release: T) -> Seq<T> {
        Seq::new(
            self.delays.len(),
            |ch: int| self.delays[ch][0].s_mul(self.after(frame, ceiling, release).gain),
        )
    }
}

/// Moves a window on by one.
fn move_on<T: PrcFmt>(window: &mut Vec<T>, v: T)
    requires
        old(window)@.len() > 0,
    ensures
        final(window)@ == moved_on(old(window)@, v),
{
    let last: usize = window.len() - 1;
    let mut i: usize = 0;
    while i < last
        invariant
            i <= last,
            last + 1 == window@.len(),
            window@.len() == old(window)@.len(),
            forall|j: int|
                0 <= j < window@.len() ==> #[trigger] window@[j] == if j < i {
                    old(window)@[j + 1]
                } else {
                    old(window)@[j]
                },
        decreases last - i,
    {
        window[i] = window[i + 1];
        i += 1;
    }
    window[last] = v;
    assert(window@ =~= moved_on(old(window)@, v));
}

/// The views of a vector of vectors.
pub open spec fn views<T>(v: Seq<Vec<T>>) -> Seq<Seq<T>> {
    Seq::new(v.len(), |i: int| v[i]@)
}

/// Reusable true-peak limiter DSP: a 4x-oversampled true-peak detector feeding a lookahead peak
/// limiter with one-pole gain release.
///
/// The gain reduction is linked across channels: the same gain is applied to every channel so
/// stereo and multichannel imaging is preserved. The limiter caps the true (intersample) peak at
/// `ceiling`.
pub struct TruePeakLimiterCore<T> {
    /// Linear amplitude ceiling.
    pub ceiling: T,
    /// Release coefficient per sample (one-pole low-pass on gain recovery toward one).
    pub release_coef: T,
    /// Current applied gain. One means no attenuation; below one means limiting.
    pub current_gain: T,
    /// Per-channel lookahead delay buffers (length `LOOKAHEAD_SAMPLES`).
    pub delay_buffers: Vec<Vec<T>>,
    /// Future peak ring used to compute the look-ahead target gain.
    pub future_peaks: Vec<T>,
    /// 4x oversampling polyphase probe state (per channel).
    pub oversampler: TruePeakProbe<T>,
    pub nbr_channels: usize,
}

impl<T: PrcFmt> TruePeakLimiterCore<T> {
    /// What holds of a limiter between calls.
    pub open spec fn wf(self) -> bool {
        &&& self.delay_buffers@.len() == self.nbr_channels
        &&& forall|ch: int|
            0 <= ch < self.nbr_channels ==> (#[trigger] self.delay_buffers@[ch])@.len()
                == LOOKAHEAD_SAMPLES
        &&& self.future_peaks@.len() == LOOKAHEAD_SAMPLES
        &&& self.oversampler.wf()
        &&& self.oversampler.nbr_channels == self.nbr_channels
    }

    /// The state of the limiter.
    pub open spec fn state(self) -> LimiterState<T> {
        LimiterState {
            gain: self.current_gain,
            peaks: self.future_peaks@,
            delays: views(self.delay_buffers@),
            lines1: views(self.oversampler.state_stage1@),
            lines2: views(self.oversampler.state_stage2@),
        }
    }

    /// Whether no audio has been seen yet.
    pub open spec fn is_fresh(self) -> bool {
        &&& self.current_gain == s_one::<T>()
        &&& self.future_peaks@ == copies(LOOKAHEAD_SAMPLES as nat, s_zero::<T>())
        &&& forall|ch: int|
            0 <= ch < self.nbr_channels ==> (#[trigger] self.delay_buffers@[ch])@ == copies(
                LOOKAHEAD_SAMPLES as nat,
                s_zero::<T>(),
            )
        &&& self.oversampler.is_fresh()
    }

    pub fn new(nbr_channels: usize, ceiling_dbfs: T, release_ms: T, samplerate: usize) -> (r: Self)
        ensures
            r.wf(),
            r.is_fresh(),
            r.nbr_channels == nbr_channels,
            r.ceiling == s_ceiling_from_dbfs(ceiling_dbfs),
            r.release_coef == s_release_from_ms(release_ms, samplerate as int),
    {
        let zero: T = T::of_int(0);
        let mut delay_buffers: Vec<Vec<T>> = Vec::new();
        let mut ch: usize = 0;
        while ch < nbr_channels
            invariant
                ch <= nbr_channels,
                zero == s_zero::<T>(),
                delay_buffers@.len() == ch,
                forall|k: int|
                    0 <= k < ch ==> (#[trigger] delay_buffers@[k])@ == copies(
                        LOOKAHEAD_SAMPLES as nat,
                        s_zero::<T>(),
                    ),
            decreases nbr_channels - ch,
        {
            delay_buffers.push(filled(LOOKAHEAD_SAMPLES, zero));
            ch += 1;
        }
        TruePeakLimiterCore {
            ceiling: Self::ceiling_from_dbfs(ceiling_dbfs),
            release_coef: Self::release_from_ms(release_ms, samplerate),
            current_gain: T::of_int(1),
            delay_buffers,
            future_peaks: filled(LOOKAHEAD_SAMPLES, zero),
            oversampler: TruePeakProbe::new(nbr_channels),
            nbr_channels,
        }
    }

    pub fn ceiling_from_dbfs(ceiling_dbfs: T) -> (r: T)
        ensures
            r == s_ceiling_from_dbfs(ceiling_dbfs),
    {
        T::of_int(10).powf(ceiling_dbfs.over(T::of_int(20)))
    }

    pub fn release_from_ms(release_ms: T, samplerate: usize) -> (r: T)
        ensures
            r == s_release_from_ms(release_ms, samplerate as int),
    {
        if T::of_int(0).lt(release_ms) {
            T::of_int(1).minus(
                T::of_int(-1).over(
                    T::of_usize(samplerate).times(release_ms).over(T::of_int(1000)),
                ).exp(),
            )
        } else {
            T::of_int(1)
        }
    }

    /// Update ceiling / release without discarding the running limiter state (used for live
    /// parameter changes).
    pub fn set_params(&mut self, ceiling_dbfs: T, release_ms: T, samplerate: usize)
        ensures
            *final(self) == (TruePeakLimiterCore {
                ceiling: s_ceiling_from_dbfs(ceiling_dbfs),
                release_coef: s_release_from_ms(release_ms, samplerate as int),
                ..*old(self)
            }),
    {
        self.ceiling = Self::ceiling_from_dbfs(ceiling_dbfs);
        self.release_coef = Self::release_from_ms(release_ms, samplerate);
    }

    /// Fixed lookahead latency in samples added by the limiter.
    pub fn lookahead(&self) -> (r: usize)
        ensures
            r == LOOKAHEAD_SAMPLES,
    {
        LOOKAHEAD_SAMPLES
    }

    /// Process one frame (one sample per channel) through the lookahead limiter.
    ///
    /// Updates the per-channel delay buffers, computes the true-peak for the just-pushed frame,
    /// schedules the target gain in the future-peak ring, and writes the (already-delayed) limited
    /// samples into `out_per_channel`.
    pub fn process_frame(&mut self, in_per_channel: &[T], out_per_channel: &mut [T])
        requires
            old(self).wf(),
            old(self).nbr_channels <= in_per_channel@.len(),
            old(self).nbr_channels <= old(out_per_channel)@.len(),
        ensures
            final(self).wf(),
            final(self).nbr_channels == old(self).nbr_channels,
            final(self).ceiling == old(self).ceiling,
            final(self).release_coef == old(self).release_coef,
            final(self).state() == old(self).state().after(
                in_per_channel@,
                old(self).ceiling,
                old(self).release_coef,
            ),
            final(out_per_channel)@.len() == old(out_per_channel)@.len(),
            final(out_per_channel)@.take(old(self).nbr_channels as int) == old(
                self,
            ).state().output(in_per_channel@, old(self).ceiling, old(self).release_coef),
            final(out_per_channel)@.skip(old(self).nbr_channels as int) == old(
                out_per_channel,
            )@.skip(old(self).nbr_channels as int),
    {
        let ghost st = self.state();
        let ghost frame = in_per_channel@;
        let ghost ceiling = self.ceiling;
        let ghost release = self.release_coef;
        let mut peak: T = T::of_int(0);
        let mut ch: usize = 0;
        while ch < self.nbr_channels
            invariant
                ch <= self.nbr_channels,
                old(self).wf(),
                self.wf(),
                st == old(self).state(),
                frame == in_per_channel@,
                self.nbr_channels <= frame.len(),
                *self == (TruePeakLimiterCore { oversampler: self.oversampler, ..*old(self) }),
                self.nbr_channels == old(self).nbr_channels,
                peak == frame_peak(st, frame, ch as int),
                forall|k: int|
                    0 <= k < self.nbr_channels ==> (
                    #[trigger] self.oversampler.state_stage1@[k])@ == if k < ch {
                        pushed(st.lines1[k], frame[k])
                    } else {
                        st.lines1[k]
                    },
                forall|k: int|
                    0 <= k < self.nbr_channels ==> (
                    #[trigger] self.oversampler.state_stage2@[k])@ == if k < ch {
                        line2_after(pushed(st.lines1[k], frame[k]), st.lines2[k])
                    } else {
                        st.lines2[k]
                    },
            decreases self.nbr_channels - ch,
        {
            let v: T = in_per_channel[ch];
            let tp: T = self.oversampler.peak_of_sample(ch, v).max(v.abs());
            if peak.lt(tp) {
                peak = tp;
            }
            ch += 1;
        }
        let ghost probed = self.oversampler;
        move_on(&mut self.future_peaks, peak);
        let ghost peaks = self.future_peaks@;
        let mut target: T = T::of_int(1);
        let mut i: usize = 0;
        while i < self.future_peaks.len()
            invariant
                i <= peaks.len(),
                peaks == self.future_peaks@,
                target == target_gain(peaks, self.ceiling, i as int),
            decreases peaks.len() - i,
        {
            let p: T = self.future_peaks[i];
            if self.ceiling.lt(p) {
                let g: T = self.ceiling.over(p);
                if g.lt(target) {
                    target = g;
                }
            }
            i += 1;
        }
        if target.lt(self.current_gain) {
            self.current_gain = target;
        } else {
            let recovery_target: T = target.min(T::of_int(1));
            self.current_gain = self.current_gain.plus(
                recovery_target.minus(self.current_gain).times(self.release_coef),
            );
        }
        let ghost next = st.after(frame, ceiling, release);
        assert(self.current_gain == next.gain);
        let mut c: usize = 0;
        while c < self.nbr_channels
            invariant
                c <= self.nbr_channels,
                old(self).wf(),
                self.nbr_channels == old(self).nbr_channels,
                st == old(self).state(),
                frame == in_per_channel@,
                self.nbr_channels <= frame.len(),
                out_per_channel@.len() == old(out_per_channel)@.len(),
                self.nbr_channels <= out_per_channel@.len(),
                self.ceiling == old(self).ceiling,
                self.release_coef == old(self).release_coef,
                self.future_peaks@ == peaks,
                self.oversampler == probed,
                self.current_gain == next.gain,
                self.delay_buffers@.len() == self.nbr_channels,
                forall|k: int|
                    0 <= k < self.nbr_channels ==> (#[trigger] self.delay_buffers@[k])@ == if k
                        < c {
                        moved_on(st.delays[k], frame[k])
                    } else {
                        st.delays[k]
                    },
                forall|k: int|
                    0 <= k < out_per_channel@.len() ==> #[trigger] out_per_channel@[k] == if k < c {
                        st.delays[k][0].s_mul(next.gain)
                    } else {
                        old(out_per_channel)@[k]
                    },
            decreases self.nbr_channels - c,
        {
            let v: T = in_per_channel[c];
            let gain: T = self.current_gain;
            let buf: &mut Vec<T> = &mut self.delay_buffers[c];
            let out: T = buf[0].times(gain);
            move_on(buf, v);
            out_per_channel[c] = out;
            c += 1;
        }
        assert(self.state() =~~= next);
    }

    pub fn reset(&mut self)
        requires
            old(self).wf(),
        ensures
            final(self).wf(),
            final(self).is_fresh(),
            final(self).nbr_channels == old(self).nbr_channels,
            final(self).ceiling == old(self).ceiling,
            final(self).release_coef == old(self).release_coef,
    {
        let mut ch: usize = 0;
        while ch < self.nbr_channels
            invariant
                ch <= self.nbr_channels,
                old(self).wf(),
                *self == (TruePeakLimiterCore { delay_buffers: self.delay_buffers, ..*old(self) }),
                self.delay_buffers@.len() == self.nbr_channels,
                forall|k: int|
                    0 <= k < self.nbr_channels ==> (#[trigger] self.delay_buffers@[k])@.len()
                        == LOOKAHEAD_SAMPLES,
                forall|k: int|
                    0 <= k < ch ==> (#[trigger] self.delay_buffers@[k])@ == copies(
                        LOOKAHEAD_SAMPLES as nat,
                        s_zero::<T>(),
                    ),
            decreases self.nbr_channels - ch,
        {
            fill(&mut self.delay_buffers[ch], T::of_int(0));
            ch += 1;
        }
        fill(&mut self.future_peaks, T::of_int(0));
        self.current_gain = T::of_int(1);
        self.oversampler.reset();
    }
}

impl<T: Metered> TruePeakLimiterCore<T> {
    /// The attenuation in dB, computed in the format of a level.
    pub open spec fn s_attenuation_db(self) -> T::Level {
        T::Level::s_int(20).s_mul(self.current_gain.s_max(T::s_dec(1, 9)).s_metered().s_log10())
    }

    /// Current applied attenuation in dB (zero is no limiting, negative is active).
    pub fn attenuation_db(&self) -> (r: T::Level)
        ensures
            r == self.s_attenuation_db(),
    {
        T::Level::of_int(20).times(self.current_gain.max(T::decimal(1, 9)).metered().log10())
    }
}

} // verus!
