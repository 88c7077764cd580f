//! Master-bus true-peak (intersample-peak) limiter.
//!
//! Placed last in the pipeline, this processor protects the actual DAC feed: it runs the signal
//! through a 4x oversampled true-peak detector plus a lookahead peak limiter and caps the linked
//! (all-channel) signal at a configurable ceiling. It sits after every gain, harmonic and EQ
//! stage, so the intersample peaks those stages generate are guarded before reaching the DAC.

pub mod branches;
pub mod capping;
pub mod even_branch;
pub mod limiter;
pub mod probe;
pub mod probe_laws;
pub mod recovery;

use crate::arith::{filled, s_one, s_zero};
use crate::config::{ConfigError, TruePeakParameters};
use crate::prcfmt::{Metered, PrcFmt};
use crate::processors::truepeak::limiter::{
    moved_on, next_gain, s_ceiling_from_dbfs, s_release_from_ms, target_gain, LimiterState,
};
use vstd::prelude::*;

pub use crate::processors::truepeak::limiter::{TruePeakLimiterCore, LOOKAHEAD_SAMPLES};
pub use crate::processors::truepeak::probe::TruePeakProbe;

verus! {

/// Maximum number of channels the true-peak limiter supports.
pub const MAX_CHANNELS: usize = 32;

/// The processor.
pub struct TruePeak<T> {
    pub name: String,
    pub channels: usize,
    pub ceiling_dbfs: T,
    pub release_ms: T,
    pub samplerate: usize,
    pub limiter: TruePeakLimiterCore<T>,
}

/// The length of the longest of the first `n` waveforms.
pub open spec fn longest<T>(waves: Seq<Vec<T>>, n: int) -> int
    decreases n,
{
    if n <= 0 {
        0
    } else if longest(waves, n - 1) < waves[n - 1]@.len() {
        waves[n - 1]@.len() as int
    } else {
        longest(waves, n - 1)
    }
}

proof fn lemma_longest<T>(waves: Seq<Vec<T>>, n: int, ch: int)
    requires
        0 <= ch < n,
    ensures
        waves[ch]@.len() <= longest(waves, n),
    decreases n,
{
    if ch < n - 1 {
        lemma_longest(waves, n - 1, ch);
    }
}

/// Sample `f` of channel `ch`. Channels that are absent or too short are silent.
pub open spec fn sample_or_silence<T: PrcFmt>(waves: Seq<Vec<T>>, ch: int, f: int) -> T {
    if ch < waves.len() && f < waves[ch]@.len() {
        waves[ch]@[f]
    } else {
        s_zero()
    }
}

/// Frame `f` of `channels` channels.
pub open spec fn frame_at<T: PrcFmt>(waves: Seq<Vec<T>>, channels: int, f: int) -> Seq<T> {
    Seq::new(channels as nat, |ch: int| sample_or_silence(waves, ch, f))
}

/// The state of a limiter after the first `n` frames.
pub open spec fn state_after<T: PrcFmt>(
    st: LimiterState<T>,
    waves: Seq<Vec<T>>,
    channels: int,
    ceiling: T,
    release: T,
    n: int,
) -> LimiterState<T>
    decreases n,
{
    if n <= 0 {
        st
    } else {
        state_after(st, waves, channels, ceiling, release, n - 1).after(
            frame_at(waves, channels, n - 1),
            ceiling,
            release,
        )
    }
}

/// What comes out on channel `ch` for frame `f`. A channel that the limiter was not built for is
/// silent.
pub open spec fn limited_at<T: PrcFmt>(
    st: LimiterState<T>,
    waves: Seq<Vec<T>>,
    channels: int,
    ceiling: T,
    release: T,
    ch: int,
    f: int,
) -> T {
    if ch < st.delays.len() {
        state_after(st, waves, channels, ceiling, release, f).output(
            frame_at(waves, channels, f),
            ceiling,
            release,
        )[ch]
    } else {
        s_zero()
    }
}

/// Frames leave the number of channels and the length of the window as they are.
pub proof fn lemma_state_after_channels<T: PrcFmt>(
    st: LimiterState<T>,
    waves: Seq<Vec<T>>,
    channels: int,
    ceiling: T,
    release: T,
    n: int,
)
    ensures
        state_after(st, waves, channels, ceiling, release, n).delays.len() == st.delays.len(),
    decreases n,
{
    if n > 0 {
        lemma_state_after_channels(st, waves, channels, ceiling, release, n - 1);
    }
}

impl<T: PrcFmt> TruePeak<T> {
    /// What holds of the processor between calls.
    pub open spec fn wf(self) -> bool {
        &&& self.limiter.wf()
        &&& self.limiter.ceiling == s_ceiling_from_dbfs(self.ceiling_dbfs)
        &&& self.limiter.release_coef == s_release_from_ms(
            self.release_ms,
            self.samplerate as int,
        )
    }

    /// Creates a TruePeak processor from a config struct.
    pub fn from_config(name: &str, config: TruePeakParameters<T>, samplerate: usize) -> (r: Self)
        ensures
            r.wf(),
            r.name@ == name@,
            r.channels == config.channels,
            r.ceiling_dbfs == config.s_ceiling_dbfs(),
            r.release_ms == config.release_ms,
            r.samplerate == samplerate,
            r.limiter.nbr_channels == config.channels,
            r.limiter.is_fresh(),
    {
        let channels: usize = config.channels;
        let ceiling_dbfs: T = config.ceiling_dbfs();
        let release_ms: T = config.release_ms;
        let limiter: TruePeakLimiterCore<T> = TruePeakLimiterCore::new(
            channels,
            ceiling_dbfs,
            release_ms,
            samplerate,
        );
        TruePeak { name: name.to_owned(), channels, ceiling_dbfs, release_ms, samplerate, limiter }
    }

    /// Lookahead latency in samples this processor adds to the signal path.
    pub fn latency(&self) -> (r: usize)
        ensures
            r == LOOKAHEAD_SAMPLES,
    {
        self.limiter.lookahead()
    }

    /// The name of this processor.
    pub fn name(&self) -> (r: &str)
        ensures
            r@ == self.name@,
    {
        self.name.as_str()
    }

    /// Takes over new parameters. The running limiter state stays as it is.
    pub fn update_parameters(&mut self, config: TruePeakParameters<T>)
        requires
            old(self).wf(),
        ensures
            final(self).wf(),
            final(self).name == old(self).name,
            final(self).samplerate == old(self).samplerate,
            final(self).channels == config.channels,
            final(self).ceiling_dbfs == config.s_ceiling_dbfs(),
            final(self).release_ms == config.release_ms,
            final(self).limiter.nbr_channels == old(self).limiter.nbr_channels,
            final(self).limiter.state() == old(self).limiter.state(),
    {
        self.channels = config.channels;
        self.ceiling_dbfs = config.ceiling_dbfs();
        self.release_ms = config.release_ms;
        self.limiter.set_params(self.ceiling_dbfs, self.release_ms, self.samplerate);
    }
}

impl<T: Metered> TruePeak<T> {
    /// Apply the true-peak limiter to a chunk of waveforms, modifying it in-place. The longest
    /// waveform sets the frame count; absent and short channels are read as silence and left
    /// untouched. Returns the attenuation in dB that is applied at the end of the chunk.
    pub fn process_chunk(&mut self, waveforms: &mut Vec<Vec<T>>) -> (r: T::Level)
        requires
            old(self).wf(),
            old(self).limiter.nbr_channels <= old(self).channels <= MAX_CHANNELS,
        ensures
            final(self).wf(),
            final(self).name == old(self).name,
            final(self).channels == old(self).channels,
            final(self).ceiling_dbfs == old(self).ceiling_dbfs,
            final(self).release_ms == old(self).release_ms,
            final(self).samplerate == old(self).samplerate,
            final(self).limiter.nbr_channels == old(self).limiter.nbr_channels,
            final(self).limiter.state() == state_after(
                old(self).limiter.state(),
                old(waveforms)@,
                old(self).channels as int,
                old(self).limiter.ceiling,
                old(self).limiter.release_coef,
                longest(old(waveforms)@, old(waveforms)@.len() as int),
            ),
            final(waveforms)@.len() == old(waveforms)@.len(),
            forall|ch: int|
                0 <= ch < old(waveforms)@.len() ==> (#[trigger] final(waveforms)@[ch])@.len()
                    == old(waveforms)@[ch]@.len(),
            forall|ch: int, f: int|
                0 <= ch < old(waveforms)@.len() && 0 <= f < old(waveforms)@[ch]@.len()
                    ==> #[trigger] final(waveforms)@[ch]@[f] == if ch < old(self).channels {
                    limited_at(
                        old(self).limiter.state(),
                        old(waveforms)@,
                        old(self).channels as int,
                        old(self).limiter.ceiling,
                        old(self).limiter.release_coef,
                        ch,
                        f,
                    )
                } else {
                    old(waveforms)@[ch]@[f]
                },
            r == final(self).limiter.s_attenuation_db(),
    {
        let nch: usize = self.channels;
        let ghost st = self.limiter.state();
        let ghost waves = waveforms@;
        let ghost ceiling = self.limiter.ceiling;
        let ghost release = self.limiter.release_coef;
        let ghost built = self.limiter.nbr_channels as int;
        let mut frames: usize = 0;
        let mut w: usize = 0;
        while w < waveforms.len()
            invariant
                w <= waveforms@.len(),
                waves == waveforms@,
                frames == longest(waves, w as int),
            decreases waveforms@.len() - w,
        {
            if frames < waveforms[w].len() {
                frames = waveforms[w].len();
            }
            w += 1;
        }
        let zero: T = T::of_int(0);
        let mut frame_in: Vec<T> = filled(nch, zero);
        let mut frame_out: Vec<T> = filled(nch, zero);
        let mut f: usize = 0;
        while f < frames
            invariant
                f <= frames,
                nch == old(self).channels,
                zero == s_zero::<T>(),
                frame_in@.len() == nch,
                frame_out@.len() == nch,
                waves == old(waveforms)@,
                waveforms@.len() == waves.len(),
                st == old(self).limiter.state(),
                ceiling == old(self).limiter.ceiling,
                release == old(self).limiter.release_coef,
                built == old(self).limiter.nbr_channels,
                built <= nch,
                st.delays.len() == built,
                *self == (TruePeak { limiter: self.limiter, ..*old(self) }),
                self.limiter.wf(),
                self.limiter.nbr_channels == built,
                self.limiter.ceiling == ceiling,
                self.limiter.release_coef == release,
                self.limiter.state() == state_after(
                    st,
                    waves,
                    nch as int,
                    ceiling,
                    release,
                    f as int,
                ),
                forall|k: int| built <= k < nch ==> #[trigger] frame_out@[k] == zero,
                forall|ch: int|
                    0 <= ch < waves.len() ==> (#[trigger] waveforms@[ch])@.len()
                        == waves[ch]@.len(),
                forall|ch: int, j: int|
                    0 <= ch < waves.len() && 0 <= j < waves[ch]@.len()
                        ==> #[trigger] waveforms@[ch]@[j] == if ch < nch && j < f {
                        limited_at(st, waves, nch as int, ceiling, release, ch, j)
                    } else {
                        waves[ch]@[j]
                    },
            decreases frames - f,
        {
            let mut ch: usize = 0;
            while ch < nch
                invariant
                    ch <= nch,
                    zero == s_zero::<T>(),
                    frame_in@.len() == nch,
                    waveforms@.len() == waves.len(),
                    forall|c: int|
                        0 <= c < waves.len() ==> (#[trigger] waveforms@[c])@.len()
                            == waves[c]@.len(),
                    forall|c: int, j: int|
                        0 <= c < waves.len() && 0 <= j < waves[c]@.len()
                            ==> #[trigger] waveforms@[c]@[j] == if c < nch && j < f {
                            limited_at(st, waves, nch as int, ceiling, release, c, j)
                        } else {
                            waves[c]@[j]
                        },
                    forall|k: int|
                        0 <= k < ch ==> #[trigger] frame_in@[k] == sample_or_silence(
                            waves,
                            k,
                            f as int,
                        ),
                decreases nch - ch,
            {
                frame_in[ch] = if ch < waveforms.len() && f < waveforms[ch].len() {
                    waveforms[ch][f]
                } else {
                    zero
                };
                ch += 1;
            }
            assert(frame_in@ =~= frame_at(waves, nch as int, f as int));
            let ghost here = self.limiter.state();
            let ghost held = frame_out@;
            self.limiter.process_frame(frame_in.as_slice(), frame_out.as_mut_slice());
            proof {
                lemma_state_after_channels(st, waves, nch as int, ceiling, release, f as int);
                assert forall|k: int| 0 <= k < nch implies #[trigger] frame_out@[k] == limited_at(
                    st,
                    waves,
                    nch as int,
                    ceiling,
                    release,
                    k,
                    f as int,
                ) by {
                    if k < built {
                        assert(frame_out@.take(built)[k] == frame_out@[k]);
                    } else {
                        assert(frame_out@.skip(built)[k - built] == held.skip(built)[k - built]);
                        assert(held[k] == zero);
                    }
                }
            }
            let mut c: usize = 0;
            while c < nch
                invariant
                    c <= nch,
                    frame_out@.len() == nch,
                    waveforms@.len() == waves.len(),
                    forall|k: int|
                        0 <= k < nch ==> #[trigger] frame_out@[k] == limited_at(
                            st,
                            waves,
                            nch as int,
                            ceiling,
                            release,
                            k,
                            f as int,
                        ),
                    forall|k: int|
                        0 <= k < waves.len() ==> (#[trigger] waveforms@[k])@.len()
                            == waves[k]@.len(),
                    forall|k: int, j: int|
                        0 <= k < waves.len() && 0 <= j < waves[k]@.len()
                            ==> #[trigger] waveforms@[k]@[j] == if k < nch && (j < f || (j == f
                            && k < c)) {
                            limited_at(st, waves, nch as int, ceiling, release, k, j)
                        } else {
                            waves[k]@[j]
                        },
                decreases nch - c,
            {
                if c < waveforms.len() && f < waveforms[c].len() {
                    waveforms[c][f] = frame_out[c];
                }
                c += 1;
            }
            f += 1;
        }
        proof {
            assert forall|ch: int| 0 <= ch < waves.len() implies (#[trigger] waves[ch])@.len()
                <= frames by {
                lemma_longest(waves, waves.len() as int, ch);
            }
        }
        self.limiter.attenuation_db()
    }
}

/// What the first failing test of the parameters says, if one fails.
pub open spec fn truepeak_error<T: PrcFmt>(config: TruePeakParameters<T>) -> Option<
    ConfigError<T>,
> {
    if config.channels > MAX_CHANNELS {
        Some(ConfigError::TooManyChannels { channels: config.channels, max: MAX_CHANNELS })
    } else if s_zero::<T>().s_lt(config.s_ceiling_dbfs()) {
        Some(ConfigError::CeilingAboveFullScale)
    } else if config.release_ms.s_lt(s_zero()) {
        Some(ConfigError::ReleaseNegative)
    } else {
        None
    }
}

/// Validate the TruePeak processor config.
pub fn validate_truepeak<T: PrcFmt>(config: &TruePeakParameters<T>) -> (r: Result<
    (),
    ConfigError<T>,
>)
    ensures
        match truepeak_error(*config) {
            Some(e) => r == Err::<(), ConfigError<T>>(e),
            None => r is Ok,
        },
{
    if config.channels > MAX_CHANNELS {
        return Err(ConfigError::TooManyChannels { channels: config.channels, max: MAX_CHANNELS });
    }
    if T::of_int(0).lt(config.ceiling_dbfs()) {
        return Err(ConfigError::CeilingAboveFullScale);
    }
    if config.release_ms.lt(T::of_int(0)) {
        return Err(ConfigError::ReleaseNegative);
    }
    Ok(())
}

// ------------------------------- Laws -------------------------------

/// A processor built from parameters that pass validation can process every chunk.
pub proof fn lemma_valid_parameters_can_run<T: PrcFmt>(
    config: TruePeakParameters<T>,
    tp: TruePeak<T>,
)
    requires
        truepeak_error(config) is None,
        tp.channels == config.channels,
        tp.limiter.nbr_channels == config.channels,
    ensures
        tp.limiter.nbr_channels <= tp.channels <= MAX_CHANNELS,
{
}

/// The state of a limiter after a sequence of frames.
pub open spec fn after_frames<T: PrcFmt>(
    st: LimiterState<T>,
    frames: Seq<Seq<T>>,
    ceiling: T,
    release: T,
) -> LimiterState<T>
    decreases frames.len(),
{
    if frames.len() == 0 {
        st
    } else {
        after_frames(st, frames.drop_last(), ceiling, release).after(
            frames.last(),
            ceiling,
            release,
        )
    }
}

/// The limiter does not depend on how the audio is cut: frames in two goes leave it as they do in
/// one.
pub proof fn lemma_limiting_ignores_cuts<T: PrcFmt>(
    st: LimiterState<T>,
    a: Seq<Seq<T>>,
    b: Seq<Seq<T>>,
    ceiling: T,
    release: T,
)
    ensures
        after_frames(st, a + b, ceiling, release) == after_frames(
            after_frames(st, a, ceiling, release),
            b,
            ceiling,
            release,
        ),
    decreases b.len(),
{
    if b.len() == 0 {
        assert(a + b =~= a);
    } else {
        assert((a + b).drop_last() =~= a + b.drop_last());
        lemma_limiting_ignores_cuts(st, a, b.drop_last(), ceiling, release);
    }
}

/// Limiters without audio are in the same state: what a reset limiter makes of any frames is what
/// a new one with the same parameters makes of them.
pub proof fn lemma_fresh_states_agree<T: Metered>(
    a: TruePeakLimiterCore<T>,
    b: TruePeakLimiterCore<T>,
)
    requires
        a.wf(),
        b.wf(),
        a.is_fresh(),
        b.is_fresh(),
        a.nbr_channels == b.nbr_channels,
    ensures
        a.state() == b.state(),
        a.s_attenuation_db() == b.s_attenuation_db(),
        forall|frames: Seq<Seq<T>>, ceiling: T, release: T| #[trigger]
            after_frames(a.state(), frames, ceiling, release) == after_frames(
                b.state(),
                frames,
                ceiling,
                release,
            ),
{
    let x = a.state();
    let y = b.state();
    assert forall|ch: int| 0 <= ch < a.nbr_channels implies #[trigger] x.delays[ch] == y.delays[ch]
        && x.lines1[ch] == y.lines1[ch] && x.lines2[ch] == y.lines2[ch] by {
        assert(x.delays[ch] == a.delay_buffers@[ch]@ && y.delays[ch] == b.delay_buffers@[ch]@);
        assert(x.lines1[ch] == a.oversampler.state_stage1@[ch]@);
        assert(y.lines1[ch] == b.oversampler.state_stage1@[ch]@);
        assert(x.lines2[ch] == a.oversampler.state_stage2@[ch]@);
        assert(y.lines2[ch] == b.oversampler.state_stage2@[ch]@);
    }
    assert(x.delays =~= y.delays);
    assert(x.lines1 =~= y.lines1) by {
        assert forall|ch: int| 0 <= ch < a.nbr_channels implies x.lines1[ch] == y.lines1[ch] by {
            assert(x.delays[ch] == y.delays[ch]);
        }
    }
    assert(x.lines2 =~= y.lines2) by {
        assert forall|ch: int| 0 <= ch < a.nbr_channels implies x.lines2[ch] == y.lines2[ch] by {
            assert(x.delays[ch] == y.delays[ch]);
        }
    }
    assert(x =~= y);
}

/// One channel of a sequence of frames.
pub open spec fn column<T>(frames: Seq<Seq<T>>, ch: int) -> Seq<T> {
    Seq::new(frames.len(), |i: int| frames[i][ch])
}

/// The lookahead windows are delay lines: after any frames, that of channel `ch` holds the end of
/// what was in it followed by the samples of that channel.
pub proof fn lemma_windows_delay<T: PrcFmt>(
    st: LimiterState<T>,
    frames: Seq<Seq<T>>,
    ceiling: T,
    release: T,
    ch: int,
)
    requires
        0 <= ch < st.delays.len(),
        0 < st.delays[ch].len(),
    ensures
        after_frames(st, frames, ceiling, release).delays.len() == st.delays.len(),
        after_frames(st, frames, ceiling, release).delays[ch] == (st.delays[ch] + column(
            frames,
            ch,
        )).skip(frames.len() as int),
    decreases frames.len(),
{
    let all = st.delays[ch] + column(frames, ch);
    if frames.len() == 0 {
        assert(all.skip(0) =~= st.delays[ch]);
    } else {
        lemma_windows_delay(st, frames.drop_last(), ceiling, release, ch);
        let before = after_frames(st, frames.drop_last(), ceiling, release);
        let earlier = st.delays[ch] + column(frames.drop_last(), ch);
        let n = frames.len() as int;
        assert(moved_on(before.delays[ch], frames.last()[ch]) =~= all.skip(n)) by {
            assert(before.delays[ch] == earlier.skip(n - 1));
            assert(earlier =~= all.drop_last());
        }
    }
}

/// The gain reduction is linked: for every frame there is one gain by which the samples of all
/// channels are scaled, each the sample that its channel received `LOOKAHEAD_SAMPLES` frames
/// before.
pub proof fn lemma_gain_is_linked_across_channels<T: PrcFmt>(
    st: LimiterState<T>,
    frames: Seq<Seq<T>>,
    frame: Seq<T>,
    ceiling: T,
    release: T,
    ch: int,
)
    requires
        0 <= ch < st.delays.len(),
        st.delays[ch].len() == LOOKAHEAD_SAMPLES,
    ensures
        ({
            let here = after_frames(st, frames, ceiling, release);
            let heard = st.delays[ch] + column(frames.push(frame), ch);
            here.output(frame, ceiling, release)[ch] == heard[frames.len() as int].s_mul(
                here.after(frame, ceiling, release).gain,
            )
        }),
        frames.len() >= LOOKAHEAD_SAMPLES ==> (st.delays[ch] + column(
            frames.push(frame),
            ch,
        ))[frames.len() as int] == frames[frames.len() - LOOKAHEAD_SAMPLES][ch],
{
    lemma_windows_delay(st, frames, ceiling, release, ch);
}

/// The target gain keeps every peak in the window at or below the ceiling: for no peak that
/// exceeds the ceiling does it lie above the gain that this peak asks for.
pub proof fn lemma_target_gain_serves_every_peak<T: PrcFmt>(
    peaks: Seq<T>,
    ceiling: T,
    n: int,
    i: int,
)
    requires
        0 <= i < n <= peaks.len(),
        ceiling.s_lt(peaks[i]),
    ensures
        !ceiling.s_div(peaks[i]).s_lt(target_gain(peaks, ceiling, n)),
    decreases n,
{
    let asked = ceiling.s_div(peaks[i]);
    let target = target_gain(peaks, ceiling, n);
    asked.lt_irreflexive();
    if i < n - 1 {
        lemma_target_gain_serves_every_peak(peaks, ceiling, n - 1, i);
        let before = target_gain(peaks, ceiling, n - 1);
        if asked.s_lt(target) && target.s_lt(before) {
            asked.lt_transitive(target, before);
        }
    }
}

/// Where no peak in the window exceeds the ceiling, no attenuation is asked for.
pub proof fn lemma_quiet_asks_for_no_attenuation<T: PrcFmt>(peaks: Seq<T>, ceiling: T, n: int)
    requires
        0 <= n <= peaks.len(),
        forall|i: int| 0 <= i < n ==> !ceiling.s_lt(#[trigger] peaks[i]),
    ensures
        target_gain(peaks, ceiling, n) == s_one::<T>(),
    decreases n,
{
    if n > 0 {
        lemma_quiet_asks_for_no_attenuation(peaks, ceiling, n - 1);
    }
}

/// The attack is instantaneous: the gain after a frame never lies above the target for the window,
/// where it had to come down to it.
pub proof fn lemma_attack_is_instantaneous<T: PrcFmt>(gain: T, target: T, release: T)
    requires
        target.s_lt(gain),
    ensures
        next_gain(gain, target, release) == target,
{
}

} // verus!
