//! Declipper: source-domain repair for clipped (flat-topped) masters.
//!
//! Two stages: detect flat-topped clip runs, then reconstruct the missing waveform peak from the
//! surrounding unclipped context so the restored peak overshoots the clip level. Reconstruction
//! needs unclipped samples on both sides of a clip, so the processor runs a per-channel delay
//! line: output is delayed by the lookahead, and clips that straddle chunk boundaries are repaired
//! once their trailing context has arrived.

pub mod banded;
pub mod banded_laws;
pub mod detection;
pub mod gap;
pub mod gap_laws;
pub mod lpc;
pub mod lpc_laws;
pub mod model_laws;
pub mod repair_laws;
pub mod scan;

use crate::arith::{
    append, copies, db_to_linear, drop_front, filled, max_int, min_int, monus, s_db_to_linear,
    s_one, s_zero,
};
use crate::config::{
    channels_exist, first_missing_channel, listed, missing_channel, ConfigError, DeclipMethod,
    DeclipperParameters,
};
use crate::fixed::Fixed;
use crate::fixed_laws::lemma_zero_product;
use crate::prcfmt::PrcFmt;
use crate::processors::declipper::gap::ArScratch;
use crate::processors::declipper::scan::{
    began_earlier, covered, in_order, in_runs, lemma_plateau_end, lemma_scan_goes_forward,
    lemma_scan_quiet, lemma_scan_touches_only_loud, plateau_end, quiet, repair_clips, repaired,
    repaired_up_to, scan, ClipSettings, Found, Scanned,
};
use vstd::prelude::*;

verus! {

/// Repairs clip runs, at the price of a fixed delay.
pub struct Declipper<T> {
    pub name: String,
    pub channels: usize,
    pub process_channels: Vec<usize>,
    /// Which channels are repaired. The others are only delayed.
    pub is_process: Vec<bool>,
    pub clip_threshold: T,
    pub min_clip_len: usize,
    pub max_clip_len: usize,
    pub method: DeclipMethod,
    pub ar_order: usize,
    pub makeup: T,
    /// Left/right context length kept for reconstruction (also the delay-line lookback). Fixed at
    /// construction so the delay stays continuous across parameter updates.
    pub ctx: usize,
    /// Output delay in samples (lookahead depth).
    pub delay: usize,
    /// Largest clip gap the autoregressive scratch buffers can hold; longer gaps fall back to
    /// cubic reconstruction.
    pub ar_gap_cap: usize,
    pub samplerate: usize,
    /// Per-channel delay/analysis buffers. The first `ctx` samples are already-emitted left
    /// context, the last `delay` are received-but-not-yet-emitted samples.
    pub buffers: Vec<Vec<T>>,
    /// Per channel the end of the last repaired run, as a position in the delay line. A scan never
    /// starts before it: what was repaired is not taken for a clip again.
    pub repaired_to: Vec<usize>,
    pub scratch: ArScratch<T>,
    pub long_clip_warned: bool,
}

/// What happened while a chunk was processed.
pub struct DeclipReport {
    /// Samples that were repaired.
    pub declipped: usize,
    /// The length of a run that was too long and was passed through, given once until the
    /// parameters change.
    pub long_clip: Option<usize>,
}

/// Which of the channels are to be processed: those listed, or all where the list is empty.
pub open spec fn process_mask(channels: int, process_channels: Seq<usize>) -> Seq<bool> {
    Seq::new(
        channels as nat,
        |ch: int|
            process_channels.len() == 0 || exists|i: int|
                0 <= i < process_channels.len() && process_channels[i] == ch,
    )
}

/// Marks the channels to be processed.
pub fn build_is_process(channels: usize, process_channels: &Vec<usize>) -> (mask: Vec<bool>)
    ensures
        mask@ == process_mask(channels as int, process_channels@),
{
    let mut mask: Vec<bool> = filled(channels, process_channels.len() == 0);
    let mut i: usize = 0;
    while i < process_channels.len()
        invariant
            i <= process_channels@.len(),
            mask@.len() == channels,
            forall|ch: int|
                0 <= ch < channels ==> #[trigger] mask@[ch] == (process_channels@.len() == 0
                    || exists|k: int| 0 <= k < i && process_channels@[k] == ch),
        decreases process_channels@.len() - i,
    {
        let ghost before = mask@;
        let ch: usize = process_channels[i];
        if ch < channels {
            mask[ch] = true;
        }
        assert forall|c: int| 0 <= c < channels implies #[trigger] mask@[c] == (
        process_channels@.len() == 0 || exists|k: int|
            0 <= k < i + 1 && process_channels@[k] == c) by {
            assert(before[c] == (process_channels@.len() == 0 || exists|k: int|
                0 <= k < i && process_channels@[k] == c));
            if c == ch {
                assert(process_channels@[i as int] == c);
            } else if exists|k: int| 0 <= k < i + 1 && process_channels@[k] == c {
                let k = choose|k: int| 0 <= k < i + 1 && process_channels@[k] == c;
                assert(k < i);
            }
        }
        i += 1;
    }
    assert(mask@ =~= process_mask(channels as int, process_channels@));
    mask
}

/// The context length for a model order: it comfortably exceeds the order, so that the
/// autocorrelation and the prediction recursion are well conditioned.
pub open spec fn context_len(order: int) -> int {
    max_int(4 * order, 128)
}

/// Whether the delay lines and scratch vectors for these parameters can be addressed.
pub open spec fn sizes_fit(order: int, max_clip_len: int, chunksize: int) -> bool {
    let ctx = context_len(order);
    &&& max_clip_len + 2 * ctx + chunksize <= usize::MAX
    &&& max_clip_len * (ctx + 1) <= usize::MAX
}

/// The delay line of one channel after a chunk has arrived and clips were repaired. The scan
/// starts at the emit region, or at `to` where the signal has been repaired beyond that.
pub open spec fn line_after<T: PrcFmt>(
    buf: Seq<T>,
    to: int,
    wave: Seq<T>,
    process: bool,
    set: ClipSettings<T>,
) -> Scanned<T> {
    if process {
        scan(
            buf + wave,
            max_int(set.ctx as int, to),
            set.ctx + wave.len(),
            set,
            Seq::empty(),
            None,
        )
    } else {
        Scanned { line: buf + wave, runs: Seq::empty(), long: None }
    }
}

/// How far the delay line has been repaired once a chunk of `frames` samples has left it.
pub open spec fn repaired_after(runs: Seq<(int, int)>, to: int, frames: int) -> int {
    monus(repaired_up_to(runs, to), frames)
}

/// What one channel emits: the oldest pending samples, scaled.
pub open spec fn emitted<T: PrcFmt>(line: Seq<T>, ctx: int, frames: nat, makeup: T) -> Seq<T> {
    Seq::new(frames, |k: int| line[ctx + k].s_mul(makeup))
}

/// The repaired samples in the first `n` channels.
pub open spec fn declipped_in<T: PrcFmt>(
    buffers: Seq<Vec<T>>,
    repaired_to: Seq<usize>,
    waves: Seq<Vec<T>>,
    mask: Seq<bool>,
    set: ClipSettings<T>,
    n: int,
) -> int
    decreases n,
{
    if n <= 0 {
        0
    } else {
        declipped_in(buffers, repaired_to, waves, mask, set, n - 1) + covered(
            line_after(
                buffers[n - 1]@,
                repaired_to[n - 1] as int,
                waves[n - 1]@,
                mask[n - 1],
                set,
            ).runs,
        )
    }
}

/// The last run in the first `n` channels that was too long to repair.
pub open spec fn long_clip_in<T: PrcFmt>(
    buffers: Seq<Vec<T>>,
    repaired_to: Seq<usize>,
    waves: Seq<Vec<T>>,
    mask: Seq<bool>,
    set: ClipSettings<T>,
    n: int,
) -> Option<int>
    decreases n,
{
    if n <= 0 {
        None
    } else {
        let done = line_after(
            buffers[n - 1]@,
            repaired_to[n - 1] as int,
            waves[n - 1]@,
            mask[n - 1],
            set,
        );
        match done.long {
            Some(len) => Some(len),
            None => long_clip_in(buffers, repaired_to, waves, mask, set, n - 1),
        }
    }
}

/// The number of samples in the delay lines and waveforms of the first `n` channels.
pub open spec fn samples_in<T>(buffers: Seq<Vec<T>>, waves: Seq<Vec<T>>, n: int) -> int
    decreases n,
{
    if n <= 0 {
        0
    } else {
        samples_in(buffers, waves, n - 1) + buffers[n - 1]@.len() + waves[n - 1]@.len()
    }
}

proof fn lemma_samples_in_monotonic<T>(buffers: Seq<Vec<T>>, waves: Seq<Vec<T>>, n: int, m: int)
    requires
        n <= m,
    ensures
        samples_in(buffers, waves, n) <= samples_in(buffers, waves, m),
    decreases m - n,
{
    if n < m {
        lemma_samples_in_monotonic(buffers, waves, n, m - 1);
    }
}

/// The number of samples that a chunk and the delay lines hold together, as far as both have
/// channels.
pub open spec fn samples_held<T>(buffers: Seq<Vec<T>>, waves: Seq<Vec<T>>) -> int {
    samples_in(buffers, waves, min_int(buffers.len() as int, waves.len() as int))
}

/// `channels` delay lines after a resize from `buffers`: lines that were there stay as they are,
/// new ones hold silence.
pub open spec fn line_kept_or_silent<T: PrcFmt>(
    buffers: Seq<Vec<T>>,
    ch: int,
    buf_len: nat,
) -> Seq<T> {
    if ch < buffers.len() {
        buffers[ch]@
    } else {
        copies(buf_len, s_zero())
    }
}

/// A delay line of silence with room for a chunk.
fn silent_line<T: PrcFmt>(buf_len: usize, capacity: usize) -> (r: Vec<T>)
    ensures
        r@ == copies(buf_len as nat, s_zero::<T>()),
{
    let mut r: Vec<T> = Vec::with_capacity(capacity);
    let mut i: usize = 0;
    while i < buf_len
        invariant
            i <= buf_len,
            r@ == copies(i as nat, s_zero::<T>()),
        decreases buf_len - i,
    {
        r.push(T::of_int(0));
        i += 1;
        assert(r@ =~= copies(i as nat, s_zero::<T>()));
    }
    r
}

impl<T: PrcFmt> Declipper<T> {
    /// The rules that clips are found and repaired by.
    pub open spec fn settings(self) -> ClipSettings<T> {
        ClipSettings {
            threshold: self.clip_threshold,
            min_len: self.min_clip_len,
            max_len: self.max_clip_len,
            method: self.method,
            order: self.ar_order,
            ctx: self.ctx,
            gap_cap: self.ar_gap_cap,
        }
    }

    /// What holds of a declipper between calls.
    pub open spec fn wf(self) -> bool {
        &&& self.buffers@.len() == self.channels
        &&& self.is_process@ == process_mask(self.channels as int, self.process_channels@)
        &&& 2 <= self.ctx
        &&& 1 <= self.delay
        &&& self.ctx + self.delay <= usize::MAX
        &&& forall|ch: int|
            0 <= ch < self.channels ==> (#[trigger] self.buffers@[ch])@.len() == self.ctx
                + self.delay
        &&& self.repaired_to@.len() == self.channels
        &&& forall|ch: int|
            0 <= ch < self.channels ==> #[trigger] self.repaired_to@[ch] <= self.ctx + self.delay
        &&& self.scratch.has_room(self.ctx as int, self.ar_gap_cap as int)
        &&& 1 <= self.min_clip_len <= self.max_clip_len
        &&& 1 <= self.ar_order
    }

    /// Whether the parameters of `self` are those of `config`, with the lengths and the order
    /// raised to their minima.
    pub open spec fn follows(self, config: DeclipperParameters<T>) -> bool {
        &&& self.channels == config.channels
        &&& self.process_channels@ == listed(config.process_channels)
        &&& self.clip_threshold == config.clip_threshold
        &&& self.min_clip_len == max_int(config.min_clip_len as int, 1)
        &&& self.max_clip_len == max_int(config.max_clip_len as int, self.min_clip_len as int)
        &&& self.method == config.method
        &&& self.ar_order == max_int(config.ar_order as int, 1)
        &&& self.makeup == s_db_to_linear(config.s_makeup_gain_db())
        &&& !self.long_clip_warned
    }

    /// Whether `self` has the parameters and the geometry of `other`.
    pub open spec fn same_setup(self, other: Self) -> bool {
        &&& self.name == other.name
        &&& self.channels == other.channels
        &&& self.process_channels == other.process_channels
        &&& self.is_process == other.is_process
        &&& self.settings() == other.settings()
        &&& self.makeup == other.makeup
        &&& self.delay == other.delay
        &&& self.samplerate == other.samplerate
    }

    /// Creates a Declipper from a config struct. The delay lines are primed with silence.
    pub fn from_config(
        name: &str,
        config: DeclipperParameters<T>,
        samplerate: usize,
        chunksize: usize,
    ) -> (r: Self)
        requires
            sizes_fit(
                max_int(config.ar_order as int, 1),
                max_int(config.max_clip_len as int, max_int(config.min_clip_len as int, 1)),
                chunksize as int,
            ),
        ensures
            r.wf(),
            r.follows(config),
            r.name@ == name@,
            r.samplerate == samplerate,
            r.ctx == context_len(r.ar_order as int),
            r.delay == r.max_clip_len + r.ctx,
            r.ar_gap_cap == r.max_clip_len,
            forall|ch: int|
                0 <= ch < r.channels ==> (#[trigger] r.buffers@[ch])@ == copies(
                    (r.ctx + r.delay) as nat,
                    s_zero::<T>(),
                ),
            r.repaired_to@ == copies(r.channels as nat, 0usize),
    {
        let channels: usize = config.channels;
        let process_channels: Vec<usize> = config.process_channels();
        let is_process: Vec<bool> = build_is_process(channels, &process_channels);
        let min_clip_len: usize = if config.min_clip_len < 1 {
            1
        } else {
            config.min_clip_len
        };
        let max_clip_len: usize = if config.max_clip_len < min_clip_len {
            min_clip_len
        } else {
            config.max_clip_len
        };
        let ar_order: usize = if config.ar_order < 1 {
            1
        } else {
            config.ar_order
        };
        let makeup: T = db_to_linear(config.makeup_gain_db());
        let ctx: usize = if 4 * ar_order < 128 {
            128
        } else {
            4 * ar_order
        };
        let delay: usize = max_clip_len + ctx;
        let ar_gap_cap: usize = max_clip_len;
        let buf_len: usize = ctx + delay;
        let mut buffers: Vec<Vec<T>> = Vec::new();
        let mut ch: usize = 0;
        while ch < channels
            invariant
                ch <= channels,
                buf_len + chunksize <= usize::MAX,
                buffers@.len() == ch,
                forall|k: int|
                    0 <= k < ch ==> (#[trigger] buffers@[k])@ == copies(
                        buf_len as nat,
                        s_zero::<T>(),
                    ),
            decreases channels - ch,
        {
            buffers.push(silent_line(buf_len, buf_len + chunksize));
            ch += 1;
        }
        let zero: T = T::of_int(0);
        assert(ar_gap_cap * (ctx + 1) >= 0) by (nonlinear_arith);
        let scratch: ArScratch<T> = ArScratch {
            r: filled(ctx + 1, zero),
            a: filled(ctx + 1, zero),
            tmp: filled(ctx + 1, zero),
            rc: filled(ctx + 1, zero),
            band: filled(ar_gap_cap * (ctx + 1), zero),
            rhs: filled(ar_gap_cap, zero),
            x: filled(ar_gap_cap, zero),
        };
        Declipper {
            name: name.to_owned(),
            channels,
            process_channels,
            is_process,
            clip_threshold: config.clip_threshold,
            min_clip_len,
            max_clip_len,
            method: config.method,
            ar_order,
            makeup,
            ctx,
            delay,
            ar_gap_cap,
            samplerate,
            buffers,
            repaired_to: filled(channels, 0usize),
            scratch,
            long_clip_warned: false,
        }
    }

    /// The output latency introduced by the declipper, in samples.
    pub fn latency(&self) -> (r: usize)
        ensures
            r == self.delay,
    {
        self.delay
    }

    /// The name of this processor.
    pub fn name(&self) -> (r: &str)
        ensures
            r@ == self.name@,
    {
        self.name.as_str()
    }

    /// Runs one channel: takes `wave` into the delay line, repairs the clips that reach the emit
    /// region, and replaces `wave` by the delayed samples.
    fn process_channel(&mut self, ch: usize, wave: &mut Vec<T>) -> (r: Found)
        requires
            old(self).wf(),
            ch < old(self).channels,
            old(self).ctx + old(self).delay + old(wave)@.len() <= usize::MAX,
        ensures
            final(self).wf(),
            final(self).same_setup(*old(self)),
            final(self).long_clip_warned == old(self).long_clip_warned,
            ({
                let done = line_after(
                    old(self).buffers@[ch as int]@,
                    old(self).repaired_to@[ch as int] as int,
                    old(wave)@,
                    old(self).is_process@[ch as int],
                    old(self).settings(),
                );
                &&& final(wave)@ == emitted(
                    done.line,
                    old(self).ctx as int,
                    old(wave)@.len(),
                    old(self).makeup,
                )
                &&& final(self).buffers@[ch as int]@ == done.line.skip(old(wave)@.len() as int)
                &&& final(self).repaired_to@[ch as int] == repaired_after(
                    done.runs,
                    old(self).repaired_to@[ch as int] as int,
                    old(wave)@.len() as int,
                )
                &&& r.reports(done, old(self).repaired_to@[ch as int] as int)
            }),
            r.declipped <= old(self).delay + old(wave)@.len(),
            forall|k: int|
                0 <= k < old(self).channels && k != ch ==> #[trigger] final(self).buffers@[k]
                    == old(self).buffers@[k],
            forall|k: int|
                0 <= k < old(self).channels && k != ch ==> #[trigger] final(self).repaired_to@[k]
                    == old(self).repaired_to@[k],
    {
        let lb: usize = self.ctx;
        let frames: usize = wave.len();
        let makeup: T = self.makeup;
        let set: ClipSettings<T> = ClipSettings {
            threshold: self.clip_threshold,
            min_len: self.min_clip_len,
            max_len: self.max_clip_len,
            method: self.method,
            order: self.ar_order,
            ctx: self.ctx,
            gap_cap: self.ar_gap_cap,
        };
        let process: bool = self.is_process[ch];
        let to: usize = self.repaired_to[ch];
        let start: usize = if to < lb {
            lb
        } else {
            to
        };
        let buf: &mut Vec<T> = &mut self.buffers[ch];
        append(buf, wave.as_slice());
        let mut found: Found = Found { declipped: 0, long: None, repaired_to: to };
        if process {
            found = repair_clips(buf, start, lb + frames, to, &set, &mut self.scratch);
        }
        let ghost line = buf@;
        let mut k: usize = 0;
        while k < frames
            invariant
                k <= frames,
                frames == wave@.len(),
                lb + frames < buf@.len(),
                lb + frames <= usize::MAX,
                line == buf@,
                forall|j: int| 0 <= j < k ==> wave@[j] == line[lb + j].s_mul(makeup),
            decreases frames - k,
        {
            wave[k] = buf[lb + k].times(makeup);
            k += 1;
        }
        assert(wave@ =~= emitted(line, lb as int, frames as nat, makeup));
        drop_front(buf, frames);
        self.repaired_to[ch] = if found.repaired_to < frames {
            0
        } else {
            found.repaired_to - frames
        };
        found
    }

    /// Apply the declipper to a chunk of waveforms, modifying it in-place. Every channel is
    /// delayed by the latency to keep channels aligned; the selected process channels additionally
    /// have their clip runs repaired.
    pub fn process_chunk(&mut self, waveforms: &mut Vec<Vec<T>>) -> (r: DeclipReport)
        requires
            old(self).wf(),
            samples_held(old(self).buffers@, old(waveforms)@) <= usize::MAX,
        ensures
            final(self).wf(),
            final(self).same_setup(*old(self)),
            final(waveforms)@.len() == old(waveforms)@.len(),
            ({
                let n = min_int(old(self).channels as int, old(waveforms)@.len() as int);
                let set = old(self).settings();
                let mask = old(self).is_process@;
                let to = old(self).repaired_to@;
                let long = long_clip_in(old(self).buffers@, to, old(waveforms)@, mask, set, n);
                &&& forall|ch: int|
                    0 <= ch < n ==> (#[trigger] final(waveforms)@[ch])@ == emitted(
                        line_after(
                            old(self).buffers@[ch]@,
                            old(self).repaired_to@[ch] as int,
                            old(waveforms)@[ch]@,
                            mask[ch],
                            set,
                        ).line,
                        set.ctx as int,
                        old(waveforms)@[ch]@.len(),
                        old(self).makeup,
                    )
                &&& forall|ch: int|
                    0 <= ch < n ==> (#[trigger] final(self).buffers@[ch])@ == line_after(
                        old(self).buffers@[ch]@,
                        old(self).repaired_to@[ch] as int,
                        old(waveforms)@[ch]@,
                        mask[ch],
                        set,
                    ).line.skip(old(waveforms)@[ch]@.len() as int)
                &&& forall|ch: int|
                    0 <= ch < n ==> #[trigger] final(self).repaired_to@[ch] == repaired_after(
                        line_after(
                            old(self).buffers@[ch]@,
                            to[ch] as int,
                            old(waveforms)@[ch]@,
                            mask[ch],
                            set,
                        ).runs,
                        to[ch] as int,
                        old(waveforms)@[ch]@.len() as int,
                    )
                &&& forall|ch: int|
                    n <= ch < old(waveforms)@.len() ==> #[trigger] final(waveforms)@[ch] == old(
                        waveforms,
                    )@[ch]
                &&& forall|ch: int|
                    n <= ch < old(self).channels ==> #[trigger] final(self).buffers@[ch] == old(
                        self,
                    ).buffers@[ch]
                &&& forall|ch: int|
                    n <= ch < old(self).channels ==> #[trigger] final(self).repaired_to@[ch]
                        == to[ch]
                &&& r.declipped == declipped_in(
                    old(self).buffers@,
                    to,
                    old(waveforms)@,
                    mask,
                    set,
                    n,
                )
                &&& r.long_clip is Some == (long is Some && !old(self).long_clip_warned)
                &&& r.long_clip is Some ==> r.long_clip->0 == long->0
                &&& final(self).long_clip_warned == (old(self).long_clip_warned || long is Some)
            }),
    {
        let n: usize = if self.channels < waveforms.len() {
            self.channels
        } else {
            waveforms.len()
        };
        let ghost set = self.settings();
        let ghost mask = self.is_process@;
        let mut declipped: usize = 0;
        let mut long_clip_seen: Option<usize> = None;
        let mut ch: usize = 0;
        while ch < n
            invariant
                ch <= n,
                n == min_int(old(self).channels as int, old(waveforms)@.len() as int),
                samples_held(old(self).buffers@, old(waveforms)@) <= usize::MAX,
                old(self).wf(),
                self.wf(),
                self.same_setup(*old(self)),
                self.long_clip_warned == old(self).long_clip_warned,
                set == old(self).settings(),
                mask == old(self).is_process@,
                waveforms@.len() == old(waveforms)@.len(),
                forall|k: int|
                    0 <= k < ch ==> (#[trigger] waveforms@[k])@ == emitted(
                        line_after(
                            old(self).buffers@[k]@,
                            old(self).repaired_to@[k] as int,
                            old(waveforms)@[k]@,
                            mask[k],
                            set,
                        ).line,
                        set.ctx as int,
                        old(waveforms)@[k]@.len(),
                        old(self).makeup,
                    ),
                forall|k: int|
                    0 <= k < ch ==> (#[trigger] self.buffers@[k])@ == line_after(
                        old(self).buffers@[k]@,
                        old(self).repaired_to@[k] as int,
                        old(waveforms)@[k]@,
                        mask[k],
                        set,
                    ).line.skip(old(waveforms)@[k]@.len() as int),
                forall|k: int|
                    0 <= k < ch ==> #[trigger] self.repaired_to@[k] == repaired_after(
                        line_after(
                            old(self).buffers@[k]@,
                            old(self).repaired_to@[k] as int,
                            old(waveforms)@[k]@,
                            mask[k],
                            set,
                        ).runs,
                        old(self).repaired_to@[k] as int,
                        old(waveforms)@[k]@.len() as int,
                    ),
                forall|k: int|
                    ch <= k < old(waveforms)@.len() ==> #[trigger] waveforms@[k] == old(
                        waveforms,
                    )@[k],
                forall|k: int|
                    ch <= k < old(self).channels ==> #[trigger] self.buffers@[k] == old(
                        self,
                    ).buffers@[k],
                forall|k: int|
                    ch <= k < old(self).channels ==> #[trigger] self.repaired_to@[k] == old(
                        self,
                    ).repaired_to@[k],
                declipped == declipped_in(
                    old(self).buffers@,
                    old(self).repaired_to@,
                    old(waveforms)@,
                    mask,
                    set,
                    ch as int,
                ),
                declipped <= samples_in(old(self).buffers@, old(waveforms)@, ch as int),
                ({
                    let long = long_clip_in(
                        old(self).buffers@,
                        old(self).repaired_to@,
                        old(waveforms)@,
                        mask,
                        set,
                        ch as int,
                    );
                    &&& long_clip_seen is Some == long is Some
                    &&& long_clip_seen is Some ==> long_clip_seen->0 == long->0
                }),
            decreases n - ch,
        {
            proof {
                lemma_samples_in_monotonic(
                    old(self).buffers@,
                    old(waveforms)@,
                    ch + 1,
                    n as int,
                );
                lemma_samples_in_monotonic(old(self).buffers@, old(waveforms)@, 0, ch as int);
                assert(self.buffers@[ch as int] == old(self).buffers@[ch as int]);
                assert(waveforms@[ch as int] == old(waveforms)@[ch as int]);
            }
            let found: Found = self.process_channel(ch, &mut waveforms[ch]);
            declipped += found.declipped;
            if found.long.is_some() {
                long_clip_seen = found.long;
            }
            ch += 1;
        }
        let mut long_clip: Option<usize> = None;
        if long_clip_seen.is_some() && !self.long_clip_warned {
            long_clip = long_clip_seen;
            self.long_clip_warned = true;
        }
        DeclipReport { declipped, long_clip }
    }

    /// Takes over new parameters. The delay and the context length stay, so the output continues
    /// without a gap; channels that are added start with silence.
    pub fn update_parameters(&mut self, config: DeclipperParameters<T>)
        requires
            old(self).wf(),
        ensures
            final(self).wf(),
            final(self).follows(config),
            final(self).name == old(self).name,
            final(self).samplerate == old(self).samplerate,
            final(self).ctx == old(self).ctx,
            final(self).delay == old(self).delay,
            final(self).ar_gap_cap == old(self).ar_gap_cap,
            forall|ch: int|
                0 <= ch < config.channels ==> (#[trigger] final(self).buffers@[ch])@
                    == line_kept_or_silent(
                    old(self).buffers@,
                    ch,
                    (old(self).ctx + old(self).delay) as nat,
                ),
            forall|ch: int|
                0 <= ch < config.channels ==> #[trigger] final(self).repaired_to@[ch] == if ch
                    < old(self).channels {
                    old(self).repaired_to@[ch]
                } else {
                    0
                },
    {
        let channels: usize = config.channels;
        let process_channels: Vec<usize> = config.process_channels();
        self.is_process = build_is_process(channels, &process_channels);
        let buf_len: usize = self.ctx + self.delay;
        self.buffers.truncate(channels);
        self.repaired_to.truncate(channels);
        while self.buffers.len() < channels
            invariant
                self.buffers@.len() <= channels,
                buf_len == old(self).ctx + old(self).delay,
                *self == (Declipper {
                    buffers: self.buffers,
                    repaired_to: self.repaired_to,
                    is_process: self.is_process,
                    ..*old(self)
                }),
                self.is_process@ == process_mask(channels as int, process_channels@),
                forall|k: int|
                    0 <= k < self.buffers@.len() ==> (#[trigger] self.buffers@[k])@
                        == line_kept_or_silent(old(self).buffers@, k, buf_len as nat),
                self.repaired_to@.len() == self.buffers@.len(),
                old(self).wf(),
                forall|k: int|
                    0 <= k < self.repaired_to@.len() ==> #[trigger] self.repaired_to@[k] == if k
                        < old(self).channels {
                        old(self).repaired_to@[k]
                    } else {
                        0
                    },
                self.buffers@.len() >= min_int(old(self).buffers@.len() as int, channels as int),
            decreases channels - self.buffers@.len(),
        {
            let line: Vec<T> = silent_line(buf_len, buf_len);
            self.buffers.push(line);
            self.repaired_to.push(0);
        }
        self.channels = channels;
        self.process_channels = process_channels;
        self.clip_threshold = config.clip_threshold;
        self.min_clip_len = if config.min_clip_len < 1 {
            1
        } else {
            config.min_clip_len
        };
        self.max_clip_len = if config.max_clip_len < self.min_clip_len {
            self.min_clip_len
        } else {
            config.max_clip_len
        };
        self.method = config.method;
        self.ar_order = if config.ar_order < 1 {
            1
        } else {
            config.ar_order
        };
        self.makeup = db_to_linear(config.makeup_gain_db());
        self.long_clip_warned = false;
    }
}

/// What the first failing test of a declipper's parameters says, if one fails.
pub open spec fn declipper_error<T: PrcFmt>(config: DeclipperParameters<T>) -> Option<
    ConfigError<T>,
> {
    let missing = first_missing_channel(listed(config.process_channels), config.channels, 0);
    if missing is Some {
        Some(
            ConfigError::InvalidProcessChannel { channel: missing->0, channels: config.channels },
        )
    } else if config.clip_threshold.s_le(s_zero()) || s_one::<T>().s_lt(config.clip_threshold) {
        Some(ConfigError::ClipThresholdOutOfRange)
    } else if config.min_clip_len < 1 {
        Some(ConfigError::MinClipLenZero)
    } else if config.max_clip_len < config.min_clip_len {
        Some(ConfigError::MaxClipLenBelowMin)
    } else if config.ar_order < 1 {
        Some(ConfigError::ArOrderZero)
    } else {
        None
    }
}

/// Validate the declipper config.
pub fn validate_declipper<T: PrcFmt>(config: &DeclipperParameters<T>) -> (r: Result<
    (),
    ConfigError<T>,
>)
    ensures
        match declipper_error(*config) {
            Some(e) => r == Err::<(), ConfigError<T>>(e),
            None => r is Ok,
        },
{
    let process_channels: Vec<usize> = config.process_channels();
    if let Some(channel) = missing_channel(&process_channels, config.channels) {
        return Err(ConfigError::InvalidProcessChannel { channel, channels: config.channels });
    }
    let threshold: T = config.clip_threshold;
    if threshold.le(T::of_int(0)) || T::of_int(1).lt(threshold) {
        return Err(ConfigError::ClipThresholdOutOfRange);
    }
    if config.min_clip_len < 1 {
        return Err(ConfigError::MinClipLenZero);
    }
    if config.max_clip_len < config.min_clip_len {
        return Err(ConfigError::MaxClipLenBelowMin);
    }
    if config.ar_order < 1 {
        return Err(ConfigError::ArOrderZero);
    }
    Ok(())
}

// ------------------------------- Laws -------------------------------

/// A chunk of one channel, with the parameters that are in force while it is processed.
pub struct Chunk<T> {
    pub wave: Seq<T>,
    /// Whether the channel is repaired.
    pub process: bool,
    pub set: ClipSettings<T>,
    pub makeup: T,
}

/// The samples of a sequence of chunks, one after the other.
pub open spec fn joined<T>(chunks: Seq<Chunk<T>>) -> Seq<T>
    decreases chunks.len(),
{
    if chunks.len() == 0 {
        Seq::empty()
    } else {
        joined(chunks.drop_last()) + chunks.last().wave
    }
}

/// What one channel makes of a sequence of chunks.
pub struct Streamed<T> {
    /// Everything it emits.
    pub out: Seq<T>,
    /// The delay line afterwards.
    pub line: Seq<T>,
    /// How far that line has been repaired.
    pub to: int,
    /// Every run that was repaired. Positions count from the oldest sample that the delay line
    /// held at the start.
    pub runs: Seq<(int, int)>,
}

/// Runs, counted from `by` samples earlier.
pub open spec fn shifted(runs: Seq<(int, int)>, by: int) -> Seq<(int, int)> {
    Seq::new(runs.len(), |a: int| (runs[a].0 + by, runs[a].1 + by))
}

/// What one channel makes of a sequence of chunks, starting from the delay line `buf`, which has
/// been repaired up to `to`.
pub open spec fn streamed<T: PrcFmt>(buf: Seq<T>, to: int, chunks: Seq<Chunk<T>>) -> Streamed<T>
    decreases chunks.len(),
{
    if chunks.len() == 0 {
        Streamed { out: Seq::empty(), line: buf, to, runs: Seq::empty() }
    } else {
        let before = streamed(buf, to, chunks.drop_last());
        let c = chunks.last();
        let done = line_after(before.line, before.to, c.wave, c.process, c.set);
        Streamed {
            out: before.out + emitted(done.line, c.set.ctx as int, c.wave.len(), c.makeup),
            line: done.line.skip(c.wave.len() as int),
            to: repaired_after(done.runs, before.to, c.wave.len() as int),
            runs: before.runs + shifted(done.runs, joined(chunks.drop_last()).len() as int),
        }
    }
}

/// Whether all chunks are processed with the same context length, as those of one declipper are:
/// it does not change with the parameters.
pub open spec fn same_context<T>(chunks: Seq<Chunk<T>>, ctx: int) -> bool {
    forall|i: int| 0 <= i < chunks.len() ==> (#[trigger] chunks[i]).set.ctx == ctx
}

/// The context length is the same for the first chunks and for the last.
proof fn lemma_same_context<T>(chunks: Seq<Chunk<T>>, ctx: int)
    requires
        same_context(chunks, ctx),
        chunks.len() > 0,
    ensures
        same_context(chunks.drop_last(), ctx),
        chunks.last().set.ctx == ctx,
{
    let first = chunks.drop_last();
    assert forall|i: int| 0 <= i < first.len() implies (#[trigger] first[i]).set.ctx == ctx by {
        assert(first[i] == chunks[i]);
    }
    assert(chunks[chunks.len() - 1].set.ctx == ctx);
}

/// Over any sequence of chunks, with whatever parameters, the repaired runs lie one behind the
/// other, and none starts before the point up to which the signal had been repaired.
pub proof fn lemma_runs_are_in_order<T: PrcFmt>(
    buf: Seq<T>,
    to: int,
    chunks: Seq<Chunk<T>>,
    ctx: int,
)
    requires
        1 <= ctx < buf.len(),
        same_context(chunks, ctx),
        0 <= to <= buf.len(),
    ensures
        ({
            let after = streamed(buf, to, chunks);
            let gone = joined(chunks).len() as int;
            &&& in_order(after.runs)
            &&& forall|a: int|
                0 <= a < after.runs.len() ==> {
                    &&& max_int(ctx, to) <= (#[trigger] after.runs[a]).0
                    &&& after.runs[a].1 <= after.to + gone
                }
            &&& after.line.len() == buf.len()
            &&& after.out.len() == gone
            &&& 0 <= after.to <= buf.len()
            &&& to <= after.to + gone
        }),
    decreases chunks.len(),
{
    if chunks.len() > 0 {
        lemma_same_context(chunks, ctx);
        let first = chunks.drop_last();
        lemma_runs_are_in_order(buf, to, first, ctx);
        let before = streamed(buf, to, first);
        let c = chunks.last();
        lemma_chunk_repairs_behind(before.line, before.to, c.wave, c.process, c.set);
        let done = line_after(before.line, before.to, c.wave, c.process, c.set);
        let g = joined(first).len() as int;
        lemma_runs_join(before.runs, done.runs, g, max_int(ctx, before.to));
        let after = streamed(buf, to, chunks);
        assert forall|a: int| 0 <= a < after.runs.len() implies {
            &&& max_int(ctx, to) <= (#[trigger] after.runs[a]).0
            &&& after.runs[a].1 <= after.to + joined(chunks).len()
        } by {
            if a < before.runs.len() {
                assert(after.runs[a] == before.runs[a]);
            } else {
                let own = done.runs[a - before.runs.len()];
                assert(after.runs[a] == (own.0 + g, own.1 + g));
            }
        }
    }
}

/// What one chunk has repaired lies in order, behind the point up to which the line had been
/// repaired, and inside the line. Each run has a length between the limits, and a sample that
/// belongs to none is as it was.
pub proof fn lemma_chunk_repairs_behind<T: PrcFmt>(
    buf: Seq<T>,
    to: int,
    wave: Seq<T>,
    process: bool,
    set: ClipSettings<T>,
)
    requires
        1 <= set.ctx < buf.len(),
        0 <= to <= buf.len(),
    ensures
        ({
            let done = line_after(buf, to, wave, process, set);
            &&& done.line.len() == buf.len() + wave.len()
            &&& in_order(done.runs)
            &&& forall|a: int|
                0 <= a < done.runs.len() ==> {
                    &&& max_int(set.ctx as int, to) <= (#[trigger] done.runs[a]).0
                    &&& set.min_len <= done.runs[a].1 - done.runs[a].0 <= set.max_len
                    &&& done.runs[a].1 <= repaired_up_to(done.runs, to)
                }
            &&& to <= repaired_up_to(done.runs, to) <= buf.len() + wave.len()
            &&& forall|j: int|
                0 <= j < buf.len() + wave.len() && !in_runs(done.runs, j)
                    ==> #[trigger] done.line[j] == (buf + wave)[j]
        }),
{
    let done = line_after(buf, to, wave, process, set);
    if process {
        lemma_scan_goes_forward(
            buf + wave,
            max_int(set.ctx as int, to),
            set.ctx + wave.len(),
            set,
            Seq::empty(),
            None,
        );
        assert forall|a: int| 0 <= a < done.runs.len() implies (#[trigger] done.runs[a]).1
            <= repaired_up_to(done.runs, to) by {
            if a < done.runs.len() - 1 {
                assert(done.runs[a].1 <= done.runs[done.runs.len() - 1].0);
            }
        }
        if done.runs.len() > 0 {
            assert(done.runs[done.runs.len() - 1].0 >= to);
        }
    }
}

/// Runs in order, followed by others in order that start behind them, are in order.
proof fn lemma_runs_join(earlier: Seq<(int, int)>, later: Seq<(int, int)>, by: int, from: int)
    requires
        in_order(earlier),
        in_order(later),
        forall|a: int| 0 <= a < earlier.len() ==> (#[trigger] earlier[a]).1 <= from + by,
        forall|a: int| 0 <= a < later.len() ==> from <= (#[trigger] later[a]).0,
    ensures
        in_order(earlier + shifted(later, by)),
{
    let both = earlier + shifted(later, by);
    assert forall|a: int| 0 <= a < both.len() implies (#[trigger] both[a]).0 < both[a].1 by {
        if a < earlier.len() {
            assert(both[a] == earlier[a]);
        } else {
            assert(later[a - earlier.len()].0 < later[a - earlier.len()].1);
        }
    }
    assert forall|a: int, b: int| 0 <= a < b < both.len() implies (#[trigger] both[a]).1 <= (
    #[trigger] both[b]).0 by {
        if b < earlier.len() {
            assert(earlier[a].1 <= earlier[b].0);
        } else if a < earlier.len() {
            assert(earlier[a].1 <= from + by);
            assert(from <= later[b - earlier.len()].0);
        } else {
            assert(later[a - earlier.len()].1 <= later[b - earlier.len()].0);
        }
    }
}

/// Each clip is repaired exactly once: over any sequence of chunks, also where the parameters change
/// between them, no sample belongs to two of the repaired runs.
pub proof fn lemma_no_sample_is_repaired_twice<T: PrcFmt>(
    buf: Seq<T>,
    to: int,
    chunks: Seq<Chunk<T>>,
    ctx: int,
    a: int,
    b: int,
    p: int,
)
    requires
        1 <= ctx < buf.len(),
        same_context(chunks, ctx),
        0 <= to <= buf.len(),
        0 <= a < streamed(buf, to, chunks).runs.len(),
        0 <= b < streamed(buf, to, chunks).runs.len(),
        ({
            let runs = streamed(buf, to, chunks).runs;
            runs[a].0 <= p < runs[a].1 && runs[b].0 <= p < runs[b].1
        }),
    ensures
        a == b,
{
    lemma_runs_are_in_order(buf, to, chunks, ctx);
    let runs = streamed(buf, to, chunks).runs;
    if a < b {
        assert(runs[a].1 <= runs[b].0);
    } else if b < a {
        assert(runs[b].1 <= runs[a].0);
    }
}

/// A sample that belongs to no repaired run is never altered: of all that a channel is given, it
/// waits in the delay line as it came, or has been emitted as it came, scaled by the makeup gain of
/// a chunk.
pub proof fn lemma_unrepaired_samples_pass<T: PrcFmt>(
    buf: Seq<T>,
    to: int,
    chunks: Seq<Chunk<T>>,
    ctx: int,
    p: int,
)
    requires
        1 <= ctx < buf.len(),
        same_context(chunks, ctx),
        0 <= to <= buf.len(),
        0 <= p < buf.len() + joined(chunks).len(),
        !in_runs(streamed(buf, to, chunks).runs, p),
    ensures
        ({
            let after = streamed(buf, to, chunks);
            let given = (buf + joined(chunks))[p];
            let gone = joined(chunks).len() as int;
            &&& gone <= p ==> after.line[p - gone] == given
            &&& ctx <= p < gone + ctx ==> exists|i: int|
                0 <= i < chunks.len() && after.out[p - ctx] == given.s_mul(
                    (#[trigger] chunks[i]).makeup,
                )
        }),
    decreases chunks.len(),
{
    if chunks.len() > 0 {
        lemma_same_context(chunks, ctx);
        let first = chunks.drop_last();
        let before = streamed(buf, to, first);
        let after = streamed(buf, to, chunks);
        let c = chunks.last();
        let g = joined(first).len() as int;
        let given = (buf + joined(chunks))[p];
        lemma_runs_are_in_order(buf, to, first, ctx);
        lemma_chunk_repairs_behind(before.line, before.to, c.wave, c.process, c.set);
        let done = line_after(before.line, before.to, c.wave, c.process, c.set);
        if in_runs(before.runs, p) {
            let a = choose|a: int|
                0 <= a < before.runs.len() && (#[trigger] before.runs[a]).0 <= p
                    < before.runs[a].1;
            assert(after.runs[a] == before.runs[a]);
        }
        if in_runs(done.runs, p - g) {
            let a = choose|a: int|
                0 <= a < done.runs.len() && (#[trigger] done.runs[a]).0 <= p - g
                    < done.runs[a].1;
            assert(after.runs[before.runs.len() + a] == (done.runs[a].0 + g, done.runs[a].1 + g));
        }
        if p < buf.len() + g {
            lemma_unrepaired_samples_pass(buf, to, first, ctx, p);
            if ctx <= p < g + ctx {
                let i = choose|i: int|
                    0 <= i < first.len() && before.out[p - ctx] == given.s_mul(
                        (#[trigger] first[i]).makeup,
                    );
                assert(chunks[i] == first[i]);
            }
        }
        if g <= p {
            assert((before.line + c.wave)[p - g] == given);
            assert(done.line[p - g] == (before.line + c.wave)[p - g]);
            assert(chunks[chunks.len() - 1] == c);
        }
    }
}

/// Nothing is repaired in a chunk where every sample of the emit region is below the threshold.
pub proof fn lemma_quiet_chunk_is_kept<T: PrcFmt>(
    buf: Seq<T>,
    to: int,
    wave: Seq<T>,
    process: bool,
    set: ClipSettings<T>,
)
    requires
        process ==> forall|j: int|
            set.ctx <= j < set.ctx + wave.len() ==> (#[trigger] (buf + wave)[j]).s_abs().s_lt(
                set.threshold,
            ),
    ensures
        line_after(buf, to, wave, process, set) == (Scanned {
            line: buf + wave,
            runs: Seq::empty(),
            long: None,
        }),
{
    if process {
        lemma_scan_quiet(
            buf + wave,
            max_int(set.ctx as int, to),
            set.ctx + wave.len(),
            set,
            Seq::empty(),
            None,
        );
    }
}

/// Whether all chunks are processed with the same makeup gain and, where they are repaired, with
/// thresholds that no sample of `pending` reaches.
pub open spec fn all_quiet<T: PrcFmt>(
    chunks: Seq<Chunk<T>>,
    pending: Seq<T>,
    makeup: T,
) -> bool {
    forall|i: int|
        0 <= i < chunks.len() ==> {
            &&& (#[trigger] chunks[i]).makeup == makeup
            &&& chunks[i].process ==> forall|k: int|
                0 <= k < pending.len() ==> (#[trigger] pending[k]).s_abs().s_lt(
                    chunks[i].set.threshold,
                )
        }
}

/// What is quiet for all chunks is quiet for the first of them.
proof fn lemma_first_chunks_are_quiet<T: PrcFmt>(
    chunks: Seq<Chunk<T>>,
    pending: Seq<T>,
    early: Seq<T>,
    makeup: T,
)
    requires
        all_quiet(chunks, pending, makeup),
        chunks.len() > 0,
        early.len() <= pending.len(),
        early == pending.take(early.len() as int),
    ensures
        all_quiet(chunks.drop_last(), early, makeup),
{
    let some = chunks.drop_last();
    assert forall|i: int| 0 <= i < some.len() implies {
        &&& (#[trigger] some[i]).makeup == makeup
        &&& some[i].process ==> forall|k: int|
            0 <= k < early.len() ==> (#[trigger] early[k]).s_abs().s_lt(some[i].set.threshold)
    } by {
        assert(some[i] == chunks[i]);
        assert forall|k: int| some[i].process && 0 <= k < early.len() implies (
        #[trigger] early[k]).s_abs().s_lt(some[i].set.threshold) by {
            assert(early[k] == pending[k]);
        }
    }
}

/// What a delay line with `ctx` samples of context gives for the signal `all`, scaled.
pub open spec fn delayed<T: PrcFmt>(buf: Seq<T>, all: Seq<T>, ctx: int, makeup: T) -> Seq<T> {
    Seq::new(all.len(), |k: int| (buf.skip(ctx) + all)[k].s_mul(makeup))
}

/// A delay line that takes in one more chunk goes on as a delay line.
proof fn lemma_delay_goes_on<T: PrcFmt>(
    buf: Seq<T>,
    first: Seq<T>,
    wave: Seq<T>,
    ctx: int,
    makeup: T,
)
    requires
        0 <= ctx <= buf.len(),
    ensures
        ({
            let line = (buf + first).skip(first.len() as int) + wave;
            &&& line == (buf + (first + wave)).skip(first.len() as int)
            &&& line.skip(wave.len() as int) == (buf + (first + wave)).skip(
                (first + wave).len() as int,
            )
            &&& forall|j: int|
                ctx <= j < ctx + wave.len() ==> #[trigger] line[j] == (buf.skip(ctx) + (first
                    + wave))[first.len() + j - ctx]
            &&& delayed(buf, first, ctx, makeup) + emitted(line, ctx, wave.len(), makeup)
                == delayed(buf, first + wave, ctx, makeup)
        }),
{
    let all = first + wave;
    let line = (buf + first).skip(first.len() as int) + wave;
    assert(line =~= (buf + all).skip(first.len() as int));
    assert(line.skip(wave.len() as int) =~= (buf + all).skip(all.len() as int));
    let early = buf.skip(ctx) + first;
    let pending = buf.skip(ctx) + all;
    assert forall|k: int| 0 <= k < first.len() implies #[trigger] early[k] == pending[k] by {
    }
    assert(delayed(buf, first, ctx, makeup) + emitted(line, ctx, wave.len(), makeup) =~= delayed(
        buf,
        all,
        ctx,
        makeup,
    ));
}

/// Without clips the declipper is a delay line: however a signal is cut into chunks, what comes
/// out is what was pending followed by the signal, scaled by the makeup gain, unless a sample
/// reaches the threshold. Nothing is repaired. On a channel that is not processed this holds of
/// every signal.
pub proof fn lemma_identity_without_clips<T: PrcFmt>(
    buf: Seq<T>,
    to: int,
    chunks: Seq<Chunk<T>>,
    ctx: int,
    makeup: T,
)
    requires
        0 <= ctx <= buf.len(),
        same_context(chunks, ctx),
        all_quiet(chunks, buf.skip(ctx) + joined(chunks), makeup),
    ensures
        streamed(buf, to, chunks).out == delayed(buf, joined(chunks), ctx, makeup),
        streamed(buf, to, chunks).line == (buf + joined(chunks)).skip(joined(chunks).len() as int),
        streamed(buf, to, chunks).runs == Seq::<(int, int)>::empty(),
    decreases chunks.len(),
{
    let all = joined(chunks);
    let out = streamed(buf, to, chunks);
    if chunks.len() == 0 {
        assert((buf + all).skip(0) =~= buf);
        assert(out.out =~= delayed(buf, all, ctx, makeup));
    } else {
        lemma_same_context(chunks, ctx);
        let first = joined(chunks.drop_last());
        let c = chunks.last();
        let pending = buf.skip(ctx) + all;
        let early = buf.skip(ctx) + first;
        assert(early =~= pending.take(early.len() as int));
        lemma_first_chunks_are_quiet(chunks, pending, early, makeup);
        lemma_identity_without_clips(buf, to, chunks.drop_last(), ctx, makeup);
        lemma_delay_goes_on(buf, first, c.wave, ctx, makeup);
        let before = streamed(buf, to, chunks.drop_last());
        let line = before.line + c.wave;
        assert(chunks[chunks.len() - 1] == c);
        assert forall|j: int| c.process && ctx <= j < ctx + c.wave.len() implies (
        #[trigger] line[j]).s_abs().s_lt(c.set.threshold) by {
            assert(line[j] == pending[first.len() + j - ctx]);
        }
        lemma_quiet_chunk_is_kept(before.line, before.to, c.wave, c.process, c.set);
        let none = Seq::<(int, int)>::empty();
        assert(none + shifted(none, first.len() as int) =~= none);
    }
}

/// Whether every chunk is processed by `dec` as it stands, on channel `ch`.
pub open spec fn processed_by<T: PrcFmt>(
    chunks: Seq<Chunk<T>>,
    dec: Declipper<T>,
    ch: int,
) -> bool {
    forall|i: int|
        0 <= i < chunks.len() ==> {
            &&& (#[trigger] chunks[i]).process == dec.is_process@[ch]
            &&& chunks[i].set == dec.settings()
            &&& chunks[i].makeup == dec.makeup
        }
}

/// From the state that a new declipper is in, a signal below the threshold comes out delayed by
/// exactly the latency, behind that many samples of silence, and nothing is repaired.
pub proof fn lemma_fresh_stream_is_delayed<T: PrcFmt>(
    dec: Declipper<T>,
    ch: int,
    chunks: Seq<Chunk<T>>,
    k: int,
)
    requires
        dec.wf(),
        0 <= ch < dec.channels,
        processed_by(chunks, dec, ch),
        dec.buffers@[ch]@ == copies((dec.ctx + dec.delay) as nat, s_zero::<T>()),
        dec.is_process@[ch] ==> {
            &&& s_zero::<T>().s_abs().s_lt(dec.clip_threshold)
            &&& forall|j: int|
                0 <= j < joined(chunks).len() ==> (#[trigger] joined(chunks)[j]).s_abs().s_lt(
                    dec.clip_threshold,
                )
        },
        0 <= k < joined(chunks).len(),
    ensures
        ({
            let after = streamed(dec.buffers@[ch]@, dec.repaired_to@[ch] as int, chunks);
            &&& after.runs == Seq::<(int, int)>::empty()
            &&& after.out.len() == joined(chunks).len()
            &&& after.out[k] == (if k < dec.delay {
                s_zero::<T>()
            } else {
                joined(chunks)[k - dec.delay]
            }).s_mul(dec.makeup)
        }),
{
    let buf = dec.buffers@[ch]@;
    let pending = buf.skip(dec.ctx as int) + joined(chunks);
    assert forall|j: int| dec.is_process@[ch] && 0 <= j < pending.len() implies (
    #[trigger] pending[j]).s_abs().s_lt(dec.clip_threshold) by {
        if j >= dec.delay {
            assert(pending[j] == joined(chunks)[j - dec.delay]);
        }
    }
    lemma_identity_without_clips(
        buf,
        dec.repaired_to@[ch] as int,
        chunks,
        dec.ctx as int,
        dec.makeup,
    );
}

/// In fixed point the silence in front is zero, whatever the makeup gain: the first `delay` samples
/// that come out are zero, and every later one is the sample that came in `delay` samples earlier
/// times the makeup gain.
pub proof fn lemma_fresh_stream_starts_with_zeros(
    dec: Declipper<Fixed>,
    ch: int,
    chunks: Seq<Chunk<Fixed>>,
    k: int,
)
    requires
        dec.wf(),
        0 <= ch < dec.channels,
        processed_by(chunks, dec, ch),
        dec.buffers@[ch]@ == copies((dec.ctx + dec.delay) as nat, s_zero::<Fixed>()),
        dec.is_process@[ch] ==> {
            &&& 0 < dec.clip_threshold.raw
            &&& forall|j: int|
                0 <= j < joined(chunks).len() ==> (#[trigger] joined(chunks)[j]).s_abs().s_lt(
                    dec.clip_threshold,
                )
        },
        0 <= k < joined(chunks).len(),
    ensures
        ({
            let after = streamed(dec.buffers@[ch]@, dec.repaired_to@[ch] as int, chunks);
            &&& after.runs == Seq::<(int, int)>::empty()
            &&& after.out.len() == joined(chunks).len()
            &&& after.out[k] == if k < dec.delay {
                s_zero::<Fixed>()
            } else {
                joined(chunks)[k - dec.delay].s_mul(dec.makeup)
            }
        }),
{
    lemma_fresh_stream_is_delayed(dec, ch, chunks, k);
    lemma_zero_product(dec.makeup);
}

/// Silence stays silence: a chunk of it, behind a delay line of it, comes out as it is but for the
/// makeup gain (zero times it, which in fixed point is zero), leaves the line silent, and nothing is
/// repaired.
pub proof fn lemma_silence_stays_silent<T: PrcFmt>(
    len: nat,
    frames: nat,
    to: int,
    process: bool,
    set: ClipSettings<T>,
    makeup: T,
)
    requires
        set.ctx <= len,
        s_zero::<T>().s_abs().s_lt(set.threshold),
    ensures
        ({
            let silence = copies(frames, s_zero::<T>());
            let done = line_after(copies(len, s_zero()), to, silence, process, set);
            &&& emitted(done.line, set.ctx as int, frames, makeup) == copies(
                frames,
                s_zero::<T>().s_mul(makeup),
            )
            &&& done.line.skip(frames as int) == copies(len, s_zero::<T>())
            &&& done.runs == Seq::<(int, int)>::empty()
            &&& done.long is None
        }),
{
    let line = copies(len, s_zero::<T>()) + copies(frames, s_zero::<T>());
    lemma_quiet_chunk_is_kept(
        copies(len, s_zero::<T>()),
        to,
        copies(frames, s_zero::<T>()),
        process,
        set,
    );
    assert(emitted(line, set.ctx as int, frames, makeup) =~= copies(
        frames,
        s_zero::<T>().s_mul(makeup),
    ));
    assert(line.skip(frames as int) =~= copies(len, s_zero::<T>()));
}

/// A chunk below the threshold, behind delay lines that are below it, has no sample repaired in
/// any channel.
pub proof fn lemma_nothing_is_counted_without_clips<T: PrcFmt>(
    dec: Declipper<T>,
    waves: Seq<Vec<T>>,
    n: int,
)
    requires
        dec.wf(),
        0 <= n <= dec.channels,
        n <= waves.len(),
        forall|ch: int, k: int|
            #![trigger (dec.buffers@[ch]@ + waves[ch]@)[k]]
            0 <= ch < n && dec.is_process@[ch] && dec.ctx <= k < dec.ctx + waves[ch]@.len() ==> (
            dec.buffers@[ch]@ + waves[ch]@)[k].s_abs().s_lt(dec.clip_threshold),
    ensures
        declipped_in(
            dec.buffers@,
            dec.repaired_to@,
            waves,
            dec.is_process@,
            dec.settings(),
            n,
        ) == 0,
        long_clip_in(
            dec.buffers@,
            dec.repaired_to@,
            waves,
            dec.is_process@,
            dec.settings(),
            n,
        ) is None,
    decreases n,
{
    if n > 0 {
        lemma_nothing_is_counted_without_clips(dec, waves, n - 1);
        lemma_quiet_chunk_is_kept(
            dec.buffers@[n - 1]@,
            dec.repaired_to@[n - 1] as int,
            waves[n - 1]@,
            dec.is_process@[n - 1],
            dec.settings(),
        );
    }
}

/// A sample below the threshold is never altered: it leaves the delay line as it came in, scaled by
/// the makeup gain, whatever is repaired around it.
pub proof fn lemma_quiet_samples_pass<T: PrcFmt>(
    buf: Seq<T>,
    to: int,
    wave: Seq<T>,
    process: bool,
    set: ClipSettings<T>,
    makeup: T,
    k: int,
)
    requires
        1 <= set.ctx <= buf.len(),
        0 <= k < wave.len(),
        quiet((buf + wave)[set.ctx + k], set.threshold),
    ensures
        emitted(line_after(buf, to, wave, process, set).line, set.ctx as int, wave.len(), makeup)[k]
            == (buf + wave)[set.ctx + k].s_mul(makeup),
{
    lemma_scan_touches_only_loud(
        buf + wave,
        max_int(set.ctx as int, to),
        set.ctx + wave.len(),
        set,
        Seq::empty(),
        None,
    );
}

/// The trailing context of a clip has arrived when the clip is repaired: behind every run that
/// starts in the emit region and is not too long for the delay there are more samples than the
/// context asks for, and before it there are as many.
pub proof fn lemma_trailing_context_has_arrived<T: PrcFmt>(
    dec: Declipper<T>,
    ch: int,
    wave: Seq<T>,
    s: int,
    e: int,
)
    requires
        dec.wf(),
        0 <= ch < dec.channels,
        dec.max_clip_len + dec.ctx <= dec.delay,
        dec.ctx <= s < dec.ctx + wave.len(),
        s <= e <= s + dec.max_clip_len,
    ensures
        dec.ctx <= s,
        e + dec.ctx < (dec.buffers@[ch]@ + wave).len(),
{
}

/// Every clip is repaired in the chunk in which its start reaches the emit region: a scan that
/// comes to the start of a run goes on behind it, with the run repaired exactly if its length lies
/// between the limits. Neither the end of the buffer nor a lack of context ever keeps a run of such
/// a length from being repaired.
pub proof fn lemma_every_run_is_repaired<T: PrcFmt>(
    dec: Declipper<T>,
    ch: int,
    wave: Seq<T>,
    line: Seq<T>,
    s: int,
    runs: Seq<(int, int)>,
    long: Option<int>,
)
    requires
        dec.wf(),
        0 <= ch < dec.channels,
        dec.max_clip_len + dec.ctx <= dec.delay,
        line.len() == (dec.buffers@[ch]@ + wave).len(),
        dec.ctx <= s < dec.ctx + wave.len(),
        !line[s].s_abs().s_lt(dec.clip_threshold),
        !began_earlier(line, s, dec.clip_threshold),
    ensures
        ({
            let set = dec.settings();
            let end = dec.ctx + wave.len();
            let e = plateau_end(line, s + 1, s_zero::<T>().s_lt(line[s]), dec.clip_threshold);
            let done = scan(line, s, end, set, runs, long);
            &&& s < e
            &&& if dec.min_clip_len <= e - s <= dec.max_clip_len {
                done == scan(repaired(line, s, e, set), e, end, set, runs.push((s, e)), long)
            } else if e - s > dec.max_clip_len && e < line.len() {
                done == scan(line, e, end, set, runs, Some(e - s))
            } else {
                done == scan(line, e, end, set, runs, long)
            }
        }),
{
    let e = plateau_end(line, s + 1, s_zero::<T>().s_lt(line[s]), dec.clip_threshold);
    lemma_plateau_end(line, s + 1, s_zero::<T>().s_lt(line[s]), dec.clip_threshold);
    if e - s <= dec.max_clip_len {
        lemma_trailing_context_has_arrived(dec, ch, wave, s, e);
    }
}

/// Parameters that pass validation are taken over as they are: no limit alters them, every listed
/// channel exists, and exactly the listed channels (or all) are repaired.
pub proof fn lemma_valid_parameters_kept<T: PrcFmt>(
    config: DeclipperParameters<T>,
    dec: Declipper<T>,
)
    requires
        declipper_error(config) is None,
        dec.wf(),
        dec.follows(config),
    ensures
        dec.min_clip_len == config.min_clip_len,
        dec.max_clip_len == config.max_clip_len,
        dec.ar_order == config.ar_order,
        channels_exist(dec.process_channels@, dec.channels as int),
{
    crate::config::lemma_first_missing_channel(
        listed(config.process_channels),
        config.channels,
        0,
    );
}

} // verus!
