//! Anti-aliasing oversampling backends used by the tube stage.
//!
//! Two backends are available:
//! - `HalfbandFirOversampler`: cascade of 2x halfband FIR stages (Kaiser-windowed sinc). Low
//!   latency, suitable for real-time audio.
//! - `RubatoOversampler`: a pair of synchronous resamplers, one up and one down. Fixed chunk size
//!   required.

use crate::arith::append;
use crate::filters::tubestage::halfband::{
    down_line, down_wave, up_line, up_wave, HalfbandStage,
};
use crate::prcfmt::PrcFmt;
use crate::utils::resampling::{frames_of, have_frames, is_plain, Indexing, ResampleError, Resampler};
use vstd::prelude::*;

verus! {

/// Takes a waveform to a multiple of its rate and back.
pub trait Oversampler<T: PrcFmt>: Sized {
    /// What holds of the oversampler between calls.
    spec fn wf(&self) -> bool;

    spec fn s_factor(&self) -> int;

    /// Whether waveforms of `n` samples at the base rate can be processed.
    spec fn takes(&self, n: int) -> bool;

    /// What `upsample` did: `self` is the state before, `after` the state after.
    spec fn upsampled(&self, after: &Self, input: Seq<T>, output: Seq<T>) -> bool;

    /// What `downsample` did.
    spec fn downsampled(&self, after: &Self, input: Seq<T>, output: Seq<T>) -> bool;

    fn factor(&self) -> (r: usize)
        requires
            self.wf(),
        ensures
            r == self.s_factor(),
    ;

    /// Upsample `input` to `output`. `output.len()` must be `factor * input.len()`.
    fn upsample(&mut self, input: &[T], output: &mut [T])
        requires
            old(self).wf(),
            old(self).takes(input@.len() as int),
            old(output)@.len() == old(self).s_factor() * input@.len(),
        ensures
            final(self).wf(),
            final(self).s_factor() == old(self).s_factor(),
            forall|n: int| #[trigger] old(self).takes(n) ==> final(self).takes(n),
            final(output)@.len() == old(output)@.len(),
            old(self).upsampled(final(self), input@, final(output)@),
    ;

    /// Downsample `input` to `output`. `input.len()` must be `factor * output.len()`.
    fn downsample(&mut self, input: &[T], output: &mut [T])
        requires
            old(self).wf(),
            old(self).takes(old(output)@.len() as int),
            input@.len() == old(self).s_factor() * old(output)@.len(),
        ensures
            final(self).wf(),
            final(self).s_factor() == old(self).s_factor(),
            forall|n: int| #[trigger] old(self).takes(n) ==> final(self).takes(n),
            final(output)@.len() == old(output)@.len(),
            old(self).downsampled(final(self), input@, final(output)@),
    ;
}

/// Copies a slice into another of the same length.
fn copy_into<T: PrcFmt>(src: &[T], dst: &mut [T])
    requires
        src@.len() == old(dst)@.len(),
    ensures
        final(dst)@ == src@,
{
    let mut i: usize = 0;
    while i < src.len()
        invariant
            i <= src@.len(),
            src@.len() == dst@.len(),
            forall|j: int| 0 <= j < i ==> dst@[j] == src@[j],
        decreases src@.len() - i,
    {
        dst[i] = src[i];
        i += 1;
    }
    assert(dst@ =~= src@);
}

// ------------------------------- Identity -------------------------------

/// No oversampling.
pub struct IdentityOversampler;

impl<T: PrcFmt> Oversampler<T> for IdentityOversampler {
    open spec fn wf(&self) -> bool {
        true
    }

    open spec fn s_factor(&self) -> int {
        1
    }

    open spec fn takes(&self, n: int) -> bool {
        true
    }

    open spec fn upsampled(&self, after: &Self, input: Seq<T>, output: Seq<T>) -> bool {
        output == input
    }

    open spec fn downsampled(&self, after: &Self, input: Seq<T>, output: Seq<T>) -> bool {
        output == input
    }

    fn factor(&self) -> (r: usize) {
        1
    }

    fn upsample(&mut self, input: &[T], output: &mut [T]) {
        copy_into(input, output);
    }

    fn downsample(&mut self, input: &[T], output: &mut [T]) {
        copy_into(input, output);
    }
}

/// Without oversampling the way up and down gives back what went in.
pub proof fn lemma_identity_round_trip<T: PrcFmt>(
    s0: IdentityOversampler,
    s1: IdentityOversampler,
    s2: IdentityOversampler,
    input: Seq<T>,
    high: Seq<T>,
    output: Seq<T>,
)
    requires
        Oversampler::<T>::upsampled(&s0, &s1, input, high),
        Oversampler::<T>::downsampled(&s1, &s2, high, output),
    ensures
        output == input,
{
}

// ------------------------------- Halfband FIR -------------------------------

/// Two to the power of `s`.
pub open spec fn two_to(s: int) -> int
    decreases s,
{
    if s <= 0 {
        1
    } else {
        2 * two_to(s - 1)
    }
}

/// Whether a number is a power of two.
pub open spec fn is_power_of_two(f: int) -> bool
    decreases f,
{
    f == 1 || (f >= 2 && f % 2 == 0 && is_power_of_two(f / 2))
}

/// The waveform after the first `s` stages, from the base rate up.
pub open spec fn raised_by<T: PrcFmt>(lines: Seq<Seq<T>>, input: Seq<T>, s: int) -> Seq<T>
    decreases s,
{
    if s <= 0 {
        input
    } else {
        up_wave(lines[s - 1], raised_by(lines, input, s - 1))
    }
}

/// The waveform after the stages from the top down to stage `s`.
pub open spec fn lowered_to<T: PrcFmt>(lines: Seq<Seq<T>>, input: Seq<T>, s: int) -> Seq<T>
    decreases lines.len() - s,
{
    if s >= lines.len() {
        input
    } else {
        down_wave(lines[s], lowered_to(lines, input, s + 1))
    }
}

proof fn lemma_raised_len<T: PrcFmt>(lines: Seq<Seq<T>>, input: Seq<T>, s: int)
    requires
        0 <= s,
    ensures
        raised_by(lines, input, s).len() == two_to(s) * input.len(),
    decreases s,
{
    if s > 0 {
        lemma_raised_len(lines, input, s - 1);
        assert(2 * (two_to(s - 1) * input.len()) == (2 * two_to(s - 1)) * input.len())
            by (nonlinear_arith);
    }
}

proof fn lemma_lowered_len<T: PrcFmt>(lines: Seq<Seq<T>>, input: Seq<T>, s: int, n: int)
    requires
        0 <= s <= lines.len(),
        0 <= n,
        input.len() == two_to(lines.len() as int) * n,
    ensures
        lowered_to(lines, input, s).len() == two_to(s) * n,
    decreases lines.len() - s,
{
    if s < lines.len() {
        lemma_lowered_len(lines, input, s + 1, n);
        assert(two_to(s + 1) * n == 2 * (two_to(s) * n)) by (nonlinear_arith)
            requires
                two_to(s + 1) == 2 * two_to(s),
        ;
    }
}

proof fn lemma_two_to_monotonic(s: int, t: int)
    requires
        0 <= s <= t,
    ensures
        1 <= two_to(s) <= two_to(t),
    decreases t,
{
    if s < t {
        lemma_two_to_monotonic(s, t - 1);
    } else if s > 0 {
        lemma_two_to_monotonic(s - 1, s - 1);
    }
}

/// Cascade of halfband stages.
pub struct HalfbandFirOversampler<T> {
    pub factor: usize,
    pub stages: Vec<HalfbandStage<T>>,
    /// The waveform on its way from stage to stage.
    pub scratch: Vec<T>,
    pub spare: Vec<T>,
}

impl<T: PrcFmt> HalfbandFirOversampler<T> {
    /// The delay lines of the stages on the way up.
    pub open spec fn up_lines(&self) -> Seq<Seq<T>> {
        Seq::new(self.stages@.len(), |s: int| self.stages@[s].up_dl@)
    }

    /// The delay lines of the stages on the way down.
    pub open spec fn down_lines(&self) -> Seq<Seq<T>> {
        Seq::new(self.stages@.len(), |s: int| self.stages@[s].down_dl@)
    }

    pub fn new(factor: usize, base_chunksize: usize) -> (r: Self)
        requires
            factor >= 2,
            is_power_of_two(factor as int),
            factor * base_chunksize <= usize::MAX,
        ensures
            r.wf(),
            r.factor == factor,
            forall|s: int| 0 <= s < r.stages@.len() ==> (#[trigger] r.stages@[s]).is_fresh(),
    {
        let mut stages: Vec<HalfbandStage<T>> = Vec::new();
        let mut left: usize = factor;
        assert(two_to(0) * left == left);
        while left > 1
            invariant
                left >= 1,
                is_power_of_two(left as int),
                two_to(stages@.len() as int) * left == factor,
                stages@.len() == 0 ==> left == factor,
                forall|s: int|
                    0 <= s < stages@.len() ==> (#[trigger] stages@[s]).wf()
                        && stages@[s].is_fresh(),
            decreases left,
        {
            let ghost was = left as int;
            let ghost n = stages@.len() as int;
            stages.push(HalfbandStage::new());
            left = left / 2;
            assert(two_to(n + 1) * left == factor) by (nonlinear_arith)
                requires
                    two_to(n + 1) == 2 * two_to(n),
                    two_to(n) * was == factor,
                    was == 2 * left,
            ;
        }
        let capacity: usize = factor * base_chunksize;
        HalfbandFirOversampler {
            factor,
            stages,
            scratch: Vec::with_capacity(capacity),
            spare: Vec::with_capacity(capacity),
        }
    }
}

impl<T: PrcFmt> Oversampler<T> for HalfbandFirOversampler<T> {
    open spec fn wf(&self) -> bool {
        &&& self.stages@.len() >= 1
        &&& self.factor == two_to(self.stages@.len() as int)
        &&& forall|s: int| 0 <= s < self.stages@.len() ==> (#[trigger] self.stages@[s]).wf()
    }

    open spec fn s_factor(&self) -> int {
        self.factor as int
    }

    open spec fn takes(&self, n: int) -> bool {
        true
    }

    /// The output is that of the last stage, and every stage has seen its input.
    open spec fn upsampled(&self, after: &Self, input: Seq<T>, output: Seq<T>) -> bool {
        &&& output == raised_by(self.up_lines(), input, self.stages@.len() as int)
        &&& after.stages@.len() == self.stages@.len()
        &&& forall|s: int|
            0 <= s < self.stages@.len() ==> {
                let seen = raised_by(self.up_lines(), input, s);
                &&& (#[trigger] after.stages@[s]).up_dl@ == up_line(
                    self.stages@[s].up_dl@,
                    seen,
                    seen.len() as int,
                )
                &&& after.stages@[s].down_dl == self.stages@[s].down_dl
            }
    }

    /// The output is that of the lowest stage, and every stage has seen its input.
    open spec fn downsampled(&self, after: &Self, input: Seq<T>, output: Seq<T>) -> bool {
        &&& output == lowered_to(self.down_lines(), input, 0)
        &&& after.stages@.len() == self.stages@.len()
        &&& forall|s: int|
            0 <= s < self.stages@.len() ==> {
                let seen = lowered_to(self.down_lines(), input, s + 1);
                &&& (#[trigger] after.stages@[s]).down_dl@ == down_line(
                    self.stages@[s].down_dl@,
                    seen,
                    seen.len() as int / 2,
                )
                &&& after.stages@[s].up_dl == self.stages@[s].up_dl
            }
    }

    fn factor(&self) -> (r: usize) {
        self.factor
    }

    fn upsample(&mut self, input: &[T], output: &mut [T]) {
        let ghost start = *self;
        let ghost lines = self.up_lines();
        let num_stages: usize = self.stages.len();
        let n_out: usize = output.len();
        self.scratch.clear();
        append(&mut self.scratch, input);
        assert(self.scratch@ =~= input@);
        let mut s: usize = 0;
        while s < num_stages
            invariant
                s <= num_stages,
                start == *old(self),
                start.wf(),
                lines == start.up_lines(),
                num_stages == start.stages@.len(),
                self.factor == start.factor,
                self.stages@.len() == num_stages,
                two_to(num_stages as int) * input@.len() == n_out,
                self.scratch@ == raised_by(lines, input@, s as int),
                forall|k: int|
                    s <= k < num_stages ==> #[trigger] self.stages@[k] == start.stages@[k],
                forall|k: int|
                    0 <= k < s ==> {
                        let seen = raised_by(lines, input@, k);
                        &&& (#[trigger] self.stages@[k]).wf()
                        &&& self.stages@[k].up_dl@ == up_line(
                            start.stages@[k].up_dl@,
                            seen,
                            seen.len() as int,
                        )
                        &&& self.stages@[k].down_dl == start.stages@[k].down_dl
                    },
            decreases num_stages - s,
        {
            proof {
                lemma_raised_len(lines, input@, s as int);
                lemma_two_to_monotonic(s + 1, num_stages as int);
                assert(2 * (two_to(s as int) * input@.len()) <= usize::MAX) by (nonlinear_arith)
                    requires
                        2 * two_to(s as int) <= two_to(num_stages as int),
                        two_to(num_stages as int) * input@.len() <= usize::MAX,
                ;
                assert(self.stages@[s as int] == start.stages@[s as int]);
            }
            self.stages[s].upsample_wave(&self.scratch, &mut self.spare);
            std::mem::swap(&mut self.scratch, &mut self.spare);
            s += 1;
        }
        proof {
            lemma_raised_len(lines, input@, num_stages as int);
        }
        copy_into(self.scratch.as_slice(), output);
    }

    fn downsample(&mut self, input: &[T], output: &mut [T]) {
        let ghost start = *self;
        let ghost lines = self.down_lines();
        let ghost n = output@.len() as int;
        let num_stages: usize = self.stages.len();
        self.scratch.clear();
        append(&mut self.scratch, input);
        assert(self.scratch@ =~= input@);
        let mut s: usize = num_stages;
        while s > 0
            invariant
                s <= num_stages,
                start == *old(self),
                start.wf(),
                lines == start.down_lines(),
                num_stages == start.stages@.len(),
                self.factor == start.factor,
                self.stages@.len() == num_stages,
                self.scratch@ == lowered_to(lines, input@, s as int),
                forall|k: int|
                    0 <= k < s ==> #[trigger] self.stages@[k] == start.stages@[k],
                forall|k: int|
                    s <= k < num_stages ==> {
                        let seen = lowered_to(lines, input@, k + 1);
                        &&& (#[trigger] self.stages@[k]).wf()
                        &&& self.stages@[k].down_dl@ == down_line(
                            start.stages@[k].down_dl@,
                            seen,
                            seen.len() as int / 2,
                        )
                        &&& self.stages@[k].up_dl == start.stages@[k].up_dl
                    },
            decreases s,
        {
            s -= 1;
            assert(self.stages@[s as int] == start.stages@[s as int]);
            self.stages[s].downsample_wave(&self.scratch, &mut self.spare);
            std::mem::swap(&mut self.scratch, &mut self.spare);
        }
        proof {
            lemma_lowered_len(lines, input@, 0, n);
        }
        copy_into(self.scratch.as_slice(), output);
    }
}

// ------------------------------- Synchronous resampler -------------------------------

/// Oversampling by a pair of resamplers that take and give a fixed number of frames.
pub struct RubatoOversampler<T, R> {
    pub factor: usize,
    pub chunksize: usize,
    pub upsampler: R,
    pub downsampler: R,
    pub in_buf: Vec<Vec<T>>,
    pub out_buf_high: Vec<Vec<T>>,
    pub out_buf_low: Vec<Vec<T>>,
    pub indexing: Indexing,
}

/// Whether a resampler turned one channel of audio into another.
pub open spec fn resampled<T: PrcFmt, R: Resampler<T>>(
    before: R,
    after: R,
    input: Seq<T>,
    output: Seq<T>,
    indexing: Indexing,
) -> bool {
    exists|
        buffer_in: Seq<Vec<T>>,
        out_before: Seq<Vec<T>>,
        out_after: Seq<Vec<T>>,
        r: Result<(usize, usize), ResampleError>,
    |
        {
            &&& buffer_in.len() == 1 && buffer_in[0]@ == input
            &&& out_after.len() == 1 && out_after[0]@ == output
            &&& r is Ok && r->Ok_0.0 == input.len() && r->Ok_0.1 == output.len()
            &&& #[trigger] before.processed(
                &after,
                buffer_in,
                out_before,
                out_after,
                Some(&indexing),
                r,
            )
        }
}

/// Resamples one channel of audio that fills its buffer.
fn resample_one<T: PrcFmt, R: Resampler<T>>(
    resampler: &mut R,
    buffer_in: &Vec<Vec<T>>,
    buffer_out: &mut Vec<Vec<T>>,
    indexing: &Indexing,
)
    requires
        old(resampler).wf(),
        old(resampler).s_nbr_channels() == 1,
        buffer_in@.len() == 1,
        old(buffer_out)@.len() == 1,
        old(resampler).serves(buffer_in@[0]@.len() as int, old(buffer_out)@[0]@.len() as int),
        is_plain(Some(indexing)),
    ensures
        final(resampler).wf(),
        final(resampler).s_nbr_channels() == 1,
        forall|read: int, written: int| #[trigger]
            old(resampler).serves(read, written) ==> final(resampler).serves(read, written),
        final(buffer_out)@.len() == 1,
        final(buffer_out)@[0]@.len() == old(buffer_out)@[0]@.len(),
        resampled(
            *old(resampler),
            *final(resampler),
            buffer_in@[0]@,
            final(buffer_out)@[0]@,
            *indexing,
        ),
{
    let ghost read = buffer_in@[0]@.len() as int;
    let ghost written = buffer_out@[0]@.len() as int;
    proof {
        assert(frames_of(buffer_in@) == read);
        assert(frames_of(buffer_out@) == written);
        assert(have_frames(buffer_in@, 1, read));
        assert(have_frames(buffer_out@, 1, written));
        assert(resampler.serves(read, written));
    }
    let _ = resampler.process_into_buffer(buffer_in, buffer_out, Some(indexing));
}

impl<T: PrcFmt, R: Resampler<T>> RubatoOversampler<T, R> {
    /// Oversampling by `factor` for chunks of `chunksize` samples. `upsampler` takes a chunk to
    /// `factor` times as many samples, `downsampler` takes these back.
    pub fn new(factor: usize, chunksize: usize, upsampler: R, downsampler: R) -> (r: Self)
        requires
            factor * chunksize <= usize::MAX,
            upsampler.wf(),
            upsampler.s_nbr_channels() == 1,
            upsampler.serves(chunksize as int, factor * chunksize),
            downsampler.wf(),
            downsampler.s_nbr_channels() == 1,
            downsampler.serves(factor * chunksize, chunksize as int),
        ensures
            r.wf(),
            r.factor == factor,
            r.chunksize == chunksize,
            r.upsampler == upsampler,
            r.downsampler == downsampler,
    {
        let zero: T = T::of_int(0);
        let mut in_buf: Vec<Vec<T>> = Vec::new();
        in_buf.push(crate::arith::filled(chunksize, zero));
        let mut out_buf_high: Vec<Vec<T>> = Vec::new();
        out_buf_high.push(crate::arith::filled(factor * chunksize, zero));
        let mut out_buf_low: Vec<Vec<T>> = Vec::new();
        out_buf_low.push(crate::arith::filled(chunksize, zero));
        RubatoOversampler {
            factor,
            chunksize,
            upsampler,
            downsampler,
            in_buf,
            out_buf_high,
            out_buf_low,
            indexing: Indexing {
                input_offset: 0,
                output_offset: 0,
                partial_len: None,
                active_channels_mask: None,
            },
        }
    }
}

impl<T: PrcFmt, R: Resampler<T>> Oversampler<T> for RubatoOversampler<T, R> {
    open spec fn wf(&self) -> bool {
        &&& self.factor * self.chunksize <= usize::MAX
        &&& self.upsampler.wf()
        &&& self.upsampler.s_nbr_channels() == 1
        &&& self.upsampler.serves(self.chunksize as int, self.factor * self.chunksize)
        &&& self.downsampler.wf()
        &&& self.downsampler.s_nbr_channels() == 1
        &&& self.downsampler.serves(self.factor * self.chunksize, self.chunksize as int)
        &&& self.in_buf@.len() == 1
        &&& self.out_buf_high@.len() == 1
        &&& self.out_buf_high@[0]@.len() == self.factor * self.chunksize
        &&& self.out_buf_low@.len() == 1
        &&& self.out_buf_low@[0]@.len() == self.chunksize
        &&& is_plain(Some(&self.indexing))
    }

    open spec fn s_factor(&self) -> int {
        self.factor as int
    }

    open spec fn takes(&self, n: int) -> bool {
        n == self.chunksize
    }

    open spec fn upsampled(&self, after: &Self, input: Seq<T>, output: Seq<T>) -> bool {
        &&& resampled(self.upsampler, after.upsampler, input, output, self.indexing)
        &&& after.downsampler == self.downsampler
        &&& after.chunksize == self.chunksize
        &&& after.indexing == self.indexing
    }

    open spec fn downsampled(&self, after: &Self, input: Seq<T>, output: Seq<T>) -> bool {
        &&& resampled(self.downsampler, after.downsampler, input, output, self.indexing)
        &&& after.upsampler == self.upsampler
        &&& after.chunksize == self.chunksize
        &&& after.indexing == self.indexing
    }

    fn factor(&self) -> (r: usize) {
        self.factor
    }

    fn upsample(&mut self, input: &[T], output: &mut [T]) {
        self.in_buf[0].clear();
        append(&mut self.in_buf[0], input);
        assert(self.in_buf@[0]@ =~= input@);
        resample_one(&mut self.upsampler, &self.in_buf, &mut self.out_buf_high, &self.indexing);
        copy_into(self.out_buf_high[0].as_slice(), output);
    }

    fn downsample(&mut self, input: &[T], output: &mut [T]) {
        self.out_buf_high[0].clear();
        append(&mut self.out_buf_high[0], input);
        assert(self.out_buf_high@[0]@ =~= input@);
        resample_one(&mut self.downsampler, &self.out_buf_high, &mut self.out_buf_low, &self.indexing);
        copy_into(self.out_buf_low[0].as_slice(), output);
    }
}

// ------------------------------- Any of these -------------------------------

/// One of the backends.
pub enum AnyOversampler<T, R> {
    Identity(IdentityOversampler),
    Halfband(HalfbandFirOversampler<T>),
    Rubato(RubatoOversampler<T, R>),
}

impl<T: PrcFmt, R: Resampler<T>> Oversampler<T> for AnyOversampler<T, R> {
    open spec fn wf(&self) -> bool {
        match self {
            AnyOversampler::Identity(o) => Oversampler::<T>::wf(o),
            AnyOversampler::Halfband(o) => o.wf(),
            AnyOversampler::Rubato(o) => o.wf(),
        }
    }

    open spec fn s_factor(&self) -> int {
        match self {
            AnyOversampler::Identity(o) => Oversampler::<T>::s_factor(o),
            AnyOversampler::Halfband(o) => o.s_factor(),
            AnyOversampler::Rubato(o) => o.s_factor(),
        }
    }

    open spec fn takes(&self, n: int) -> bool {
        match self {
            AnyOversampler::Identity(o) => Oversampler::<T>::takes(o, n),
            AnyOversampler::Halfband(o) => o.takes(n),
            AnyOversampler::Rubato(o) => o.takes(n),
        }
    }

    open spec fn upsampled(&self, after: &Self, input: Seq<T>, output: Seq<T>) -> bool {
        match (self, after) {
            (AnyOversampler::Identity(a), AnyOversampler::Identity(b)) => a.upsampled(
                b,
                input,
                output,
            ),
            (AnyOversampler::Halfband(a), AnyOversampler::Halfband(b)) => a.upsampled(
                b,
                input,
                output,
            ),
            (AnyOversampler::Rubato(a), AnyOversampler::Rubato(b)) => a.upsampled(
                b,
                input,
                output,
            ),
            _ => false,
        }
    }

    open spec fn downsampled(&self, after: &Self, input: Seq<T>, output: Seq<T>) -> bool {
        match (self, after) {
            (AnyOversampler::Identity(a), AnyOversampler::Identity(b)) => a.downsampled(
                b,
                input,
                output,
            ),
            (AnyOversampler::Halfband(a), AnyOversampler::Halfband(b)) => a.downsampled(
                b,
                input,
                output,
            ),
            (AnyOversampler::Rubato(a), AnyOversampler::Rubato(b)) => a.downsampled(
                b,
                input,
                output,
            ),
            _ => false,
        }
    }

    fn factor(&self) -> (r: usize) {
        match self {
            AnyOversampler::Identity(o) => Oversampler::<T>::factor(o),
            AnyOversampler::Halfband(o) => o.factor(),
            AnyOversampler::Rubato(o) => o.factor(),
        }
    }

    fn upsample(&mut self, input: &[T], output: &mut [T]) {
        match self {
            AnyOversampler::Identity(o) => o.upsample(input, output),
            AnyOversampler::Halfband(o) => o.upsample(input, output),
            AnyOversampler::Rubato(o) => o.upsample(input, output),
        }
    }

    fn downsample(&mut self, input: &[T], output: &mut [T]) {
        match self {
            AnyOversampler::Identity(o) => o.downsample(input, output),
            AnyOversampler::Halfband(o) => o.downsample(input, output),
            AnyOversampler::Rubato(o) => o.downsample(input, output),
        }
    }
}

} // verus!
