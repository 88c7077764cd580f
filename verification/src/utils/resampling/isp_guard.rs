//! Intersample-peak (ISP) guard.
//!
//! Wraps an inner resampler and post-processes its output through a true-peak detector (4x
//! oversampled probe) plus a lookahead peak limiter, capping at a configurable ceiling.
//!
//! The detector is independent of any oversampler downstream; it exists specifically because the
//! resampler output is where intersample peaks first appear in the digital signal path.

use crate::arith::{filled, s_zero};
use crate::fixed::{Fixed, LIMIT, ONE};
use crate::prcfmt::{Metered, PrcFmt};
use crate::processors::truepeak::branches::{in_range, within};
use crate::processors::truepeak::capping::{
    holds_level, lemma_frames_keep_level, lemma_output_is_capped,
};
use crate::processors::truepeak::limiter::{
    s_ceiling_from_dbfs, s_release_from_ms, LimiterState, TruePeakLimiterCore, LOOKAHEAD_SAMPLES,
};
use crate::processors::truepeak::{after_frames, MAX_CHANNELS};
use crate::utils::resampling::{output_offset, same_shape, Indexing, ResampleError, Resampler};
use vstd::prelude::*;

verus! {

/// A resampler with a true-peak limiter behind it.
pub struct IspGuard<T, R> {
    pub inner: R,
    pub limiter: TruePeakLimiterCore<T>,
    pub nbr_channels: usize,
    /// Whether the guard is enabled. When false, samples pass through unchanged (and the
    /// attenuation is reported as 0 dB).
    pub enabled: bool,
}

/// The frames `[offset, offset + n)` of a buffer.
pub open spec fn frames_from<T>(buf: Seq<Vec<T>>, offset: int, n: int) -> Seq<Seq<T>> {
    Seq::new(n as nat, |f: int| Seq::new(buf.len(), |ch: int| buf[ch]@[offset + f]))
}

/// Whether `after` is `before` with the `n` frames from `offset` on put through the limiter.
pub open spec fn limited<T: PrcFmt>(
    before: Seq<Vec<T>>,
    after: Seq<Vec<T>>,
    offset: int,
    n: int,
    st: LimiterState<T>,
    ceiling: T,
    release: T,
) -> bool {
    &&& same_shape(before, after)
    &&& forall|ch: int, j: int|
        0 <= ch < before.len() && 0 <= j < before[ch]@.len() ==> #[trigger] after[ch]@[j]
            == if offset <= j < offset + n {
            let frames = frames_from(before, offset, n);
            after_frames(st, frames.take(j - offset), ceiling, release).output(
                frames[j - offset],
                ceiling,
                release,
            )[ch]
        } else {
            before[ch]@[j]
        }
}

impl<T: PrcFmt, R: Resampler<T>> IspGuard<T, R> {
    pub fn new(
        inner: R,
        ceiling_dbfs: T,
        release_ms: T,
        enabled: bool,
        output_rate: usize,
    ) -> (r: Self)
        requires
            inner.wf(),
        ensures
            r.wf(),
            r.inner == inner,
            r.enabled == enabled,
            r.nbr_channels == inner.s_nbr_channels(),
            r.limiter.is_fresh(),
            r.limiter.ceiling == s_ceiling_from_dbfs(ceiling_dbfs),
            r.limiter.release_coef == s_release_from_ms(release_ms, output_rate as int),
    {
        let nbr_channels: usize = inner.nbr_channels();
        let limiter: TruePeakLimiterCore<T> = TruePeakLimiterCore::new(
            nbr_channels,
            ceiling_dbfs,
            release_ms,
            output_rate,
        );
        IspGuard { inner, limiter, nbr_channels, enabled }
    }

    /// Whether the guard differs from `other` in its inner resampler at most.
    pub open spec fn same_guard(&self, other: &Self) -> bool {
        &&& self.limiter == other.limiter
        &&& self.nbr_channels == other.nbr_channels
        &&& self.enabled == other.enabled
    }

    /// Whether the inner resampler answers a call with an error, whatever else it does.
    pub open spec fn inner_refuses(
        &self,
        buffer_in: Seq<Vec<T>>,
        buffer_out: Seq<Vec<T>>,
        indexing: Option<&Indexing>,
    ) -> bool {
        forall|after: R, out: Seq<Vec<T>>, r: Result<(usize, usize), ResampleError>| #[trigger]
            self.inner.processed(&after, buffer_in, buffer_out, out, indexing, r) ==> r is Err
    }

    /// Whether `after` is the guard after the `n` frames of `resampled` from `offset` on have been
    /// put through its limiter, which gave `out`.
    pub open spec fn guarded(
        &self,
        after: &Self,
        resampled: Seq<Vec<T>>,
        out: Seq<Vec<T>>,
        offset: int,
        n: int,
    ) -> bool {
        &&& after.nbr_channels == self.nbr_channels
        &&& after.enabled == self.enabled
        &&& after.limiter.ceiling == self.limiter.ceiling
        &&& after.limiter.release_coef == self.limiter.release_coef
        &&& after.limiter.state() == after_frames(
            self.limiter.state(),
            frames_from(resampled, offset, n),
            self.limiter.ceiling,
            self.limiter.release_coef,
        )
        &&& limited(
            resampled,
            out,
            offset,
            n,
            self.limiter.state(),
            self.limiter.ceiling,
            self.limiter.release_coef,
        )
    }

    /// Puts `n` frames of `buffer_out`, from `offset` on, through the limiter in place.
    pub fn limit_frames(&mut self, buffer_out: &mut Vec<Vec<T>>, offset: usize, n: usize)
        requires
            old(self).wf(),
            old(buffer_out)@.len() == old(self).nbr_channels,
            forall|ch: int|
                0 <= ch < old(buffer_out)@.len() ==> offset + n <= (
                #[trigger] old(buffer_out)@[ch])@.len(),
        ensures
            final(self).wf(),
            final(self).inner == old(self).inner,
            old(self).guarded(
                final(self),
                old(buffer_out)@,
                final(buffer_out)@,
                offset as int,
                n as int,
            ),
    {
        let nch: usize = self.nbr_channels;
        let ghost st = self.limiter.state();
        let ghost before = buffer_out@;
        let ghost ceiling = self.limiter.ceiling;
        let ghost release = self.limiter.release_coef;
        let ghost all = frames_from(before, offset as int, n as int);
        let mut frame_in: Vec<T> = filled(nch, T::of_int(0));
        let mut frame_out: Vec<T> = filled(nch, T::of_int(0));
        let mut f: usize = 0;
        assert(all.take(0) =~= Seq::empty());
        while f < n
            invariant
                f <= n,
                nch == old(self).nbr_channels,
                frame_in@.len() == nch,
                frame_out@.len() == nch,
                before == old(buffer_out)@,
                before.len() == nch,
                same_shape(before, buffer_out@),
                forall|ch: int|
                    0 <= ch < before.len() ==> offset + n <= (#[trigger] before[ch])@.len(),
                st == old(self).limiter.state(),
                ceiling == old(self).limiter.ceiling,
                release == old(self).limiter.release_coef,
                all == frames_from(before, offset as int, n as int),
                *self == (IspGuard { limiter: self.limiter, ..*old(self) }),
                self.limiter.wf(),
                self.limiter.nbr_channels == nch,
                self.limiter.ceiling == ceiling,
                self.limiter.release_coef == release,
                self.limiter.state() == after_frames(st, all.take(f as int), ceiling, release),
                forall|ch: int, j: int|
                    0 <= ch < nch && 0 <= j < before[ch]@.len()
                        ==> #[trigger] buffer_out@[ch]@[j] == if offset <= j < offset + f {
                        after_frames(st, all.take(j - offset), ceiling, release).output(
                            all[j - offset],
                            ceiling,
                            release,
                        )[ch]
                    } else {
                        before[ch]@[j]
                    },
            decreases n - f,
        {
            let mut ch: usize = 0;
            while ch < nch
                invariant
                    ch <= nch,
                    f < n,
                    frame_in@.len() == nch,
                    before.len() == nch,
                    same_shape(before, buffer_out@),
                    forall|c: int|
                        0 <= c < before.len() ==> offset + n <= (#[trigger] before[c])@.len(),
                    forall|c: int| 0 <= c < nch ==> #[trigger] buffer_out@[c]@[offset + f]
                        == before[c]@[offset + f],
                    forall|k: int| 0 <= k < ch ==> #[trigger] frame_in@[k] == before[k]@[offset + f],
                decreases nch - ch,
            {
                assert(buffer_out[ch as int].len() == before[ch as int]@.len());
                frame_in[ch] = buffer_out[ch][offset + f];
                ch += 1;
            }
            assert(frame_in@ =~= all[f as int]);
            let ghost here = self.limiter.state();
            self.limiter.process_frame(frame_in.as_slice(), frame_out.as_mut_slice());
            let ghost out = here.output(all[f as int], ceiling, release);
            assert(frame_out@ =~= out) by {
                assert(frame_out@.take(nch as int) =~= frame_out@);
            }
            let mut c: usize = 0;
            while c < nch
                invariant
                    c <= nch,
                    f < n,
                    frame_out@.len() == nch,
                    frame_out@ == out,
                    before.len() == nch,
                    same_shape(before, buffer_out@),
                    forall|k: int|
                        0 <= k < before.len() ==> offset + n <= (#[trigger] before[k])@.len(),
                    forall|k: int, j: int|
                        0 <= k < nch && 0 <= j < before[k]@.len()
                            ==> #[trigger] buffer_out@[k]@[j] == if j == offset + f && k < c {
                            out[k]
                        } else if offset <= j < offset + f {
                            after_frames(st, all.take(j - offset), ceiling, release).output(
                                all[j - offset],
                                ceiling,
                                release,
                            )[k]
                        } else {
                            before[k]@[j]
                        },
                decreases nch - c,
            {
                assert(buffer_out[c as int].len() == before[c as int]@.len());
                buffer_out[c][offset + f] = frame_out[c];
                c += 1;
            }
            assert(all.take(f + 1).drop_last() =~= all.take(f as int));
            f += 1;
        }
        assert(all.take(n as int) =~= all);
    }
}

impl<T: Metered, R: Resampler<T>> IspGuard<T, R> {
    /// The attenuation in dB to report: zero when the guard is disabled.
    pub fn report_attenuation(&self) -> (r: T::Level)
        ensures
            r == if self.enabled {
                self.limiter.s_attenuation_db()
            } else {
                s_zero()
            },
    {
        if self.enabled {
            self.limiter.attenuation_db()
        } else {
            T::Level::of_int(0)
        }
    }
}

impl<T: PrcFmt, R: Resampler<T>> Resampler<T> for IspGuard<T, R> {
    open spec fn wf(&self) -> bool {
        &&& self.inner.wf()
        &&& self.limiter.wf()
        &&& self.nbr_channels == self.inner.s_nbr_channels()
        &&& self.limiter.nbr_channels == self.nbr_channels
    }

    /// An enabled guard supports up to `MAX_CHANNELS` channels. With more of them it can only pass
    /// on that the inner resampler refuses the call.
    open spec fn accepts(
        &self,
        buffer_in: Seq<Vec<T>>,
        buffer_out: Seq<Vec<T>>,
        indexing: Option<&Indexing>,
    ) -> bool {
        &&& self.inner.accepts(buffer_in, buffer_out, indexing)
        &&& self.enabled && self.nbr_channels > MAX_CHANNELS ==> self.inner_refuses(
            buffer_in,
            buffer_out,
            indexing,
        )
    }

    /// The inner resampler gave some output. Disabled, or where the inner resampler failed, that
    /// is the output; enabled, its new frames have been put through the limiter.
    open spec fn processed(
        &self,
        after: &Self,
        buffer_in: Seq<Vec<T>>,
        out_before: Seq<Vec<T>>,
        out_after: Seq<Vec<T>>,
        indexing: Option<&Indexing>,
        r: Result<(usize, usize), ResampleError>,
    ) -> bool {
        if !self.enabled || r is Err {
            &&& self.inner.processed(
                &after.inner,
                buffer_in,
                out_before,
                out_after,
                indexing,
                r,
            )
            &&& after.same_guard(self)
        } else {
            exists|resampled: Seq<Vec<T>>|
                {
                    &&& #[trigger] self.inner.processed(
                        &after.inner,
                        buffer_in,
                        out_before,
                        resampled,
                        indexing,
                        r,
                    )
                    &&& self.guarded(
                        after,
                        resampled,
                        out_after,
                        output_offset(indexing),
                        r->Ok_0.1 as int,
                    )
                }
        }
    }

    open spec fn serves(&self, read: int, written: int) -> bool {
        &&& self.inner.serves(read, written)
        &&& self.enabled ==> self.nbr_channels <= MAX_CHANNELS
    }

    open spec fn ratio_changed(
        &self,
        after: &Self,
        ratio: T,
        ramp: bool,
        relative: bool,
        r: Result<(), ResampleError>,
    ) -> bool {
        &&& self.inner.ratio_changed(&after.inner, ratio, ramp, relative, r)
        &&& after.same_guard(self)
    }

    open spec fn was_reset(&self, after: &Self) -> bool {
        &&& self.inner.was_reset(&after.inner)
        &&& after.limiter.is_fresh()
        &&& after.limiter.ceiling == self.limiter.ceiling
        &&& after.limiter.release_coef == self.limiter.release_coef
        &&& after.nbr_channels == self.nbr_channels
        &&& after.enabled == self.enabled
    }

    open spec fn s_input_frames_max(&self) -> int {
        self.inner.s_input_frames_max()
    }

    open spec fn s_input_frames_next(&self) -> int {
        self.inner.s_input_frames_next()
    }

    open spec fn s_nbr_channels(&self) -> int {
        self.nbr_channels as int
    }

    open spec fn s_output_frames_max(&self) -> int {
        self.inner.s_output_frames_max()
    }

    open spec fn s_output_frames_next(&self) -> int {
        self.inner.s_output_frames_next()
    }

    open spec fn s_output_delay(&self) -> int {
        self.inner.s_output_delay() + LOOKAHEAD_SAMPLES
    }

    open spec fn s_resample_ratio(&self) -> T {
        self.inner.s_resample_ratio()
    }

    fn process_into_buffer(
        &mut self,
        buffer_in: &Vec<Vec<T>>,
        buffer_out: &mut Vec<Vec<T>>,
        indexing: Option<&Indexing>,
    ) -> (r: Result<(usize, usize), ResampleError>) {
        if !self.enabled {
            return self.inner.process_into_buffer(buffer_in, buffer_out, indexing);
        }
        let (in_consumed, out_produced): (usize, usize) = match self.inner.process_into_buffer(
            buffer_in,
            buffer_out,
            indexing,
        ) {
            Ok(counts) => counts,
            Err(e) => {
                return Err(e);
            },
        };
        let offset: usize = match indexing {
            Some(idx) => idx.output_offset,
            None => 0,
        };
        self.limit_frames(buffer_out, offset, out_produced);
        Ok((in_consumed, out_produced))
    }

    fn input_frames_max(&self) -> (r: usize) {
        self.inner.input_frames_max()
    }

    fn input_frames_next(&self) -> (r: usize) {
        self.inner.input_frames_next()
    }

    fn nbr_channels(&self) -> (r: usize) {
        self.nbr_channels
    }

    fn output_frames_max(&self) -> (r: usize) {
        self.inner.output_frames_max()
    }

    fn output_frames_next(&self) -> (r: usize) {
        self.inner.output_frames_next()
    }

    fn output_delay(&self) -> (r: usize) {
        self.inner.output_delay() + LOOKAHEAD_SAMPLES
    }

    fn set_resample_ratio(&mut self, new_ratio: T, ramp: bool) -> (r: Result<(), ResampleError>) {
        self.inner.set_resample_ratio(new_ratio, ramp)
    }

    fn resample_ratio(&self) -> (r: T) {
        self.inner.resample_ratio()
    }

    fn set_resample_ratio_relative(&mut self, rel_ratio: T, ramp: bool) -> (r: Result<
        (),
        ResampleError,
    >) {
        self.inner.set_resample_ratio_relative(rel_ratio, ramp)
    }

    fn reset(&mut self) {
        self.inner.reset();
        self.limiter.reset();
    }
}

/// The guard caps what the resampler gives: in fixed point no frame that has gone through the limiter
/// holds a sample above the ceiling, and the limiter goes on holding the level for the next call.
pub proof fn lemma_guarded_frames_are_capped(
    before: Seq<Vec<Fixed>>,
    after: Seq<Vec<Fixed>>,
    offset: int,
    n: int,
    st: LimiterState<Fixed>,
    ceiling: Fixed,
    release: Fixed,
    ch: int,
    j: int,
)
    requires
        limited(before, after, offset, n, st, ceiling, release),
        holds_level(st),
        0 <= ceiling.raw,
        0 <= release.raw <= ONE,
        st.delays.len() == before.len(),
        0 <= offset <= j < offset + n,
        0 <= ch < before.len(),
        forall|c: int| 0 <= c < before.len() ==> offset + n <= (#[trigger] before[c])@.len(),
        forall|c: int| 0 <= c < before.len() ==> in_range((#[trigger] before[c])@),
    ensures
        within(after[ch]@[j], ceiling.raw as int),
        holds_level(after_frames(st, frames_from(before, offset, n), ceiling, release)),
{
    let frames = frames_from(before, offset, n);
    assert forall|f: int, k: int| 0 <= f < n && 0 <= k < before.len() implies -LIMIT <= (
    #[trigger] frames[f][k]).raw by {
        assert(in_range(before[k]@));
        assert(-LIMIT <= before[k]@[offset + f].raw);
    }
    let first = frames.take(j - offset);
    assert forall|f: int, k: int| 0 <= f < first.len() && 0 <= k < before.len() implies -LIMIT <= (
    #[trigger] first[f][k]).raw by {
        assert(first[f][k] == frames[f][k]);
    }
    lemma_frames_keep_level(st, frames, ceiling, release);
    lemma_frames_keep_level(st, first, ceiling, release);
    lemma_output_is_capped(
        after_frames(st, first, ceiling, release),
        frames[j - offset],
        ceiling,
        release,
        ch,
    );
    assert(0 <= j < before[ch]@.len());
    assert(after[ch]@[j] == after_frames(st, first, ceiling, release).output(
        frames[j - offset],
        ceiling,
        release,
    )[ch]);
}

} // verus!
