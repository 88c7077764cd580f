//! Sample rate conversion.
//!
//! A resampler takes a varying number of input frames and gives a number of output frames per
//! call. Audio is held as one vector of samples per channel; the frame count of such a buffer is
//! the length of its shortest channel.

pub mod design;
pub mod design_laws;
pub mod isp_guard;
pub mod kernel;
pub mod kernel_laws;
pub mod polyphase;
pub mod polyphase_laws;

use crate::arith::min_int;
use crate::prcfmt::PrcFmt;
use vstd::prelude::*;

verus! {

/// Where to read and write, and which channels to process.
pub struct Indexing {
    /// Frame of the input buffer that reading starts at.
    pub input_offset: usize,
    /// Frame of the output buffer that writing starts at.
    pub output_offset: usize,
    /// Number of input frames that are there, where fewer than needed. The rest is silence.
    pub partial_len: Option<usize>,
    /// Which channels to process, all if left out.
    pub active_channels_mask: Option<Vec<bool>>,
}

/// What a resampler could not do.
#[derive(Clone, Copy, Debug, PartialEq, Eq, Structural)]
pub enum ResampleError {
    WrongNumberOfInputChannels { expected: usize, actual: usize },
    WrongNumberOfOutputChannels { expected: usize, actual: usize },
    WrongNumberOfMaskChannels { expected: usize, actual: usize },
    InsufficientInputBufferSize { expected: usize, actual: usize },
    InsufficientOutputBufferSize { expected: usize, actual: usize },
    /// The ratio is fixed at construction.
    SyncNotAdjustable,
    /// Another failure of a resampler outside this library.
    Backend,
}

/// The frame that reading starts at.
pub open spec fn input_offset(indexing: Option<&Indexing>) -> int {
    match indexing {
        Some(idx) => idx.input_offset as int,
        None => 0,
    }
}

/// The frame that writing starts at.
pub open spec fn output_offset(indexing: Option<&Indexing>) -> int {
    match indexing {
        Some(idx) => idx.output_offset as int,
        None => 0,
    }
}

/// How many of the `needed` input frames are read.
pub open spec fn frames_to_read(indexing: Option<&Indexing>, needed: int) -> int {
    match indexing {
        Some(idx) => match idx.partial_len {
            Some(len) => min_int(len as int, needed),
            None => needed,
        },
        None => needed,
    }
}

/// Which of the `channels` channels are processed.
pub open spec fn mask_of(indexing: Option<&Indexing>, channels: nat) -> Seq<bool> {
    match indexing {
        Some(idx) => match idx.active_channels_mask {
            Some(mask) => mask@,
            None => Seq::new(channels, |ch: int| true),
        },
        None => Seq::new(channels, |ch: int| true),
    }
}

/// The number of frames in the first `n` channels: the length of the shortest.
pub open spec fn frames_in<T>(buf: Seq<Vec<T>>, n: int) -> int
    decreases n,
{
    if n <= 0 {
        0
    } else if n == 1 {
        buf[0]@.len() as int
    } else {
        min_int(frames_in(buf, n - 1), buf[n - 1]@.len() as int)
    }
}

/// The number of frames in a buffer.
pub open spec fn frames_of<T>(buf: Seq<Vec<T>>) -> int {
    frames_in(buf, buf.len() as int)
}

/// No channel has fewer frames than the buffer.
pub proof fn lemma_frames_in<T>(buf: Seq<Vec<T>>, n: int, ch: int)
    requires
        0 <= ch < n,
    ensures
        0 <= frames_in(buf, n) <= buf[ch]@.len(),
    decreases n,
{
    if n > 1 {
        if ch < n - 1 {
            lemma_frames_in(buf, n - 1, ch);
        } else {
            lemma_frames_in(buf, n - 1, 0);
        }
    }
}

/// The number of frames in a buffer.
pub fn frames<T>(buf: &Vec<Vec<T>>) -> (r: usize)
    ensures
        r == frames_of(buf@),
        forall|ch: int| 0 <= ch < buf@.len() ==> r <= (#[trigger] buf@[ch])@.len(),
{
    if buf.len() == 0 {
        return 0;
    }
    let mut r: usize = buf[0].len();
    let mut ch: usize = 1;
    while ch < buf.len()
        invariant
            1 <= ch <= buf@.len(),
            r == frames_in(buf@, ch as int),
        decreases buf@.len() - ch,
    {
        if buf[ch].len() < r {
            r = buf[ch].len();
        }
        ch += 1;
    }
    assert forall|ch: int| 0 <= ch < buf@.len() implies r <= (#[trigger] buf@[ch])@.len() by {
        lemma_frames_in(buf@, buf@.len() as int, ch);
    }
    r
}

/// Whether reading and writing start at the first frame and all channels are processed in full.
pub open spec fn is_plain(indexing: Option<&Indexing>) -> bool {
    indexing matches Some(idx) ==> {
        &&& idx.input_offset == 0
        &&& idx.output_offset == 0
        &&& idx.partial_len is None
        &&& idx.active_channels_mask is None
    }
}

/// Whether a buffer has the given number of channels and at least that many frames.
pub open spec fn have_frames<T>(buf: Seq<Vec<T>>, channels: int, frames: int) -> bool {
    &&& buf.len() == channels
    &&& frames <= frames_of(buf)
}

/// Whether two buffers have the same channels and lengths.
pub open spec fn same_shape<T>(a: Seq<Vec<T>>, b: Seq<Vec<T>>) -> bool {
    &&& a.len() == b.len()
    &&& forall|ch: int|
        #![trigger a[ch]]
        #![trigger b[ch]]
        0 <= ch < a.len() ==> a[ch]@.len() == b[ch]@.len()
}

/// A resampler.
///
/// What a call does is for each resampler to say: `processed`, `ratio_changed` and `was_reset`
/// relate the state and the buffers before and after a call to what it returned. A resampler
/// outside the reach of the verifier leaves the specification functions at their defaults, of
/// which nothing is known.
pub trait Resampler<T: PrcFmt>: Sized {
    /// What holds of the resampler between calls.
    closed spec fn wf(&self) -> bool {
        arbitrary()
    }

    /// Whether the buffers and the indexing may be handed to `process_into_buffer`.
    closed spec fn accepts(
        &self,
        buffer_in: Seq<Vec<T>>,
        buffer_out: Seq<Vec<T>>,
        indexing: Option<&Indexing>,
    ) -> bool {
        arbitrary()
    }

    /// What `process_into_buffer` did: `self` is the state before, `after` the state after.
    closed spec fn processed(
        &self,
        after: &Self,
        buffer_in: Seq<Vec<T>>,
        out_before: Seq<Vec<T>>,
        out_after: Seq<Vec<T>>,
        indexing: Option<&Indexing>,
        r: Result<(usize, usize), ResampleError>,
    ) -> bool {
        arbitrary()
    }

    /// Whether every call takes `read` frames and gives `written` frames, for as long as the ratio
    /// stays and it is not reset.
    closed spec fn serves(&self, read: int, written: int) -> bool {
        arbitrary()
    }

    /// What a change of the ratio did.
    closed spec fn ratio_changed(
        &self,
        after: &Self,
        ratio: T,
        ramp: bool,
        relative: bool,
        r: Result<(), ResampleError>,
    ) -> bool {
        arbitrary()
    }

    /// What `reset` did.
    closed spec fn was_reset(&self, after: &Self) -> bool {
        arbitrary()
    }

    closed spec fn s_input_frames_max(&self) -> int {
        arbitrary()
    }

    closed spec fn s_input_frames_next(&self) -> int {
        arbitrary()
    }

    closed spec fn s_nbr_channels(&self) -> int {
        arbitrary()
    }

    closed spec fn s_output_frames_max(&self) -> int {
        arbitrary()
    }

    closed spec fn s_output_frames_next(&self) -> int {
        arbitrary()
    }

    closed spec fn s_output_delay(&self) -> int {
        arbitrary()
    }

    closed spec fn s_resample_ratio(&self) -> T {
        arbitrary()
    }

    /// Resamples a chunk of audio. Returns how many frames were read and written.
    fn process_into_buffer(
        &mut self,
        buffer_in: &Vec<Vec<T>>,
        buffer_out: &mut Vec<Vec<T>>,
        indexing: Option<&Indexing>,
    ) -> (r: Result<(usize, usize), ResampleError>)
        requires
            old(self).wf(),
            old(self).accepts(buffer_in@, old(buffer_out)@, indexing) || (is_plain(indexing)
                && exists|read: int, written: int| #[trigger]
                old(self).serves(read, written) && have_frames(
                    buffer_in@,
                    old(self).s_nbr_channels(),
                    read,
                ) && have_frames(old(buffer_out)@, old(self).s_nbr_channels(), written)),
        ensures
            final(self).wf(),
            old(self).processed(
                final(self),
                buffer_in@,
                old(buffer_out)@,
                final(buffer_out)@,
                indexing,
                r,
            ),
            final(self).s_nbr_channels() == old(self).s_nbr_channels(),
            same_shape(old(buffer_out)@, final(buffer_out)@),
            r is Ok ==> {
                &&& final(buffer_out)@.len() == old(self).s_nbr_channels()
                &&& forall|ch: int|
                    0 <= ch < final(buffer_out)@.len() ==> output_offset(indexing) + r->Ok_0.1
                        <= (#[trigger] final(buffer_out)@[ch])@.len()
            },
            forall|read: int, written: int| #[trigger]
                old(self).serves(read, written) ==> final(self).serves(read, written),
            forall|read: int, written: int| #[trigger]
                old(self).serves(read, written) && have_frames(
                    buffer_in@,
                    old(self).s_nbr_channels(),
                    input_offset(indexing) + read,
                ) && have_frames(
                    old(buffer_out)@,
                    old(self).s_nbr_channels(),
                    output_offset(indexing) + written,
                ) ==> r is Ok && r->Ok_0.0 == read && r->Ok_0.1 == written,
    ;

    /// The largest number of input frames that a call can need.
    fn input_frames_max(&self) -> (r: usize)
        requires
            self.wf(),
        ensures
            r == self.s_input_frames_max(),
    ;

    /// The number of input frames that the next call needs.
    fn input_frames_next(&self) -> (r: usize)
        requires
            self.wf(),
        ensures
            r == self.s_input_frames_next(),
    ;

    /// The number of channels.
    fn nbr_channels(&self) -> (r: usize)
        requires
            self.wf(),
        ensures
            r == self.s_nbr_channels(),
    ;

    /// The largest number of output frames that a call can give.
    fn output_frames_max(&self) -> (r: usize)
        requires
            self.wf(),
        ensures
            r == self.s_output_frames_max(),
    ;

    /// The number of output frames that the next call gives.
    fn output_frames_next(&self) -> (r: usize)
        requires
            self.wf(),
        ensures
            r == self.s_output_frames_next(),
    ;

    /// The delay in output frames.
    fn output_delay(&self) -> (r: usize)
        requires
            self.wf(),
            self.s_output_delay() <= usize::MAX,
        ensures
            r == self.s_output_delay(),
    ;

    /// Sets the ratio.
    fn set_resample_ratio(&mut self, new_ratio: T, ramp: bool) -> (r: Result<(), ResampleError>)
        requires
            old(self).wf(),
        ensures
            final(self).wf(),
            old(self).ratio_changed(final(self), new_ratio, ramp, false, r),
            final(self).s_nbr_channels() == old(self).s_nbr_channels(),
    ;

    /// The ratio of the output rate to the input rate.
    fn resample_ratio(&self) -> (r: T)
        requires
            self.wf(),
        ensures
            r == self.s_resample_ratio(),
    ;

    /// Sets the ratio relative to the original one.
    fn set_resample_ratio_relative(&mut self, rel_ratio: T, ramp: bool) -> (r: Result<
        (),
        ResampleError,
    >)
        requires
            old(self).wf(),
        ensures
            final(self).wf(),
            old(self).ratio_changed(final(self), rel_ratio, ramp, true, r),
            final(self).s_nbr_channels() == old(self).s_nbr_channels(),
    ;

    /// Forgets the audio seen so far.
    fn reset(&mut self)
        requires
            old(self).wf(),
        ensures
            final(self).wf(),
            old(self).was_reset(final(self)),
            final(self).s_nbr_channels() == old(self).s_nbr_channels(),
    ;
}

} // verus!
