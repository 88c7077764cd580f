//! True-peak probe: 4x oversampling halfband cascade.

use crate::arith::{copies, fill, filled, push_front, pushed, s_zero};
use crate::prcfmt::PrcFmt;
use crate::utils::window::{odd_len, sum, sum_of, windowed_sinc, windowed_sinc_of};
use vstd::prelude::*;

verus! {

/// Length of the halfband prototype FIR used by the 4x true-peak probe.
pub const HALFBAND_TAPS: usize = 31;

/// The halfband prototype of odd length: a sinc with its cutoff at a quarter of the rate, under a
/// Kaiser window of shape 8 (about 80 dB of stopband, plenty for peak detection).
pub open spec fn halfband_of<T: PrcFmt>(len: int) -> Seq<T> {
    windowed_sinc_of(odd_len(len), T::s_dec(5, 1), T::s_dec(5, 1), T::s_int(8))
}

/// Kaiser-windowed sinc halfband prototype of length `len` (rounded up to odd), cutoff 0.25.
pub fn halfband_kaiser_prototype<T: PrcFmt>(len: usize) -> (h: Vec<T>)
    requires
        len < usize::MAX,
        len < i64::MAX,
    ensures
        h@ == halfband_of::<T>(len as int),
{
    let odd: usize = if len % 2 == 0 {
        len + 1
    } else {
        len
    };
    windowed_sinc(odd, T::decimal(5, 1), T::decimal(5, 1), T::of_int(8))
}

/// Every second coefficient of `h`, starting with the `phase`-th, padded with zero to
/// `h.len() / 2 + 1` coefficients.
pub open spec fn every_second<T: PrcFmt>(h: Seq<T>, phase: int) -> Seq<T> {
    Seq::new(
        (h.len() as int / 2 + 1) as nat,
        |i: int|
            if 2 * i + phase < h.len() {
                h[2 * i + phase]
            } else {
                s_zero()
            },
    )
}

/// The coefficients divided by their sum, for unity gain.
pub open spec fn unity_gain<T: PrcFmt>(h: Seq<T>) -> Seq<T> {
    Seq::new(h.len(), |i: int| h[i].s_div(sum_of(h, h.len() as int)))
}

/// The polyphase branch of the probe for one of the two phases.
pub open spec fn probe_branch<T: PrcFmt>(phase: int) -> Seq<T> {
    unity_gain(every_second(halfband_of::<T>(HALFBAND_TAPS as int), phase))
}

/// The inner product of the first `n` coefficients with a delay line.
pub open spec fn dot<T: PrcFmt>(coeffs: Seq<T>, line: Seq<T>, n: int) -> T
    decreases n,
{
    if n <= 0 {
        s_zero()
    } else {
        dot(coeffs, line, n - 1).s_add(coeffs[n - 1].s_mul(line[n - 1]))
    }
}

/// One stage of 2x interpolation: the two samples that a delay line gives.
pub open spec fn doubled<T: PrcFmt>(line: Seq<T>) -> (T, T) {
    let a = probe_branch::<T>(0);
    let b = probe_branch::<T>(1);
    (dot(a, line, a.len() as int), dot(b, line, b.len() as int))
}

/// `peak`, or the magnitude of `v` where that is larger.
pub open spec fn peak_with<T: PrcFmt>(peak: T, v: T) -> T {
    if peak.s_lt(v.s_abs()) {
        v.s_abs()
    } else {
        peak
    }
}

/// The second delay line after a sample has passed the first, which then holds `line1`: both
/// interpolated samples have been pushed in.
pub open spec fn line2_after<T: PrcFmt>(line1: Seq<T>, line2: Seq<T>) -> Seq<T> {
    pushed(pushed(line2, doubled(line1).0), doubled(line1).1)
}

/// The largest magnitude among the four upsampled samples.
pub open spec fn peak_of<T: PrcFmt>(line1: Seq<T>, line2: Seq<T>) -> T {
    let first = doubled(pushed(line2, doubled(line1).0));
    let second = doubled(line2_after(line1, line2));
    peak_with(peak_with(peak_with(peak_with(s_zero(), first.0), first.1), second.0), second.1)
}

/// 4x true-peak detector. For each input sample, returns the maximum abs value of the
/// corresponding 4 upsampled samples.
///
/// Implemented as a polyphase halfband filter applied twice (effective 4x). The prototype is a
/// Kaiser-windowed sinc at cutoff 0.25.
pub struct TruePeakProbe<T> {
    pub nbr_channels: usize,
    /// Polyphase coefficients for one stage of 2x interpolation.
    pub branch_a: Vec<T>,
    pub branch_b: Vec<T>,
    /// Per-channel state for each of the two 2x stages.
    pub state_stage1: Vec<Vec<T>>,
    pub state_stage2: Vec<Vec<T>>,
}

/// Splits off one polyphase branch and scales it to unity gain.
fn split_branch<T: PrcFmt>(proto: &Vec<T>, phase: usize) -> (r: Vec<T>)
    requires
        phase <= 1,
        proto@.len() < 1000,
    ensures
        r@ == unity_gain(every_second(proto@, phase as int)),
{
    let len: usize = proto.len();
    let mut r: Vec<T> = Vec::new();
    let mut i: usize = 0;
    while i < len / 2 + 1
        invariant
            i <= len / 2 + 1,
            len == proto@.len(),
            len < 1000,
            phase <= 1,
            r@.len() == i,
            forall|j: int|
                0 <= j < i ==> #[trigger] r@[j] == every_second(proto@, phase as int)[j],
        decreases len / 2 + 1 - i,
    {
        if 2 * i + phase < len {
            r.push(proto[2 * i + phase]);
        } else {
            r.push(T::of_int(0));
        }
        i += 1;
    }
    assert(r@ =~= every_second(proto@, phase as int));
    let ghost raw = r@;
    let total: T = sum(&r);
    let mut k: usize = 0;
    while k < r.len()
        invariant
            k <= r@.len(),
            r@.len() == raw.len(),
            forall|j: int|
                0 <= j < r@.len() ==> #[trigger] r@[j] == if j < k {
                    raw[j].s_div(total)
                } else {
                    raw[j]
                },
        decreases r@.len() - k,
    {
        r[k] = r[k].over(total);
        k += 1;
    }
    assert(r@ =~= unity_gain(raw));
    r
}

/// `n` delay lines of silence.
fn silent_lines<T: PrcFmt>(n: usize, len: usize) -> (r: Vec<Vec<T>>)
    ensures
        r@.len() == n,
        forall|ch: int| 0 <= ch < n ==> (#[trigger] r@[ch])@ == copies(len as nat, s_zero::<T>()),
{
    let mut r: Vec<Vec<T>> = Vec::new();
    let mut ch: usize = 0;
    while ch < n
        invariant
            ch <= n,
            r@.len() == ch,
            forall|k: int|
                0 <= k < ch ==> (#[trigger] r@[k])@ == copies(len as nat, s_zero::<T>()),
        decreases n - ch,
    {
        r.push(filled(len, T::of_int(0)));
        ch += 1;
    }
    r
}

/// Silences every delay line.
fn silence<T: PrcFmt>(lines: &mut Vec<Vec<T>>)
    ensures
        final(lines)@.len() == old(lines)@.len(),
        forall|ch: int|
            0 <= ch < old(lines)@.len() ==> (#[trigger] final(lines)@[ch])@ == copies(
                old(lines)@[ch]@.len(),
                s_zero::<T>(),
            ),
{
    let mut ch: usize = 0;
    while ch < lines.len()
        invariant
            ch <= lines@.len(),
            lines@.len() == old(lines)@.len(),
            forall|k: int|
                0 <= k < lines@.len() ==> (#[trigger] lines@[k])@ == if k < ch {
                    copies(old(lines)@[k]@.len(), s_zero::<T>())
                } else {
                    old(lines)@[k]@
                },
        decreases lines@.len() - ch,
    {
        fill(&mut lines[ch], T::of_int(0));
        ch += 1;
    }
}

impl<T: PrcFmt> TruePeakProbe<T> {
    /// What holds of a probe between calls.
    pub open spec fn wf(self) -> bool {
        &&& self.branch_a@ == probe_branch::<T>(0)
        &&& self.branch_b@ == probe_branch::<T>(1)
        &&& self.state_stage1@.len() == self.nbr_channels
        &&& self.state_stage2@.len() == self.nbr_channels
        &&& forall|ch: int|
            0 <= ch < self.nbr_channels ==> (#[trigger] self.state_stage1@[ch])@.len()
                == self.branch_a@.len()
        &&& forall|ch: int|
            0 <= ch < self.nbr_channels ==> (#[trigger] self.state_stage2@[ch])@.len()
                == self.branch_a@.len()
    }

    /// Whether the delay lines hold silence.
    pub open spec fn is_fresh(self) -> bool {
        &&& forall|ch: int|
            0 <= ch < self.nbr_channels ==> (#[trigger] self.state_stage1@[ch])@ == copies(
                self.branch_a@.len(),
                s_zero::<T>(),
            )
        &&& forall|ch: int|
            0 <= ch < self.nbr_channels ==> (#[trigger] self.state_stage2@[ch])@ == copies(
                self.branch_a@.len(),
                s_zero::<T>(),
            )
    }

    pub fn new(nbr_channels: usize) -> (r: Self)
        ensures
            r.wf(),
            r.is_fresh(),
            r.nbr_channels == nbr_channels,
    {
        let proto: Vec<T> = halfband_kaiser_prototype(HALFBAND_TAPS);
        let branch_a: Vec<T> = split_branch(&proto, 0);
        let branch_b: Vec<T> = split_branch(&proto, 1);
        let len: usize = branch_a.len();
        TruePeakProbe {
            nbr_channels,
            branch_a,
            branch_b,
            state_stage1: silent_lines(nbr_channels, len),
            state_stage2: silent_lines(nbr_channels, len),
        }
    }

    pub fn reset(&mut self)
        requires
            old(self).wf(),
        ensures
            final(self).wf(),
            final(self).is_fresh(),
            final(self).nbr_channels == old(self).nbr_channels,
    {
        silence(&mut self.state_stage1);
        silence(&mut self.state_stage2);
    }

    /// The two samples that one stage of interpolation gives.
    fn double(&self, line: &Vec<T>) -> (r: (T, T))
        requires
            self.wf(),
            line@.len() == self.branch_a@.len(),
        ensures
            r == doubled(line@),
    {
        let mut a: T = T::of_int(0);
        let mut b: T = T::of_int(0);
        let mut k: usize = 0;
        while k < self.branch_a.len()
            invariant
                k <= self.branch_a@.len(),
                self.wf(),
                line@.len() == self.branch_a@.len(),
                a == dot(self.branch_a@, line@, k as int),
                b == dot(self.branch_b@, line@, k as int),
            decreases self.branch_a@.len() - k,
        {
            a = a.plus(self.branch_a[k].times(line[k]));
            b = b.plus(self.branch_b[k].times(line[k]));
            k += 1;
        }
        (a, b)
    }

    /// Push one input sample for channel `ch` through the 4x upsampler. Returns the maximum
    /// absolute value among the 4 upsampled output samples.
    pub fn peak_of_sample(&mut self, ch: usize, v: T) -> (r: T)
        requires
            old(self).wf(),
            ch < old(self).nbr_channels,
        ensures
            final(self).wf(),
            final(self).nbr_channels == old(self).nbr_channels,
            final(self).state_stage1@[ch as int]@ == pushed(
                old(self).state_stage1@[ch as int]@,
                v,
            ),
            final(self).state_stage2@[ch as int]@ == line2_after(
                pushed(old(self).state_stage1@[ch as int]@, v),
                old(self).state_stage2@[ch as int]@,
            ),
            r == peak_of(
                pushed(old(self).state_stage1@[ch as int]@, v),
                old(self).state_stage2@[ch as int]@,
            ),
            forall|k: int|
                0 <= k < old(self).nbr_channels && k != ch
                    ==> #[trigger] final(self).state_stage1@[k] == old(self).state_stage1@[k],
            forall|k: int|
                0 <= k < old(self).nbr_channels && k != ch
                    ==> #[trigger] final(self).state_stage2@[k] == old(self).state_stage2@[k],
    {
        push_front(&mut self.state_stage1[ch], v);
        let stage1: (T, T) = self.double(&self.state_stage1[ch]);
        let mut peak: T = T::of_int(0);
        push_front(&mut self.state_stage2[ch], stage1.0);
        let first: (T, T) = self.double(&self.state_stage2[ch]);
        if peak.lt(first.0.abs()) {
            peak = first.0.abs();
        }
        if peak.lt(first.1.abs()) {
            peak = first.1.abs();
        }
        push_front(&mut self.state_stage2[ch], stage1.1);
        let second: (T, T) = self.double(&self.state_stage2[ch]);
        if peak.lt(second.0.abs()) {
            peak = second.0.abs();
        }
        if peak.lt(second.1.abs()) {
            peak = second.1.abs();
        }
        peak
    }
}

} // verus!
