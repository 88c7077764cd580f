//! Linear-phase polyphase FIR upsampler.
//!
//! Implements a fixed, exactly rational upsampling ratio. The output chunk size is fixed; the
//! input frame count varies per call.
//!
//! For input rate `fi` and output rate `fo` with `g = gcd(fi, fo)`, the branch count is
//! `L = fo / g` and every output sample advances the read position by exactly `step = fi / g`
//! units of `1/L` input samples. A long Kaiser-windowed sinc prototype of `taps * L + 1`
//! coefficients is designed at the upsampled rate `fi * L` and decomposed into `L` polyphase
//! branches `h_b[k] = h[k*L + b]`, so each output is a single `taps`-long inner product. There is
//! no branch interpolation and no phase drift: the phase is an integer pair `(sample, branch)`.
//!
//! The prototype is symmetric (`h[m] = h[N-1-m]`, `N-1 = taps*L`), which makes branch `b` the
//! time-reverse of branch `L-b`. Only `L/2 + 1` branches are stored and the mirrored ones are
//! evaluated with a forward-reading kernel. This halves the coefficient table.

use crate::arith::{copies, copied, fill, filled, monus, s_zero};
use crate::prcfmt::PrcFmt;
use crate::utils::resampling::design::{design_prototype, prototype_of};
use crate::utils::resampling::kernel::{
    backward_terms, convolve_backward, convolve_backward2, convolve_forward, convolve_forward2,
    forward_terms, four_lane_sum, tap_range, valid_tap_range,
};
use crate::utils::resampling::{
    frames, frames_of, frames_to_read, input_offset, mask_of, output_offset, same_shape, Indexing,
    ResampleError, Resampler,
};
use vstd::arithmetic::div_mod::{
    lemma_div_is_ordered, lemma_fundamental_div_mod, lemma_fundamental_div_mod_converse,
    lemma_mod_multiples_basic,
};
use vstd::prelude::*;
use vstd::slice::slice_subrange;

verus! {

/// Upper bound on the derived branch count. The count is the output rate over the greatest common
/// divisor of the rates, so this only rejects pathological rate pairs (44100 to 44101 would need
/// 44101 branches and tens of gigabytes of coefficients).
pub const MAX_OVERSAMPLING: usize = 2048;

/// Why an upsampler cannot be built.
#[derive(Clone, Copy, Debug, PartialEq, Eq, Structural)]
pub enum PolyphaseError {
    /// The taps, the chunk size and the channel count must all be above zero.
    ZeroParameter,
    /// The sample rates must be above zero.
    ZeroRate,
    /// The upsampler only upsamples, but the input rate is not below the output rate.
    NotUpsampling { input_rate: usize, output_rate: usize },
    /// The rates need more polyphase branches than the limit.
    TooManyBranches { input_rate: usize, output_rate: usize, oversampling: usize },
}

/// The greatest common divisor.
pub open spec fn s_gcd(a: int, b: int) -> int
    decreases b,
{
    if b <= 0 {
        a
    } else {
        s_gcd(b, a % b)
    }
}

/// Euclid's algorithm.
pub fn gcd(a: usize, b: usize) -> (r: usize)
    ensures
        r == s_gcd(a as int, b as int),
{
    let mut x: usize = a;
    let mut y: usize = b;
    while y != 0
        invariant
            s_gcd(a as int, b as int) == s_gcd(x as int, y as int),
        decreases y,
    {
        let t: usize = x % y;
        x = y;
        y = t;
    }
    x
}

proof fn lemma_divisor_of_combination(d: int, b: int, r: int, q: int)
    requires
        d > 0,
        b % d == 0,
        r % d == 0,
    ensures
        (b * q + r) % d == 0,
{
    lemma_fundamental_div_mod(b, d);
    lemma_fundamental_div_mod(r, d);
    let m = (b / d) * q + r / d;
    assert(b * q + r == m * d) by (nonlinear_arith)
        requires
            b == d * (b / d),
            r == d * (r / d),
            m == (b / d) * q + r / d,
    ;
    lemma_mod_multiples_basic(m, d);
}

/// The greatest common divisor is above zero and divides both numbers.
pub proof fn lemma_gcd_divides(a: int, b: int)
    requires
        0 < a,
        0 <= b,
    ensures
        0 < s_gcd(a, b) <= a,
        a % s_gcd(a, b) == 0,
        b % s_gcd(a, b) == 0,
    decreases b,
{
    if b > 0 {
        let g = s_gcd(a, b);
        if a % b == 0 {
            assert(s_gcd(b, 0) == b);
            assert(b % b == 0) by (nonlinear_arith)
                requires
                    b > 0,
            ;
            assert(b <= a) by (nonlinear_arith)
                requires
                    0 < a,
                    0 < b,
                    a % b == 0,
            ;
        } else {
            lemma_gcd_divides(b, a % b);
            lemma_fundamental_div_mod(a, b);
            lemma_divisor_of_combination(g, b, a % b, a / b);
            assert(g <= a) by {
                lemma_gcd_divides_bound(a, g);
            }
        }
    } else {
        assert(a % a == 0) by (nonlinear_arith)
            requires
                a > 0,
        ;
    }
}

proof fn lemma_gcd_divides_bound(a: int, g: int)
    requires
        0 < a,
        0 < g,
        a % g == 0,
    ensures
        g <= a,
{
    assert(g <= a) by (nonlinear_arith)
        requires
            0 < a,
            0 < g,
            a % g == 0,
    ;
}

/// Every common divisor of two numbers divides their greatest common divisor.
pub proof fn lemma_gcd_greatest(a: int, b: int, d: int)
    requires
        0 < a,
        0 <= b,
        0 < d,
        a % d == 0,
        b % d == 0,
    ensures
        s_gcd(a, b) % d == 0,
    decreases b,
{
    if b > 0 {
        lemma_fundamental_div_mod(a, b);
        lemma_divisor_of_combination(d, b, a, -(a / b));
        assert(a % b == b * (-(a / b)) + a) by (nonlinear_arith)
            requires
                a == b * (a / b) + a % b,
        ;
        lemma_gcd_greatest(b, a % b, d);
    }
}

/// The branch count and the phase step for a pair of rates, or why there are none.
pub open spec fn oversampling_for(input_rate: usize, output_rate: usize) -> Result<
    (usize, usize),
    PolyphaseError,
> {
    let g = s_gcd(input_rate as int, output_rate as int);
    if input_rate == 0 || output_rate == 0 {
        Err(PolyphaseError::ZeroRate)
    } else if output_rate <= input_rate {
        Err(PolyphaseError::NotUpsampling { input_rate, output_rate })
    } else if output_rate as int / g > MAX_OVERSAMPLING {
        Err(
            PolyphaseError::TooManyBranches {
                input_rate,
                output_rate,
                oversampling: (output_rate as int / g) as usize,
            },
        )
    } else {
        Ok(((output_rate as int / g) as usize, (input_rate as int / g) as usize))
    }
}

/// The branch count and the phase step are the ratio of the rates in lowest terms: the step lies
/// below the branch count, both rates are the same multiple of the two, and one is the only
/// number that divides both.
pub proof fn lemma_oversampling_is_reduced_ratio(input_rate: usize, output_rate: usize, d: int)
    ensures
        oversampling_for(input_rate, output_rate) matches Ok(pair) ==> {
            let g = s_gcd(input_rate as int, output_rate as int);
            &&& 0 < g
            &&& pair.0 * g == output_rate
            &&& pair.1 * g == input_rate
            &&& 1 <= pair.1 < pair.0 <= MAX_OVERSAMPLING
            &&& d > 0 && pair.0 as int % d == 0 && pair.1 as int % d == 0 ==> d == 1
        },
{
    if oversampling_for(input_rate, output_rate) is Ok {
        let i = input_rate as int;
        let o = output_rate as int;
        let g = s_gcd(i, o);
        lemma_gcd_divides(i, o);
        lemma_fundamental_div_mod(i, g);
        lemma_fundamental_div_mod(o, g);
        let l = o / g;
        let s = i / g;
        assert(l * g == o && s * g == i && 1 <= s && s < l && l <= o) by (nonlinear_arith)
            requires
                0 < g,
                0 < i,
                i < o,
                o == g * l,
                i == g * s,
        ;
        if d > 0 && l % d == 0 && s % d == 0 {
            lemma_fundamental_div_mod(l, d);
            lemma_fundamental_div_mod(s, d);
            let dg = d * g;
            assert(o == (l / d) * dg && i == (s / d) * dg && dg > 0) by (nonlinear_arith)
                requires
                    o == g * l,
                    i == g * s,
                    l == d * (l / d),
                    s == d * (s / d),
                    dg == d * g,
                    d > 0,
                    g > 0,
            ;
            lemma_mod_multiples_basic(l / d, dg);
            lemma_mod_multiples_basic(s / d, dg);
            lemma_gcd_greatest(i, o, dg);
            lemma_gcd_divides_bound(g, dg);
            assert(d == 1) by (nonlinear_arith)
                requires
                    d > 0,
                    g > 0,
                    d * g <= g,
            ;
        }
    }
}

/// Branch count and per-output phase step for an exact rational upsampling ratio: returns
/// `(oversampling, step)`.
pub fn derived_oversampling(input_rate: usize, output_rate: usize) -> (r: Result<
    (usize, usize),
    PolyphaseError,
>)
    ensures
        r == oversampling_for(input_rate, output_rate),
{
    if input_rate == 0 || output_rate == 0 {
        return Err(PolyphaseError::ZeroRate);
    }
    if output_rate <= input_rate {
        return Err(PolyphaseError::NotUpsampling { input_rate, output_rate });
    }
    let g: usize = gcd(input_rate, output_rate);
    proof {
        lemma_gcd_divides(input_rate as int, output_rate as int);
    }
    let oversampling: usize = output_rate / g;
    let step: usize = input_rate / g;
    if oversampling > MAX_OVERSAMPLING {
        return Err(PolyphaseError::TooManyBranches { input_rate, output_rate, oversampling });
    }
    Ok((oversampling, step))
}

// ------------------------------- Engine -------------------------------

/// A long linear-phase FIR upsampler built from a Kaiser-windowed sinc prototype, decomposed into
/// `oversampling` polyphase branches. The ratio is fixed at construction.
pub struct PolyphaseFir<T> {
    pub nbr_channels: usize,
    /// Number of taps per polyphase branch.
    pub taps: usize,
    /// Polyphase factor (number of branches), derived from the rate ratio.
    pub oversampling: usize,
    /// Phase advance per output sample, in units of `1 / oversampling` input samples. Always
    /// below `oversampling` because this engine only upsamples.
    pub step: usize,
    /// The output rate over the input rate.
    pub resample_ratio: T,
    /// Per-channel input history. Length is `max_buffer_len`.
    pub buffers: Vec<Vec<T>>,
    /// How many valid input samples sit at the start of each buffer.
    pub buffer_fill: usize,
    /// Input-sample index within `buffers` of the next output sample.
    pub next_sample: usize,
    /// Polyphase branch of the next output sample, in `0..oversampling`.
    pub next_branch: usize,
    /// The lower half of the branch table, `oversampling / 2 + 1` branches of `taps` coefficients
    /// each, flattened for locality. Branches above `oversampling / 2` are the time-reverse of
    /// `oversampling - b` and are not stored.
    pub branches: Vec<T>,
    /// Output frames produced per call (fixed).
    pub chunk_size: usize,
    /// Allocated length of each channel buffer.
    pub max_buffer_len: usize,
    /// Channel-active mask. Inactive channels are not processed.
    pub channel_mask: Vec<bool>,
    /// Indices of the active channels, rebuilt from `channel_mask` on every call so the output
    /// loop can walk them in pairs.
    pub active_channels: Vec<usize>,
    /// Steady-state group delay in output frames, rounded down: `taps * oversampling / 2` samples
    /// at the upsampled rate, the distance of the prototype's centre from its start.
    pub output_delay_samples: usize,
}

/// The stored half of the branch table: branch after branch, branch `b` with the coefficients
/// `h[k*L + b]`.
pub open spec fn branch_table<T>(h: Seq<T>, taps: int, l: int) -> Seq<T> {
    Seq::new(((l / 2 + 1) * taps) as nat, |i: int| h[(i % taps) * l + i / taps])
}

/// The output sample of branch `branch` with the input history that ends at `n_p`. A stored branch
/// is read forwards and the input backwards; for the others the mirrored stored branch and the
/// input are both read forwards.
pub open spec fn output_of<T: PrcFmt>(
    branches: Seq<T>,
    taps: int,
    l: int,
    buf: Seq<T>,
    branch: int,
    n_p: int,
) -> T {
    let (k_start, k_end) = tap_range(n_p, buf.len() as int, taps);
    if k_start >= k_end {
        s_zero()
    } else if branch * 2 <= l {
        four_lane_sum(
            backward_terms(
                branches.subrange(branch * taps, branch * taps + taps),
                buf,
                n_p,
                k_start,
                k_end,
            ),
        )
    } else {
        let base = (l - branch) * taps;
        four_lane_sum(
            forward_terms(
                branches.subrange(base + taps - k_end, base + taps - k_start),
                buf.subrange(n_p + 1 - k_end, n_p + 1 - k_start),
            ),
        )
    }
}

/// Room for the history that the convolution reads back over and for the most input frames that
/// one call can need.
pub open spec fn buffer_len_for(chunk_size: int, taps: int, l: int, step: int) -> int {
    taps + ((chunk_size * step + l - 1) / l + 2) + 4
}

/// Whether the tables and buffers of an upsampler can be addressed.
pub open spec fn sizes_fit(chunk_size: int, taps: int, l: int, step: int) -> bool {
    &&& taps * l < usize::MAX
    &&& taps * l < i64::MAX
    &&& chunk_size * step + l <= usize::MAX
    &&& buffer_len_for(chunk_size, taps, l, step) < usize::MAX
}

/// What keeps an upsampler from being built, if anything.
pub open spec fn construction_error(
    input_rate: usize,
    output_rate: usize,
    chunk_size: usize,
    nbr_channels: usize,
    taps: usize,
) -> Option<PolyphaseError> {
    if taps == 0 || chunk_size == 0 || nbr_channels == 0 {
        Some(PolyphaseError::ZeroParameter)
    } else {
        match oversampling_for(input_rate, output_rate) {
            Err(e) => Some(e),
            Ok(_) => None,
        }
    }
}

/// The history of one channel after a call has taken in its input: `needed` samples behind the
/// `fill` that are there, of which `read` come from `wave` and the rest are silence. A channel
/// that is not active contributes silence, and its history is silenced with it so that stale
/// samples cannot reappear when it becomes active.
pub open spec fn history_after<T: PrcFmt>(
    buf: Seq<T>,
    fill: int,
    needed: int,
    read: int,
    active: bool,
    wave: Seq<T>,
    offset: int,
) -> Seq<T> {
    Seq::new(
        buf.len(),
        |j: int|
            if j >= fill + needed {
                buf[j]
            } else if !active || j >= fill + read {
                s_zero()
            } else if j >= fill {
                wave[offset + (j - fill)]
            } else {
                buf[j]
            },
    )
}

/// A history with `fill` valid samples after the first `consumed` have been dropped.
pub open spec fn slid<T: PrcFmt>(buf: Seq<T>, consumed: int, fill: int) -> Seq<T> {
    Seq::new(
        buf.len(),
        |j: int|
            if j < fill - consumed {
                buf[j + consumed]
            } else if j < fill {
                s_zero()
            } else {
                buf[j]
            },
    )
}

/// Whether `list` holds exactly the channels that are active, in rising order.
pub open spec fn lists_active(list: Seq<usize>, mask: Seq<bool>) -> bool {
    &&& forall|k: int| 0 <= k < list.len() ==> (#[trigger] list[k]) < mask.len() && mask[list[k] as int]
    &&& forall|j: int, k: int| 0 <= j < k < list.len() ==> list[j] < list[k]
    &&& forall|ch: int|
        0 <= ch < mask.len() && #[trigger] mask[ch] ==> exists|k: int|
            0 <= k < list.len() && list[k] == ch
}

/// The first channel that has not been written after `k` of the active channels have.
pub open spec fn next_unwritten(list: Seq<usize>, k: int, channels: int) -> int {
    if k < list.len() {
        list[k] as int
    } else {
        channels
    }
}

/// Between two active channels that follow each other in the list there is no other.
proof fn lemma_no_active_between(list: Seq<usize>, mask: Seq<bool>, k: int, ch: int)
    requires
        lists_active(list, mask),
        0 <= k < list.len(),
        list[k] < ch < next_unwritten(list, k + 1, mask.len() as int),
    ensures
        !mask[ch],
{
    if mask[ch] {
        let j = choose|j: int| 0 <= j < list.len() && list[j] == ch;
        assert(list[j] == ch);
        if j <= k {
            assert(j < k ==> list[j] < list[k]);
        } else if j > k + 1 {
            assert(list[k + 1] < list[j]);
        }
    }
}

proof fn lemma_none_before_first(list: Seq<usize>, mask: Seq<bool>, ch: int)
    requires
        lists_active(list, mask),
        0 <= ch < next_unwritten(list, 0, mask.len() as int),
    ensures
        !mask[ch],
{
    if mask[ch] {
        let j = choose|j: int| 0 <= j < list.len() && list[j] == ch;
        assert(list[j] == ch);
        assert(j > 0 ==> list[0] < list[j]);
    }
}

/// Lists the active channels.
fn list_active(mask: &Vec<bool>, list: &mut Vec<usize>)
    ensures
        lists_active(final(list)@, mask@),
{
    list.clear();
    let mut ch: usize = 0;
    while ch < mask.len()
        invariant
            ch <= mask@.len(),
            forall|k: int| 0 <= k < list@.len() ==> (#[trigger] list@[k]) < ch && mask@[list@[k] as int],
            forall|j: int, k: int| 0 <= j < k < list@.len() ==> list@[j] < list@[k],
            forall|c: int|
                0 <= c < ch && #[trigger] mask@[c] ==> exists|k: int|
                    0 <= k < list@.len() && list@[k] == c,
        decreases mask@.len() - ch,
    {
        let ghost before = list@;
        if mask[ch] {
            list.push(ch);
        }
        assert forall|c: int| 0 <= c < ch + 1 && #[trigger] mask@[c] implies exists|k: int|
            0 <= k < list@.len() && list@[k] == c by {
            if c == ch {
                assert(list@[list@.len() - 1] == c);
            } else {
                let k = choose|k: int| 0 <= k < before.len() && before[k] == c;
                assert(list@[k] == c);
            }
        }
        ch += 1;
    }
}

impl<T: PrcFmt> PolyphaseFir<T> {
    /// What is fixed at construction.
    pub open spec fn design_wf(&self) -> bool {
        &&& self.nbr_channels > 0
        &&& self.taps > 0
        &&& self.chunk_size > 0
        &&& 1 <= self.step < self.oversampling <= MAX_OVERSAMPLING
        &&& sizes_fit(
            self.chunk_size as int,
            self.taps as int,
            self.oversampling as int,
            self.step as int,
        )
        &&& self.max_buffer_len == buffer_len_for(
            self.chunk_size as int,
            self.taps as int,
            self.oversampling as int,
            self.step as int,
        )
        &&& self.branches@ == branch_table(
            prototype_of::<T>(self.taps as int, self.oversampling as int),
            self.taps as int,
            self.oversampling as int,
        )
    }

    /// What holds of the history and the phase between calls. At most one valid sample lies at or
    /// behind the next output position, and at most `taps` before it.
    pub open spec fn state_wf(&self) -> bool {
        &&& self.buffers@.len() == self.nbr_channels
        &&& forall|ch: int|
            0 <= ch < self.nbr_channels ==> (#[trigger] self.buffers@[ch])@.len()
                == self.max_buffer_len
        &&& self.channel_mask@.len() == self.nbr_channels
        &&& self.next_branch < self.oversampling
        &&& self.next_sample <= self.taps
        &&& self.next_sample <= self.buffer_fill <= self.next_sample + 1
    }

    /// Whether `self` was built as `other` was.
    pub open spec fn same_design(&self, other: &Self) -> bool {
        &&& self.nbr_channels == other.nbr_channels
        &&& self.taps == other.taps
        &&& self.oversampling == other.oversampling
        &&& self.step == other.step
        &&& self.resample_ratio == other.resample_ratio
        &&& self.branches@ == other.branches@
        &&& self.chunk_size == other.chunk_size
        &&& self.max_buffer_len == other.max_buffer_len
        &&& self.output_delay_samples == other.output_delay_samples
    }

    /// The phase after `i` output samples, in units of `1 / oversampling` input samples, counted
    /// from the input sample that is next now.
    pub open spec fn phase_at(&self, i: int) -> int {
        self.next_branch + i * self.step
    }

    /// The input sample of output sample `i` of the next chunk.
    pub open spec fn sample_at(&self, i: int) -> int {
        self.next_sample + self.phase_at(i) / self.oversampling as int
    }

    /// The branch of output sample `i` of the next chunk.
    pub open spec fn branch_at(&self, i: int) -> int {
        self.phase_at(i) % self.oversampling as int
    }

    /// How many input frames the next chunk needs.
    pub open spec fn needed(&self) -> int {
        monus(self.sample_at(self.chunk_size - 1) + 1, self.buffer_fill as int)
    }

    /// How many samples of history are dropped at the end of the next chunk, so that `taps` remain
    /// before the output position.
    pub open spec fn consumed(&self) -> int {
        monus(self.sample_at(self.chunk_size as int), self.taps as int)
    }

    /// What is wrong with the buffers, if anything.
    pub open spec fn buffer_error(
        &self,
        buffer_in: Seq<Vec<T>>,
        buffer_out: Seq<Vec<T>>,
        indexing: Option<&Indexing>,
    ) -> Option<ResampleError> {
        let end_in = input_offset(indexing) + frames_to_read(indexing, self.needed());
        let end_out = output_offset(indexing) + self.chunk_size;
        if buffer_in.len() != self.nbr_channels {
            Some(
                ResampleError::WrongNumberOfInputChannels {
                    expected: self.nbr_channels,
                    actual: buffer_in.len() as usize,
                },
            )
        } else if buffer_out.len() != self.nbr_channels {
            Some(
                ResampleError::WrongNumberOfOutputChannels {
                    expected: self.nbr_channels,
                    actual: buffer_out.len() as usize,
                },
            )
        } else if frames_of(buffer_in) < end_in {
            Some(
                ResampleError::InsufficientInputBufferSize {
                    expected: end_in as usize,
                    actual: frames_of(buffer_in) as usize,
                },
            )
        } else if frames_of(buffer_out) < end_out {
            Some(
                ResampleError::InsufficientOutputBufferSize {
                    expected: end_out as usize,
                    actual: frames_of(buffer_out) as usize,
                },
            )
        } else {
            None
        }
    }

    /// The history of channel `ch` that the next chunk is computed from.
    pub open spec fn history(
        &self,
        ch: int,
        buffer_in: Seq<Vec<T>>,
        indexing: Option<&Indexing>,
    ) -> Seq<T> {
        history_after(
            self.buffers@[ch]@,
            self.buffer_fill as int,
            self.needed(),
            frames_to_read(indexing, self.needed()),
            mask_of(indexing, self.nbr_channels as nat)[ch],
            buffer_in[ch]@,
            input_offset(indexing),
        )
    }

    /// Output sample `i` of the next chunk on channel `ch`.
    pub open spec fn output_at(
        &self,
        ch: int,
        i: int,
        buffer_in: Seq<Vec<T>>,
        indexing: Option<&Indexing>,
    ) -> T {
        output_of(
            self.branches@,
            self.taps as int,
            self.oversampling as int,
            self.history(ch, buffer_in, indexing),
            self.branch_at(i),
            self.sample_at(i),
        )
    }

    /// The samples of the next chunk lie in the history, one after the other, and the buffers have
    /// room for it.
    pub proof fn lemma_positions(&self, i: int)
        requires
            self.design_wf(),
            self.state_wf(),
            0 <= i < self.chunk_size,
        ensures
            self.buffer_fill + self.needed() == self.sample_at(self.chunk_size - 1) + 1,
            self.buffer_fill + self.needed() <= self.max_buffer_len,
            0 <= self.needed(),
            self.next_sample <= self.sample_at(i) < self.buffer_fill + self.needed(),
            self.sample_at(self.chunk_size - 1) <= self.sample_at(self.chunk_size as int),
            self.sample_at(self.chunk_size as int) <= self.sample_at(self.chunk_size - 1) + 1,
            0 <= self.phase_at(i) <= self.phase_at(self.chunk_size - 1),
            self.phase_at(self.chunk_size - 1) < self.chunk_size * self.step + self.oversampling,
    {
        let l = self.oversampling as int;
        let c = self.chunk_size as int;
        let step = self.step as int;
        let last = self.phase_at(c - 1);
        assert(0 <= i * step <= (c - 1) * step && (c - 1) * step + step == c * step)
            by (nonlinear_arith)
            requires
                0 <= i < c,
                1 <= step,
        ;
        lemma_div_is_ordered(self.phase_at(i), last, l);
        lemma_div_is_ordered(0, self.phase_at(i), l);
        lemma_div_is_ordered(0, last, l);
        lemma_div_is_ordered(last, c * step + l - 1, l);
        lemma_div_is_ordered(last, last + step, l);
        lemma_div_is_ordered(last + step, last + l, l);
        assert(0int / l == 0) by (nonlinear_arith)
            requires
                l > 0,
        ;
        assert((last + l) / l == last / l + 1) by {
            lemma_fundamental_div_mod(last, l);
            assert(last + l == (last / l + 1) * l + last % l) by (nonlinear_arith)
                requires
                    last == l * (last / l) + last % l,
            ;
            lemma_fundamental_div_mod_converse(last + l, l, last / l + 1, last % l);
        }
        assert(self.phase_at(c) == last + step);
    }

    /// A chunk that spans whole input samples, from a position on a whole sample, needs exactly
    /// those and ends on a whole sample.
    pub proof fn lemma_whole_samples(&self, read: int)
        requires
            self.design_wf(),
            self.state_wf(),
            read * self.oversampling == self.chunk_size * self.step,
            self.next_branch == 0,
            self.buffer_fill == self.next_sample,
        ensures
            self.needed() == read,
            self.sample_at(self.chunk_size as int) == self.next_sample + read,
            self.branch_at(self.chunk_size as int) == 0,
    {
        let l = self.oversampling as int;
        let c = self.chunk_size as int;
        let step = self.step as int;
        assert(read >= 1 && (c - 1) * step == (read - 1) * l + (l - step)) by (nonlinear_arith)
            requires
                read * l == c * step,
                c >= 1,
                step >= 1,
                l >= 1,
        ;
        lemma_fundamental_div_mod_converse(self.phase_at(c), l, read, 0);
        lemma_fundamental_div_mod_converse(self.phase_at(c - 1), l, read - 1, l - step);
    }

    /// Number of input frames required for the next call to produce `chunk_size` output frames.
    /// The convolution also reads backwards over up to `taps` past samples, but those are already
    /// in the buffer (or are zeros during priming), so only the forward reach counts.
    fn input_needed(&self) -> (r: usize)
        requires
            self.design_wf(),
            self.state_wf(),
        ensures
            r == self.needed(),
    {
        proof {
            self.lemma_positions(0);
        }
        assert((self.chunk_size - 1) * self.step <= self.chunk_size * self.step)
            by (nonlinear_arith)
            requires
                self.chunk_size > 0,
                self.step >= 1,
        ;
        let last_up: usize = self.next_branch + (self.chunk_size - 1) * self.step;
        let last_n: usize = self.next_sample + last_up / self.oversampling;
        (last_n + 1).saturating_sub(self.buffer_fill)
    }

    proof fn lemma_branch_bounds(&self, b: int)
        requires
            self.design_wf(),
            0 <= b <= self.oversampling as int / 2,
        ensures
            0 <= b * self.taps,
            b * self.taps + self.taps <= self.branches@.len(),
    {
        let half = self.oversampling as int / 2;
        assert(0 <= b * self.taps && b * self.taps + self.taps <= (half + 1) * self.taps)
            by (nonlinear_arith)
            requires
                0 <= b <= half,
                self.taps > 0,
        ;
    }

    /// Evaluate one output sample: the inner product of polyphase branch `branch` with the input
    /// history ending at `n_p`.
    pub fn eval(&self, buf: &[T], branch: usize, n_p: usize) -> (r: T)
        requires
            self.design_wf(),
            branch < self.oversampling,
            n_p < usize::MAX,
        ensures
            r == output_of(
                self.branches@,
                self.taps as int,
                self.oversampling as int,
                buf@,
                branch as int,
                n_p as int,
            ),
    {
        let taps: usize = self.taps;
        let (k_start, k_end): (usize, usize) = valid_tap_range(n_p, buf.len(), taps);
        if k_start >= k_end {
            return T::of_int(0);
        }
        let table: &[T] = self.branches.as_slice();
        if branch * 2 <= self.oversampling {
            proof {
                self.lemma_branch_bounds(branch as int);
            }
            assert(table.len() >= branch * taps + taps);
            let coeffs: &[T] = slice_subrange(table, branch * taps, branch * taps + taps);
            convolve_backward(coeffs, buf, n_p, k_start, k_end)
        } else {
            let mirrored: usize = self.oversampling - branch;
            proof {
                self.lemma_branch_bounds(mirrored as int);
            }
            assert(table.len() >= mirrored * taps + taps);
            let base: usize = mirrored * taps;
            let coeffs: &[T] = slice_subrange(table, base + taps - k_end, base + taps - k_start);
            let samples: &[T] = slice_subrange(buf, n_p + 1 - k_end, n_p + 1 - k_start);
            convolve_forward(coeffs, samples)
        }
    }

    /// [`Self::eval`] for two channels at once, sharing the coefficient loads. Every channel of an
    /// output frame uses the same branch at the same input index. The per-channel summation order
    /// is unchanged, so the results are those of two single evaluations.
    pub fn eval2(&self, buf0: &[T], buf1: &[T], branch: usize, n_p: usize) -> (r: (T, T))
        requires
            self.design_wf(),
            branch < self.oversampling,
            n_p < usize::MAX,
            buf0@.len() == buf1@.len(),
        ensures
            r.0 == output_of(
                self.branches@,
                self.taps as int,
                self.oversampling as int,
                buf0@,
                branch as int,
                n_p as int,
            ),
            r.1 == output_of(
                self.branches@,
                self.taps as int,
                self.oversampling as int,
                buf1@,
                branch as int,
                n_p as int,
            ),
    {
        let taps: usize = self.taps;
        let (k_start, k_end): (usize, usize) = valid_tap_range(n_p, buf0.len(), taps);
        if k_start >= k_end {
            return (T::of_int(0), T::of_int(0));
        }
        let table: &[T] = self.branches.as_slice();
        if branch * 2 <= self.oversampling {
            proof {
                self.lemma_branch_bounds(branch as int);
            }
            assert(table.len() >= branch * taps + taps);
            let coeffs: &[T] = slice_subrange(table, branch * taps, branch * taps + taps);
            convolve_backward2(coeffs, buf0, buf1, n_p, k_start, k_end)
        } else {
            let mirrored: usize = self.oversampling - branch;
            proof {
                self.lemma_branch_bounds(mirrored as int);
            }
            assert(table.len() >= mirrored * taps + taps);
            let base: usize = mirrored * taps;
            let coeffs: &[T] = slice_subrange(table, base + taps - k_end, base + taps - k_start);
            let samples0: &[T] = slice_subrange(buf0, n_p + 1 - k_end, n_p + 1 - k_start);
            let samples1: &[T] = slice_subrange(buf1, n_p + 1 - k_end, n_p + 1 - k_start);
            convolve_forward2(coeffs, samples0, samples1)
        }
    }

    /// Construct a new polyphase FIR upsampler.
    ///
    /// * `input_rate` / `output_rate` set the ratio, fixed for the lifetime of the engine.
    ///   `output_rate` must be strictly greater than `input_rate`.
    /// * `chunk_size` is the number of output frames per call.
    /// * `taps` is the per-branch tap count.
    pub fn new(
        input_rate: usize,
        output_rate: usize,
        chunk_size: usize,
        nbr_channels: usize,
        taps: usize,
    ) -> (r: Result<Self, PolyphaseError>)
        requires
            oversampling_for(input_rate, output_rate) matches Ok(pair) ==> sizes_fit(
                chunk_size as int,
                taps as int,
                pair.0 as int,
                pair.1 as int,
            ),
        ensures
            match construction_error(input_rate, output_rate, chunk_size, nbr_channels, taps) {
                Some(e) => r is Err && r->Err_0 == e,
                None => {
                    let pair = oversampling_for(input_rate, output_rate)->Ok_0;
                    let fir = r->Ok_0;
                    &&& r is Ok
                    &&& fir.design_wf()
                    &&& fir.state_wf()
                    &&& fir.nbr_channels == nbr_channels
                    &&& fir.taps == taps
                    &&& fir.chunk_size == chunk_size
                    &&& fir.oversampling == pair.0
                    &&& fir.step == pair.1
                    &&& fir.resample_ratio == T::s_int(output_rate as int).s_div(
                        T::s_int(input_rate as int),
                    )
                    &&& fir.output_delay_samples == (taps * pair.0) / (2 * pair.1)
                    &&& fir.is_fresh()
                },
            },
    {
        if taps == 0 || chunk_size == 0 || nbr_channels == 0 {
            return Err(PolyphaseError::ZeroParameter);
        }
        let (oversampling, step): (usize, usize) = match derived_oversampling(
            input_rate,
            output_rate,
        ) {
            Ok(pair) => pair,
            Err(e) => {
                return Err(e);
            },
        };
        proof {
            lemma_oversampling_is_reduced_ratio(input_rate, output_rate, 1);
        }
        let resample_ratio: T = T::of_usize(output_rate).over(T::of_usize(input_rate));
        let prototype: Vec<T> = design_prototype(taps, oversampling);
        let branches: Vec<T> = build_branches(&prototype, taps, oversampling);
        assert(chunk_size * step >= 0) by (nonlinear_arith);
        let max_in_per_call: usize = (chunk_size * step + oversampling - 1) / oversampling + 2;
        let max_buffer_len: usize = taps + max_in_per_call + 4;
        let zero: T = T::of_int(0);
        let mut buffers: Vec<Vec<T>> = Vec::new();
        let mut ch: usize = 0;
        while ch < nbr_channels
            invariant
                ch <= nbr_channels,
                zero == s_zero::<T>(),
                buffers@.len() == ch,
                forall|k: int|
                    0 <= k < ch ==> (#[trigger] buffers@[k])@ == copies(
                        max_buffer_len as nat,
                        s_zero::<T>(),
                    ),
            decreases nbr_channels - ch,
        {
            buffers.push(filled(max_buffer_len, zero));
            ch += 1;
        }
        let output_delay_samples: usize = taps * oversampling / (2 * step);
        Ok(
            PolyphaseFir {
                nbr_channels,
                taps,
                oversampling,
                step,
                resample_ratio,
                buffers,
                buffer_fill: 0,
                next_sample: 0,
                next_branch: 0,
                branches,
                chunk_size,
                max_buffer_len,
                channel_mask: filled(nbr_channels, true),
                active_channels: Vec::with_capacity(nbr_channels),
                output_delay_samples,
            },
        )
    }

    /// Whether no audio has been seen yet.
    pub open spec fn is_fresh(&self) -> bool {
        &&& self.buffer_fill == 0
        &&& self.next_sample == 0
        &&& self.next_branch == 0
        &&& self.channel_mask@ == copies(self.nbr_channels as nat, true)
        &&& forall|ch: int|
            0 <= ch < self.nbr_channels ==> (#[trigger] self.buffers@[ch])@ == copies(
                self.max_buffer_len as nat,
                s_zero::<T>(),
            )
    }

    /// Takes over the active-channel mask.
    fn apply_mask(&mut self, indexing: Option<&Indexing>)
        requires
            old(self).state_wf(),
            mask_of(indexing, old(self).nbr_channels as nat).len() == old(self).nbr_channels,
        ensures
            *final(self) == (PolyphaseFir {
                channel_mask: final(self).channel_mask,
                active_channels: final(self).active_channels,
                ..*old(self)
            }),
            final(self).channel_mask@ == mask_of(indexing, old(self).nbr_channels as nat),
            lists_active(final(self).active_channels@, final(self).channel_mask@),
    {
        let ghost all = Seq::new(self.nbr_channels as nat, |ch: int| true);
        let given: Option<&Vec<bool>> = match indexing {
            Some(idx) => idx.active_channels_mask.as_ref(),
            None => None,
        };
        match given {
            Some(mask) => {
                self.channel_mask = copied(mask.as_slice());
            },
            None => {
                fill(&mut self.channel_mask, true);
                assert(self.channel_mask@ =~= all);
            },
        }
        list_active(&self.channel_mask, &mut self.active_channels);
    }

    /// Takes `needed` input frames into the history of channel `ch`, of which `read` are in `wave`.
    fn take_channel(
        &mut self,
        ch: usize,
        wave: &Vec<T>,
        offset: usize,
        needed: usize,
        read: usize,
    )
        requires
            old(self).state_wf(),
            ch < old(self).nbr_channels,
            read <= needed,
            old(self).buffer_fill + needed <= old(self).max_buffer_len,
            old(self).channel_mask@[ch as int] ==> offset + read <= wave@.len(),
        ensures
            final(self).state_wf(),
            *final(self) == (PolyphaseFir { buffers: final(self).buffers, ..*old(self) }),
            final(self).buffers@[ch as int]@ == history_after(
                old(self).buffers@[ch as int]@,
                old(self).buffer_fill as int,
                needed as int,
                read as int,
                old(self).channel_mask@[ch as int],
                wave@,
                offset as int,
            ),
            forall|k: int|
                0 <= k < old(self).nbr_channels && k != ch ==> #[trigger] final(self).buffers@[k]
                    == old(self).buffers@[k],
    {
        let active: bool = self.channel_mask[ch];
        let from: usize = self.buffer_fill;
        let to: usize = self.buffer_fill + needed;
        let zero: T = T::of_int(0);
        let ghost before = self.buffers@[ch as int]@;
        let buf: &mut Vec<T> = &mut self.buffers[ch];
        let mut j: usize = if active {
            from
        } else {
            0
        };
        while j < to
            invariant
                j <= to <= buf@.len(),
                from <= to,
                to == from + needed,
                read <= needed,
                active ==> from <= j && offset + read <= wave.len(),
                zero == s_zero::<T>(),
                buf@.len() == before.len(),
                forall|i: int| j <= i < buf@.len() ==> #[trigger] buf@[i] == before[i],
                forall|i: int|
                    0 <= i < j ==> #[trigger] buf@[i] == history_after(
                        before,
                        from as int,
                        needed as int,
                        read as int,
                        active,
                        wave@,
                        offset as int,
                    )[i],
            decreases to - j,
        {
            buf[j] = if active && j < from + read {
                wave[offset + (j - from)]
            } else {
                zero
            };
            j += 1;
        }
        assert(buf@ =~= history_after(
            before,
            from as int,
            needed as int,
            read as int,
            active,
            wave@,
            offset as int,
        ));
    }

    /// Writes one output frame on every active channel. Active channels are walked in pairs so
    /// that each coefficient load serves two channels; an odd channel takes the single path.
    fn write_frame(&self, buffer_out: &mut Vec<Vec<T>>, at: usize, branch: usize, n_p: usize)
        requires
            self.design_wf(),
            self.buffers@.len() == self.nbr_channels,
            forall|ch: int|
                0 <= ch < self.nbr_channels ==> (#[trigger] self.buffers@[ch])@.len()
                    == self.max_buffer_len,
            self.channel_mask@.len() == self.nbr_channels,
            lists_active(self.active_channels@, self.channel_mask@),
            branch < self.oversampling,
            n_p < usize::MAX,
            old(buffer_out)@.len() == self.nbr_channels,
            forall|ch: int|
                0 <= ch < self.nbr_channels ==> at < (#[trigger] old(buffer_out)@[ch])@.len(),
        ensures
            final(buffer_out)@.len() == self.nbr_channels,
            forall|ch: int|
                0 <= ch < self.nbr_channels ==> (#[trigger] final(buffer_out)@[ch])@
                    == if self.channel_mask@[ch] {
                    old(buffer_out)@[ch]@.update(
                        at as int,
                        output_of(
                            self.branches@,
                            self.taps as int,
                            self.oversampling as int,
                            self.buffers@[ch]@,
                            branch as int,
                            n_p as int,
                        ),
                    )
                } else {
                    old(buffer_out)@[ch]@
                },
    {
        let list: &Vec<usize> = &self.active_channels;
        let ghost mask = self.channel_mask@;
        let ghost n = self.nbr_channels as int;
        let mut k: usize = 0;
        proof {
            assert forall|ch: int| 0 <= ch < next_unwritten(list@, 0, n) implies !mask[ch] by {
                lemma_none_before_first(list@, mask, ch);
            }
        }
        while list.len() - k > 1
            invariant
                k <= list@.len(),
                list@ == self.active_channels@,
                mask == self.channel_mask@,
                n == self.nbr_channels,
                self.design_wf(),
                self.buffers@.len() == n,
                forall|ch: int|
                    0 <= ch < n ==> (#[trigger] self.buffers@[ch])@.len() == self.max_buffer_len,
                mask.len() == n,
                lists_active(list@, mask),
                branch < self.oversampling,
                n_p < usize::MAX,
                buffer_out@.len() == n,
                old(buffer_out)@.len() == n,
                forall|ch: int|
                    0 <= ch < n ==> at < (#[trigger] old(buffer_out)@[ch])@.len(),
                forall|ch: int|
                    0 <= ch < n ==> (#[trigger] buffer_out@[ch])@ == if mask[ch] && ch
                        < next_unwritten(list@, k as int, n) {
                        old(buffer_out)@[ch]@.update(
                            at as int,
                            output_of(
                                self.branches@,
                                self.taps as int,
                                self.oversampling as int,
                                self.buffers@[ch]@,
                                branch as int,
                                n_p as int,
                            ),
                        )
                    } else {
                        old(buffer_out)@[ch]@
                    },
            decreases list@.len() - k,
        {
            let ch0: usize = list[k];
            let ch1: usize = list[k + 1];
            assert(ch0 < ch1);
            let (y0, y1): (T, T) = self.eval2(
                self.buffers[ch0].as_slice(),
                self.buffers[ch1].as_slice(),
                branch,
                n_p,
            );
            buffer_out[ch0][at] = y0;
            buffer_out[ch1][at] = y1;
            proof {
                assert forall|ch: int|
                    0 <= ch < next_unwritten(list@, k + 2, n) && mask[ch] implies ch < ch0 || ch
                    == ch0 || ch == ch1 by {
                    if ch0 < ch < ch1 {
                        lemma_no_active_between(list@, mask, k as int, ch);
                    } else if ch > ch1 {
                        lemma_no_active_between(list@, mask, k + 1, ch);
                    }
                }
                assert(k + 2 < list@.len() ==> list@[k + 1] < list@[k + 2]);
            }
            k += 2;
        }
        if k < list.len() {
            let ch: usize = list[k];
            let y: T = self.eval(self.buffers[ch].as_slice(), branch, n_p);
            buffer_out[ch][at] = y;
            proof {
                assert forall|c: int| 0 <= c < n && mask[c] implies c <= ch by {
                    if c > ch {
                        lemma_no_active_between(list@, mask, k as int, c);
                    }
                }
            }
        }
    }

    /// Drops the first `consumed` samples of every history.
    fn slide(&mut self, consumed: usize)
        requires
            old(self).buffers@.len() == old(self).nbr_channels,
            forall|ch: int|
                0 <= ch < old(self).nbr_channels ==> (#[trigger] old(self).buffers@[ch])@.len()
                    == old(self).max_buffer_len,
            consumed <= old(self).buffer_fill <= old(self).max_buffer_len,
            consumed <= old(self).next_sample,
        ensures
            *final(self) == (PolyphaseFir {
                buffers: final(self).buffers,
                buffer_fill: final(self).buffer_fill,
                next_sample: final(self).next_sample,
                ..*old(self)
            }),
            final(self).buffer_fill == old(self).buffer_fill - consumed,
            final(self).next_sample == old(self).next_sample - consumed,
            final(self).buffers@.len() == old(self).nbr_channels,
            forall|ch: int|
                0 <= ch < old(self).nbr_channels ==> (#[trigger] final(self).buffers@[ch])@ == slid(
                    old(self).buffers@[ch]@,
                    consumed as int,
                    old(self).buffer_fill as int,
                ),
    {
        let fill: usize = self.buffer_fill;
        let zero: T = T::of_int(0);
        let mut ch: usize = 0;
        while ch < self.nbr_channels
            invariant
                ch <= self.nbr_channels,
                fill == old(self).buffer_fill,
                consumed <= fill <= old(self).max_buffer_len,
                zero == s_zero::<T>(),
                *self == (PolyphaseFir { buffers: self.buffers, ..*old(self) }),
                self.buffers@.len() == self.nbr_channels,
                forall|k: int|
                    0 <= k < self.nbr_channels ==> (#[trigger] old(self).buffers@[k])@.len()
                        == old(self).max_buffer_len,
                forall|k: int|
                    0 <= k < self.nbr_channels ==> (#[trigger] self.buffers@[k])@ == if k < ch {
                        slid(old(self).buffers@[k]@, consumed as int, fill as int)
                    } else {
                        old(self).buffers@[k]@
                    },
            decreases self.nbr_channels - ch,
        {
            let ghost before = self.buffers@[ch as int]@;
            let buf: &mut Vec<T> = &mut self.buffers[ch];
            let mut j: usize = 0;
            while j < fill
                invariant
                    j <= fill <= buf@.len(),
                    consumed <= fill,
                    zero == s_zero::<T>(),
                    buf@.len() == before.len(),
                    forall|i: int| j <= i < buf@.len() ==> #[trigger] buf@[i] == before[i],
                    forall|i: int|
                        0 <= i < j ==> #[trigger] buf@[i] == slid(
                            before,
                            consumed as int,
                            fill as int,
                        )[i],
                decreases fill - j,
            {
                buf[j] = if j < fill - consumed {
                    buf[j + consumed]
                } else {
                    zero
                };
                j += 1;
            }
            assert(buf@ =~= slid(before, consumed as int, fill as int));
            ch += 1;
        }
        self.buffer_fill -= consumed;
        self.next_sample -= consumed;
    }
}

/// Decomposes the prototype into polyphase branches, keeping only the lower half plus the middle
/// one.
fn build_branches<T: PrcFmt>(prototype: &Vec<T>, taps: usize, l: usize) -> (r: Vec<T>)
    requires
        taps > 0,
        l >= 2,
        taps * l <= prototype@.len(),
    ensures
        r@ == branch_table(prototype@, taps as int, l as int),
{
    assert(taps * l <= prototype.len());
    let half: usize = l / 2;
    let mut r: Vec<T> = Vec::new();
    let mut b: usize = 0;
    while b <= half
        invariant
            b <= half + 1,
            half == l / 2,
            taps > 0,
            l >= 2,
            taps * l <= prototype@.len(),
            taps * l <= usize::MAX,
            r@.len() == b * taps,
            forall|i: int|
                0 <= i < r@.len() ==> #[trigger] r@[i] == prototype@[(i % taps as int) * l + i
                    / taps as int],
        decreases half + 1 - b,
    {
        let mut k: usize = 0;
        while k < taps
            invariant
                k <= taps,
                b <= half,
                half == l / 2,
                taps > 0,
                l >= 2,
                taps * l <= prototype@.len(),
                taps * l <= usize::MAX,
                r@.len() == b * taps + k,
                forall|i: int|
                    0 <= i < r@.len() ==> #[trigger] r@[i] == prototype@[(i % taps as int) * l + i
                        / taps as int],
            decreases taps - k,
        {
            assert(0 <= k * l && k * l + b < taps * l) by (nonlinear_arith)
                requires
                    0 <= k < taps,
                    0 <= b <= l / 2,
                    l >= 2,
            ;
            proof {
                lemma_fundamental_div_mod_converse(
                    b * taps + k,
                    taps as int,
                    b as int,
                    k as int,
                );
            }
            r.push(prototype[k * l + b]);
            k += 1;
        }
        b += 1;
        assert((b - 1) * taps + taps == b * taps) by (nonlinear_arith);
    }
    assert(r@ =~= branch_table(prototype@, taps as int, l as int));
    r
}

impl<T: PrcFmt> Resampler<T> for PolyphaseFir<T> {
    open spec fn wf(&self) -> bool {
        self.design_wf() && self.state_wf()
    }

    /// A mask has one entry per channel, and the frames that reading and writing end at can be
    /// addressed, as far as a call gets to them: the buffers are refused for their channels first,
    /// then for the input.
    open spec fn accepts(
        &self,
        buffer_in: Seq<Vec<T>>,
        buffer_out: Seq<Vec<T>>,
        indexing: Option<&Indexing>,
    ) -> bool {
        let end_in = input_offset(indexing) + frames_to_read(indexing, self.needed());
        &&& mask_of(indexing, self.nbr_channels as nat).len() == self.nbr_channels
        &&& buffer_in.len() == self.nbr_channels && buffer_out.len() == self.nbr_channels ==> {
            &&& end_in <= usize::MAX
            &&& end_in <= frames_of(buffer_in) ==> output_offset(indexing) + self.chunk_size
                <= usize::MAX
        }
    }

    /// Either the buffers do not fit, and nothing but the mask has changed; or the active channels
    /// of the output hold the next chunk, and the history and the phase have moved on.
    open spec fn processed(
        &self,
        after: &Self,
        buffer_in: Seq<Vec<T>>,
        out_before: Seq<Vec<T>>,
        out_after: Seq<Vec<T>>,
        indexing: Option<&Indexing>,
        r: Result<(usize, usize), ResampleError>,
    ) -> bool {
        let mask = mask_of(indexing, self.nbr_channels as nat);
        let offset = output_offset(indexing);
        &&& after.same_design(self)
        &&& after.channel_mask@ == mask
        &&& match self.buffer_error(buffer_in, out_before, indexing) {
            Some(e) => {
                &&& r is Err && r->Err_0 == e
                &&& out_after == out_before
                &&& after.buffers == self.buffers
                &&& after.buffer_fill == self.buffer_fill
                &&& after.next_sample == self.next_sample
                &&& after.next_branch == self.next_branch
            },
            None => {
                &&& r is Ok
                &&& r->Ok_0.0 == self.needed()
                &&& r->Ok_0.1 == self.chunk_size
                &&& after.buffer_fill == self.buffer_fill + self.needed() - self.consumed()
                &&& after.next_sample == self.sample_at(self.chunk_size as int) - self.consumed()
                &&& after.next_branch == self.branch_at(self.chunk_size as int)
                &&& forall|ch: int|
                    0 <= ch < self.nbr_channels ==> (#[trigger] after.buffers@[ch])@ == slid(
                        self.history(ch, buffer_in, indexing),
                        self.consumed(),
                        self.buffer_fill + self.needed(),
                    )
                &&& forall|ch: int, j: int|
                    0 <= ch < self.nbr_channels && 0 <= j < out_before[ch]@.len()
                        ==> #[trigger] out_after[ch]@[j] == if mask[ch] && offset <= j < offset
                        + self.chunk_size {
                        self.output_at(ch, j - offset, buffer_in, indexing)
                    } else {
                        out_before[ch]@[j]
                    }
            },
        }
    }

    /// A chunk that spans whole input samples takes the same number of them every time, provided
    /// that the position is on a whole sample.
    open spec fn serves(&self, read: int, written: int) -> bool {
        &&& self.wf()
        &&& written == self.chunk_size
        &&& read * self.oversampling == self.chunk_size * self.step
        &&& self.next_branch == 0
        &&& self.buffer_fill == self.next_sample
    }

    /// The ratio is fixed at construction.
    open spec fn ratio_changed(
        &self,
        after: &Self,
        ratio: T,
        ramp: bool,
        relative: bool,
        r: Result<(), ResampleError>,
    ) -> bool {
        &&& *after == *self
        &&& r == Err::<(), ResampleError>(ResampleError::SyncNotAdjustable)
    }

    open spec fn was_reset(&self, after: &Self) -> bool {
        after.same_design(self) && after.is_fresh()
    }

    open spec fn s_input_frames_max(&self) -> int {
        self.max_buffer_len as int
    }

    open spec fn s_input_frames_next(&self) -> int {
        self.needed()
    }

    open spec fn s_nbr_channels(&self) -> int {
        self.nbr_channels as int
    }

    open spec fn s_output_frames_max(&self) -> int {
        self.chunk_size as int
    }

    open spec fn s_output_frames_next(&self) -> int {
        self.chunk_size as int
    }

    open spec fn s_output_delay(&self) -> int {
        self.output_delay_samples as int
    }

    open spec fn s_resample_ratio(&self) -> T {
        self.resample_ratio
    }

    fn process_into_buffer(
        &mut self,
        buffer_in: &Vec<Vec<T>>,
        buffer_out: &mut Vec<Vec<T>>,
        indexing: Option<&Indexing>,
    ) -> (r: Result<(usize, usize), ResampleError>) {
        let ghost start = *self;
        proof {
            start.lemma_positions(0);
            assert forall|read: int, written: int| #[trigger]
                start.serves(read, written) implies start.needed() == read && start.sample_at(
                start.chunk_size as int,
            ) == start.next_sample + read && start.branch_at(start.chunk_size as int) == 0 by {
                start.lemma_whole_samples(read);
            }
        }
        self.apply_mask(indexing);
        let (in_offset, out_offset): (usize, usize) = match indexing {
            Some(idx) => (idx.input_offset, idx.output_offset),
            None => (0, 0),
        };
        let partial_len: Option<usize> = match indexing {
            Some(idx) => idx.partial_len,
            None => None,
        };
        let needed: usize = self.input_needed();
        let read: usize = match partial_len {
            Some(len) => if len < needed {
                len
            } else {
                needed
            },
            None => needed,
        };
        if buffer_in.len() != self.nbr_channels {
            return Err(
                ResampleError::WrongNumberOfInputChannels {
                    expected: self.nbr_channels,
                    actual: buffer_in.len(),
                },
            );
        }
        if buffer_out.len() != self.nbr_channels {
            return Err(
                ResampleError::WrongNumberOfOutputChannels {
                    expected: self.nbr_channels,
                    actual: buffer_out.len(),
                },
            );
        }
        let frames_in: usize = frames(buffer_in);
        if frames_in < in_offset + read {
            return Err(
                ResampleError::InsufficientInputBufferSize {
                    expected: in_offset + read,
                    actual: frames_in,
                },
            );
        }
        let frames_out: usize = frames(buffer_out);
        if frames_out < out_offset + self.chunk_size {
            return Err(
                ResampleError::InsufficientOutputBufferSize {
                    expected: out_offset + self.chunk_size,
                    actual: frames_out,
                },
            );
        }
        let ghost mask = self.channel_mask@;
        proof {
            start.lemma_positions(0);
        }
        let mut ch: usize = 0;
        while ch < self.nbr_channels
            invariant
                ch <= self.nbr_channels,
                start.design_wf(),
                start.state_wf(),
                self.state_wf(),
                *self == (PolyphaseFir {
                    buffers: self.buffers,
                    channel_mask: self.channel_mask,
                    active_channels: self.active_channels,
                    ..start
                }),
                self.channel_mask@ == mask,
                mask == mask_of(indexing, start.nbr_channels as nat),
                lists_active(self.active_channels@, mask),
                needed == start.needed(),
                read == frames_to_read(indexing, needed as int),
                read <= needed,
                in_offset == input_offset(indexing),
                start.buffer_fill + needed <= start.max_buffer_len,
                buffer_in@.len() == start.nbr_channels,
                forall|k: int|
                    0 <= k < buffer_in@.len() ==> in_offset + read <= (
                    #[trigger] buffer_in@[k])@.len(),
                forall|k: int|
                    0 <= k < self.nbr_channels ==> (#[trigger] self.buffers@[k])@ == if k < ch {
                        start.history(k, buffer_in@, indexing)
                    } else {
                        start.buffers@[k]@
                    },
            decreases self.nbr_channels - ch,
        {
            self.take_channel(ch, &buffer_in[ch], in_offset, needed, read);
            ch += 1;
        }
        self.buffer_fill += needed;
        let oversampling: usize = self.oversampling;
        let mut n: usize = self.next_sample;
        let mut b: usize = self.next_branch;
        let mut i: usize = 0;
        let ghost fed = *self;
        proof {
            assert forall|k: int| 0 <= k < fed.nbr_channels implies (
            #[trigger] fed.buffers@[k])@.len() == fed.max_buffer_len by {}
        }
        assert(0int / oversampling as int == 0) by (nonlinear_arith)
            requires
                oversampling > 0,
        ;
        while i < self.chunk_size
            invariant
                i <= self.chunk_size,
                start.design_wf(),
                start.state_wf(),
                *self == fed,
                fed == (PolyphaseFir {
                    buffers: fed.buffers,
                    channel_mask: fed.channel_mask,
                    active_channels: fed.active_channels,
                    buffer_fill: fed.buffer_fill,
                    ..start
                }),
                fed.buffer_fill == start.buffer_fill + start.needed(),
                fed.channel_mask@ == mask,
                mask == mask_of(indexing, start.nbr_channels as nat),
                mask.len() == start.nbr_channels,
                lists_active(fed.active_channels@, mask),
                fed.buffers@.len() == start.nbr_channels,
                forall|k: int|
                    0 <= k < start.nbr_channels ==> (#[trigger] fed.buffers@[k])@
                        == start.history(k, buffer_in@, indexing),
                oversampling == start.oversampling,
                out_offset == output_offset(indexing),
                out_offset + start.chunk_size <= usize::MAX,
                b < oversampling,
                start.phase_at(i as int) == (n - start.next_sample) * oversampling + b,
                n >= start.next_sample,
                buffer_out@.len() == start.nbr_channels,
                same_shape(old(buffer_out)@, buffer_out@),
                forall|k: int|
                    0 <= k < buffer_out@.len() ==> out_offset + start.chunk_size <= (
                    #[trigger] old(buffer_out)@[k])@.len(),
                forall|k: int, j: int|
                    0 <= k < start.nbr_channels && 0 <= j < old(buffer_out)@[k]@.len()
                        ==> #[trigger] buffer_out@[k]@[j] == if mask[k] && out_offset <= j
                        < out_offset + i {
                        start.output_at(k, j - out_offset, buffer_in@, indexing)
                    } else {
                        old(buffer_out)@[k]@[j]
                    },
            decreases self.chunk_size - i,
        {
            proof {
                start.lemma_positions(i as int);
                lemma_fundamental_div_mod_converse(
                    start.phase_at(i as int),
                    oversampling as int,
                    n - start.next_sample,
                    b as int,
                );
            }
            let ghost out_then = buffer_out@;
            self.write_frame(buffer_out, out_offset + i, b, n);
            proof {
                assert forall|k: int, j: int|
                    0 <= k < start.nbr_channels && 0 <= j < old(
                        buffer_out,
                    )@[k]@.len() implies #[trigger] buffer_out@[k]@[j] == (if mask[k] && out_offset
                    <= j < out_offset + i + 1 {
                    start.output_at(k, j - out_offset, buffer_in@, indexing)
                } else {
                    old(buffer_out)@[k]@[j]
                }) by {
                    assert(old(buffer_out)@[k]@.len() == out_then[k]@.len());
                    assert(fed.buffers@[k]@ == start.history(k, buffer_in@, indexing));
                }
                assert forall|k: int| 0 <= k < start.nbr_channels implies (
                #[trigger] old(buffer_out)@[k])@.len() == buffer_out@[k]@.len() by {
                    assert(old(buffer_out)@[k]@.len() == out_then[k]@.len());
                }
            }
            b += self.step;
            let ghost total = b as int;
            let ghost q = n - start.next_sample;
            assert((i + 1) * start.step == i * start.step + start.step) by (nonlinear_arith);
            if b >= oversampling {
                proof {
                    lemma_fundamental_div_mod_converse(
                        b as int,
                        oversampling as int,
                        1,
                        b - oversampling,
                    );
                }
                n += b / oversampling;
                b %= oversampling;
                assert((q + 1) * oversampling + (total - oversampling) == q * oversampling + total)
                    by (nonlinear_arith);
            }
            i += 1;
        }
        proof {
            start.lemma_positions(0);
            lemma_fundamental_div_mod_converse(
                start.phase_at(start.chunk_size as int),
                oversampling as int,
                n - start.next_sample,
                b as int,
            );
        }
        self.next_sample = n;
        self.next_branch = b;
        let mut consumed: usize = self.next_sample.saturating_sub(self.taps);
        if consumed > self.buffer_fill {
            consumed = self.buffer_fill;
        }
        self.slide(consumed);
        Ok((needed, self.chunk_size))
    }

    fn input_frames_max(&self) -> (r: usize) {
        self.max_buffer_len
    }

    fn input_frames_next(&self) -> (r: usize) {
        self.input_needed()
    }

    fn nbr_channels(&self) -> (r: usize) {
        self.nbr_channels
    }

    fn output_frames_max(&self) -> (r: usize) {
        self.chunk_size
    }

    fn output_frames_next(&self) -> (r: usize) {
        self.chunk_size
    }

    fn output_delay(&self) -> (r: usize) {
        self.output_delay_samples
    }

    fn set_resample_ratio(&mut self, new_ratio: T, ramp: bool) -> (r: Result<(), ResampleError>) {
        Err(ResampleError::SyncNotAdjustable)
    }

    fn resample_ratio(&self) -> (r: T) {
        self.resample_ratio
    }

    fn set_resample_ratio_relative(&mut self, rel_ratio: T, ramp: bool) -> (r: Result<
        (),
        ResampleError,
    >) {
        Err(ResampleError::SyncNotAdjustable)
    }

    fn reset(&mut self) {
        let mut ch: usize = 0;
        while ch < self.nbr_channels
            invariant
                ch <= self.nbr_channels,
                *self == (PolyphaseFir { buffers: self.buffers, ..*old(self) }),
                self.buffers@.len() == self.nbr_channels,
                forall|k: int|
                    0 <= k < self.nbr_channels ==> (#[trigger] self.buffers@[k])@.len()
                        == self.max_buffer_len,
                forall|k: int|
                    0 <= k < ch ==> (#[trigger] self.buffers@[k])@ == copies(
                        self.max_buffer_len as nat,
                        s_zero::<T>(),
                    ),
            decreases self.nbr_channels - ch,
        {
            fill(&mut self.buffers[ch], T::of_int(0));
            ch += 1;
        }
        self.buffer_fill = 0;
        self.next_sample = 0;
        self.next_branch = 0;
        fill(&mut self.channel_mask, true);
    }
}

} // verus!
