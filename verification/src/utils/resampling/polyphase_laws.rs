//! What holds of the polyphase upsampler over many calls.

use crate::arith::{copies, s_zero};
use crate::prcfmt::PrcFmt;
use crate::utils::resampling::design::{lemma_prototype_is_symmetric, prototype_of};
use crate::utils::resampling::kernel::{backward_terms, forward_terms, tap_range};
use crate::utils::resampling::polyphase::{branch_table, output_of, slid, PolyphaseFir};
use crate::utils::resampling::{
    frames_to_read, input_offset, mask_of, Indexing, ResampleError, Resampler,
};
use vstd::arithmetic::div_mod::{lemma_fundamental_div_mod, lemma_fundamental_div_mod_converse};
use vstd::prelude::*;

verus! {

/// One call and its arguments.
pub struct Call<'a, T> {
    pub buffer_in: Seq<Vec<T>>,
    pub out_before: Seq<Vec<T>>,
    pub out_after: Seq<Vec<T>>,
    pub indexing: Option<&'a Indexing>,
    pub r: Result<(usize, usize), ResampleError>,
}

/// Whether `call` took the upsampler from `before` to `after`, and succeeded.
pub open spec fn succeeded<T: PrcFmt>(
    before: PolyphaseFir<T>,
    after: PolyphaseFir<T>,
    call: Call<T>,
) -> bool {
    &&& before.wf()
    &&& after.wf()
    &&& call.r is Ok
    &&& before.processed(
        &after,
        call.buffer_in,
        call.out_before,
        call.out_after,
        call.indexing,
        call.r,
    )
}

/// The samples that have left the history after `k` calls: what was there and what was read, less
/// what is left.
pub open spec fn consumed_in<T: PrcFmt>(
    states: Seq<PolyphaseFir<T>>,
    calls: Seq<Call<T>>,
    k: int,
) -> int
    decreases k,
{
    if k <= 0 {
        0
    } else {
        consumed_in(states, calls, k - 1) + states[k - 1].buffer_fill + calls[k - 1].r->Ok_0.0
            - states[k].buffer_fill
    }
}

/// The phase is integer arithmetic and cannot drift, no matter how many chunks are processed:
/// after `k` calls the position is exactly `k * chunk_size * step` units of `1 / oversampling`
/// input samples.
pub proof fn lemma_phase_never_drifts<T: PrcFmt>(
    states: Seq<PolyphaseFir<T>>,
    calls: Seq<Call<T>>,
    k: int,
)
    requires
        0 <= k <= calls.len(),
        states.len() == calls.len() + 1,
        states[0].is_fresh(),
        forall|i: int|
            #![trigger calls[i]]
            0 <= i < calls.len() ==> succeeded(states[i], states[i + 1], calls[i]),
        0 < states[0].oversampling,
    ensures
        ({
            let total = k * states[0].chunk_size * states[0].step;
            let l = states[0].oversampling as int;
            &&& states[k].next_sample + consumed_in(states, calls, k) == total / l
            &&& states[k].next_branch == total % l
            &&& states[k].same_design(&states[0])
        }),
    decreases k,
{
    let l = states[0].oversampling as int;
    let step = states[0].step as int;
    let c = states[0].chunk_size as int;
    if k == 0 {
        assert(0 * c * step == 0) by (nonlinear_arith);
        lemma_fundamental_div_mod_converse(0, l, 0, 0);
    } else {
        lemma_phase_never_drifts(states, calls, k - 1);
        let before = states[k - 1];
        let after = states[k];
        assert(succeeded(before, after, calls[k - 1]));
        before.lemma_positions(0);
        let total = (k - 1) * c * step;
        let q = total / l;
        let phase = before.phase_at(c);
        lemma_fundamental_div_mod(total, l);
        lemma_fundamental_div_mod(phase, l);
        let next = k * c * step;
        assert(next == total + c * step) by (nonlinear_arith)
            requires
                next == k * c * step,
                total == (k - 1) * c * step,
        ;
        assert(next == (q + phase / l) * l + phase % l) by (nonlinear_arith)
            requires
                next == total + c * step,
                total == l * q + before.next_branch,
                phase == before.next_branch + c * step,
                phase == l * (phase / l) + phase % l,
        ;
        lemma_fundamental_div_mod_converse(next, l, q + phase / l, phase % l);
    }
}

/// A call always finds room in the history buffers for the input that it needs, and never needs
/// more than `input_frames_max` says.
pub proof fn lemma_history_never_overflows<T: PrcFmt>(fir: PolyphaseFir<T>)
    requires
        fir.wf(),
    ensures
        0 <= fir.s_input_frames_next(),
        fir.buffer_fill + fir.s_input_frames_next() <= fir.max_buffer_len,
        fir.s_input_frames_next() <= fir.s_input_frames_max(),
{
    fir.lemma_positions(0);
}

// ------------------------------- The output as a convolution of the stream ------------------

/// Whether the history of channel `ch` is the end of `stream`, the samples taken in so far. Once
/// samples have been dropped, `taps` of them are left before the output position.
pub open spec fn holds_end_of<T: PrcFmt>(fir: PolyphaseFir<T>, ch: int, stream: Seq<T>) -> bool {
    &&& fir.buffer_fill <= stream.len()
    &&& forall|j: int|
        0 <= j < fir.buffer_fill ==> #[trigger] fir.buffers@[ch]@[j] == stream[stream.len()
            - fir.buffer_fill + j]
    &&& fir.buffer_fill < stream.len() ==> fir.next_sample == fir.taps
}

/// What a call takes in on channel `ch`: the frames it reads, then silence for those that are
/// missing.
pub open spec fn taken<T: PrcFmt>(fir: PolyphaseFir<T>, ch: int, call: Call<T>) -> Seq<T> {
    let read = frames_to_read(call.indexing, fir.needed());
    Seq::new(
        fir.needed() as nat,
        |j: int|
            if j < read {
                call.buffer_in[ch]@[input_offset(call.indexing) + j]
            } else {
                s_zero()
            },
    )
}

/// The output does not depend on how the input is cut into chunks: output sample `i` of a call is
/// the inner product of its branch with the whole stream of samples taken in so far, at the
/// position that the phase gives; and the history goes on to hold the end of that stream.
pub proof fn lemma_output_is_stream_convolution<T: PrcFmt>(
    before: PolyphaseFir<T>,
    after: PolyphaseFir<T>,
    call: Call<T>,
    ch: int,
    stream: Seq<T>,
    i: int,
)
    requires
        succeeded(before, after, call),
        0 <= ch < before.nbr_channels,
        mask_of(call.indexing, before.nbr_channels as nat)[ch],
        holds_end_of(before, ch, stream),
        0 <= i < before.chunk_size,
    ensures
        holds_end_of(after, ch, stream + taken(before, ch, call)),
        before.output_at(ch, i, call.buffer_in, call.indexing) == output_of(
            before.branches@,
            before.taps as int,
            before.oversampling as int,
            stream + taken(before, ch, call),
            before.branch_at(i),
            stream.len() - before.buffer_fill + before.sample_at(i),
        ),
{
    before.lemma_positions(i);
    let fill = before.buffer_fill as int;
    let needed = before.needed();
    let read = frames_to_read(call.indexing, needed);
    let offset = input_offset(call.indexing);
    let hist = before.history(ch, call.buffer_in, call.indexing);
    let all = stream + taken(before, ch, call);
    let dropped = stream.len() - fill;
    assert forall|j: int| 0 <= j < fill + needed implies #[trigger] hist[j] == all[dropped + j] by {
        if j >= fill {
            assert(all[dropped + j] == taken(before, ch, call)[j - fill]);
        } else {
            assert(before.buffers@[ch]@[j] == stream[dropped + j]);
        }
    }
    let consumed = before.consumed();
    assert(after.buffers@[ch]@ == slid(hist, consumed, fill + needed));
    assert forall|j: int| 0 <= j < after.buffer_fill implies #[trigger] after.buffers@[ch]@[j]
        == all[all.len() - after.buffer_fill + j] by {
        assert(hist[j + consumed] == all[dropped + (j + consumed)]);
    }
    let n = before.sample_at(i);
    let taps = before.taps as int;
    let l = before.oversampling as int;
    let b = before.branch_at(i);
    let at = dropped + n;
    let (s0, e0) = tap_range(n, hist.len() as int, taps);
    let (s1, e1) = tap_range(at, all.len() as int, taps);
    assert(s0 == s1 && e0 == e1);
    if s0 < e0 {
        if b * 2 <= l {
            let coeffs = before.branches@.subrange(b * taps, b * taps + taps);
            let t0 = backward_terms(coeffs, hist, n, s0, e0);
            let t1 = backward_terms(coeffs, all, at, s0, e0);
            assert forall|j: int| 0 <= j < e0 - s0 implies #[trigger] t0[j] == t1[j] by {
                assert(hist[n - (s0 + j)] == all[dropped + (n - (s0 + j))]);
            }
            assert(t0 =~= t1);
        } else {
            let w0 = hist.subrange(n + 1 - e0, n + 1 - s0);
            let w1 = all.subrange(at + 1 - e0, at + 1 - s0);
            assert forall|j: int| 0 <= j < e0 - s0 implies #[trigger] w0[j] == w1[j] by {
                assert(hist[n + 1 - e0 + j] == all[dropped + (n + 1 - e0 + j)]);
            }
            assert(w0 =~= w1);
        }
    }
}

// ------------------------------- Channels that are not active -------------------------------

/// Whether the history of channel `ch` is silent behind its valid samples.
pub open spec fn silent_behind<T: PrcFmt>(fir: PolyphaseFir<T>, ch: int) -> bool {
    forall|j: int|
        fir.buffer_fill <= j < fir.max_buffer_len ==> #[trigger] fir.buffers@[ch]@[j] == s_zero::<
            T,
        >()
}

/// A fresh upsampler is silent behind its valid samples, and every call keeps it so.
pub proof fn lemma_silent_behind<T: PrcFmt>(
    before: PolyphaseFir<T>,
    after: PolyphaseFir<T>,
    call: Call<T>,
    ch: int,
)
    requires
        succeeded(before, after, call),
        0 <= ch < before.nbr_channels,
    ensures
        before.is_fresh() ==> silent_behind(before, ch),
        silent_behind(before, ch) ==> silent_behind(after, ch),
{
    before.lemma_positions(0);
    let hist = before.history(ch, call.buffer_in, call.indexing);
    assert(after.buffers@[ch]@ == slid(hist, before.consumed(), before.buffer_fill + before.needed()));
}

/// A call silences the history of a channel that is not active, so that stale samples cannot
/// reappear when it becomes active.
pub proof fn lemma_inactive_history_is_silent<T: PrcFmt>(
    before: PolyphaseFir<T>,
    after: PolyphaseFir<T>,
    call: Call<T>,
    ch: int,
)
    requires
        succeeded(before, after, call),
        0 <= ch < before.nbr_channels,
        !mask_of(call.indexing, before.nbr_channels as nat)[ch],
        silent_behind(before, ch),
    ensures
        after.buffers@[ch]@ == copies(after.max_buffer_len as nat, s_zero::<T>()),
{
    before.lemma_positions(0);
    let hist = before.history(ch, call.buffer_in, call.indexing);
    assert(after.buffers@[ch]@ == slid(hist, before.consumed(), before.buffer_fill + before.needed()));
    assert(after.buffers@[ch]@ =~= copies(after.max_buffer_len as nat, s_zero::<T>()));
}

// ------------------------------- The half table -------------------------------

/// The coefficient that branch `b` gives to the input sample `k` before the newest, as it is read
/// from the stored half of the table.
pub open spec fn tap_read<T>(branches: Seq<T>, taps: int, l: int, b: int, k: int) -> T {
    if b * 2 <= l {
        branches[b * taps + k]
    } else {
        branches[(l - b) * taps + (taps - 1 - k)]
    }
}

/// The half table serves as the full one: where the prototype is symmetric about the middle of its
/// `taps * l + 1` coefficients, every branch, stored or mirrored, gives sample `k` before the
/// newest the prototype coefficient `k * l + b`.
pub proof fn lemma_half_table_matches_full_table<T>(h: Seq<T>, taps: int, l: int, b: int, k: int)
    requires
        0 < taps,
        2 <= l,
        0 <= b < l,
        0 <= k < taps,
        forall|m: int| 0 < m < taps * l ==> #[trigger] h[m] == h[taps * l - m],
    ensures
        tap_read(branch_table(h, taps, l), taps, l, b, k) == h[k * l + b],
{
    let row = if b * 2 <= l {
        b
    } else {
        l - b
    };
    let col = if b * 2 <= l {
        k
    } else {
        taps - 1 - k
    };
    lemma_fundamental_div_mod_converse(row * taps + col, taps, row, col);
    assert(0 <= row * taps && row * taps + col < (l / 2 + 1) * taps) by (nonlinear_arith)
        requires
            0 <= row <= l / 2,
            0 <= col < taps,
    ;
    assert(branch_table(h, taps, l)[row * taps + col] == h[col * l + row]);
    if b * 2 > l {
        let m = k * l + b;
        assert(col * l + row == taps * l - m && 0 < m < taps * l) by (nonlinear_arith)
            requires
                col == taps - 1 - k,
                row == l - b,
                m == k * l + b,
                0 <= k < taps,
                0 < b < l,
        ;
        assert(h[m] == h[taps * l - m]);
    }
}

/// The stored half of the table gives every branch, stored or mirrored, its own coefficients of
/// the prototype, whether `taps * oversampling` is even or odd.
pub proof fn lemma_branches_read_the_prototype<T: PrcFmt>(fir: PolyphaseFir<T>, b: int, k: int)
    requires
        fir.design_wf(),
        0 <= b < fir.oversampling,
        0 <= k < fir.taps,
    ensures
        tap_read(fir.branches@, fir.taps as int, fir.oversampling as int, b, k) == prototype_of::<T>(
            fir.taps as int,
            fir.oversampling as int,
        )[k * fir.oversampling + b],
{
    let taps = fir.taps as int;
    let l = fir.oversampling as int;
    let h = prototype_of::<T>(taps, l);
    assert(0 < taps * l) by (nonlinear_arith)
        requires
            0 < taps,
            0 < l,
    ;
    assert forall|m: int| 0 < m < taps * l implies #[trigger] h[m] == h[taps * l - m] by {
        lemma_prototype_is_symmetric::<T>(taps, l, m);
    }
    lemma_half_table_matches_full_table(h, taps, l, b, k);
}

/// What is summed for an output sample are the products of the prototype's coefficients
/// `h[k * oversampling + b]` with the samples `k` before the newest: from the newest back for a
/// stored branch, from the oldest on for a mirrored one.
pub proof fn lemma_terms_pair_taps_with_samples<T: PrcFmt>(
    fir: PolyphaseFir<T>,
    buf: Seq<T>,
    b: int,
    n_p: int,
    j: int,
)
    requires
        fir.design_wf(),
        0 <= b < fir.oversampling,
        0 <= n_p,
        0 <= j < tap_range(n_p, buf.len() as int, fir.taps as int).1 - tap_range(
            n_p,
            buf.len() as int,
            fir.taps as int,
        ).0,
    ensures
        ({
            let taps = fir.taps as int;
            let l = fir.oversampling as int;
            let h = prototype_of::<T>(taps, l);
            let (k_start, k_end) = tap_range(n_p, buf.len() as int, taps);
            if b * 2 <= l {
                backward_terms(
                    fir.branches@.subrange(b * taps, b * taps + taps),
                    buf,
                    n_p,
                    k_start,
                    k_end,
                )[j] == h[(k_start + j) * l + b].s_mul(buf[n_p - (k_start + j)])
            } else {
                forward_terms(
                    fir.branches@.subrange(
                        (l - b) * taps + taps - k_end,
                        (l - b) * taps + taps - k_start,
                    ),
                    buf.subrange(n_p + 1 - k_end, n_p + 1 - k_start),
                )[j] == h[(k_end - 1 - j) * l + b].s_mul(buf[n_p - (k_end - 1 - j)])
            }
        }),
{
    let taps = fir.taps as int;
    let l = fir.oversampling as int;
    let (k_start, k_end) = tap_range(n_p, buf.len() as int, taps);
    let row = if b * 2 <= l {
        b
    } else {
        l - b
    };
    assert(0 <= row * taps && row * taps + taps <= (l / 2 + 1) * taps) by (nonlinear_arith)
        requires
            0 <= row <= l / 2,
            0 < taps,
    ;
    if b * 2 <= l {
        lemma_branches_read_the_prototype(fir, b, k_start + j);
    } else {
        lemma_branches_read_the_prototype(fir, b, k_end - 1 - j);
    }
}

} // verus!
