//! What the limiter promises of the level, in fixed point.
//!
//! Each sample is measured by the probe some frames after it came in, and leaves the window while
//! the peak that it was part of is still there. The gain never exceeds what the peaks in the window
//! ask for, so what leaves lies within the ceiling. In fixed point, where products and quotients
//! are rounded toward zero and the odd branch of the probe passes the samples, this holds without
//! any tolerance.

use crate::arith::{pushed, s_one, s_zero};
use crate::fixed::{magnitude, saturated, tenths, Fixed, LIMIT, ONE};
use crate::fixed_laws::{
    lemma_exp_bounds, lemma_log10_sign, lemma_log_of_one, lemma_product_rises, lemma_zero_product,
};
use crate::prcfmt::PrcFmt;
use crate::processors::truepeak::branches::{
    all_within, in_range, lemma_doubled_in_range, lemma_odd_phase_passes, lemma_peak_of_covers,
    lemma_probe_bound, lemma_stage_reach_grows, probe_reach, stage_reach, within,
};
use crate::processors::truepeak::even_branch::lemma_probe_at_most_quadruples;
use crate::processors::truepeak::limiter::{
    frame_peak, moved_on, next_gain, s_ceiling_from_dbfs, s_release_from_ms, target_gain,
    LimiterState, TruePeakLimiterCore, LOOKAHEAD_SAMPLES,
};
use crate::processors::truepeak::probe::{doubled, line2_after, peak_of, probe_branch};
use crate::processors::truepeak::{
    after_frames, column, frame_at, lemma_fresh_states_agree,
    lemma_gain_is_linked_across_channels, lemma_quiet_asks_for_no_attenuation,
    lemma_state_after_channels, lemma_windows_delay, limited_at, state_after, TruePeak,
};
use vstd::prelude::*;

verus! {

/// The number of frames after which the probe has measured a sample as it is.
pub const MEASURED_AFTER: usize = 11;

/// Whether the delay lines of one channel hold the same samples: the lookahead window, the line of
/// the first interpolation stage, and every second sample in the line of the second.
pub open spec fn lines_agree(delay: Seq<Fixed>, line1: Seq<Fixed>, line2: Seq<Fixed>) -> bool {
    &&& delay.len() == 16
    &&& line1.len() == 16
    &&& line2.len() == 16
    &&& in_range(delay)
    &&& in_range(line1)
    &&& in_range(line2)
    &&& forall|k: int| 0 <= k < 16 ==> #[trigger] line1[k] == delay[15 - k]
    &&& forall|k: int| 0 <= k < 16 && k % 2 == 0 ==> #[trigger] line2[k] == delay[8 - k / 2]
}

/// What holds of a limiter between frames, whatever its parameters are: the gain lies between zero
/// and one, and each sample that has been measured has a peak in the window that is no smaller.
pub open spec fn holds_level(st: LimiterState<Fixed>) -> bool {
    &&& 0 <= st.gain.raw <= ONE
    &&& st.peaks.len() == 16
    &&& st.lines1.len() == st.delays.len()
    &&& st.lines2.len() == st.delays.len()
    &&& forall|ch: int|
        0 <= ch < st.delays.len() ==> lines_agree(
            #[trigger] st.delays[ch],
            st.lines1[ch],
            st.lines2[ch],
        )
    &&& forall|ch: int, j: int|
        #![trigger st.delays[ch][j]]
        0 <= ch < st.delays.len() && 0 <= j < 16 - MEASURED_AFTER ==> within(
            st.delays[ch][j],
            st.peaks[j + MEASURED_AFTER].raw as int,
        )
}

/// The gain that the peaks ask for lies between zero and one.
proof fn lemma_target_gain_bounds(peaks: Seq<Fixed>, ceiling: Fixed, n: int)
    requires
        0 <= n <= peaks.len(),
        0 <= ceiling.raw,
    ensures
        0 <= target_gain(peaks, ceiling, n).raw <= ONE,
    decreases n,
{
    if n > 0 {
        lemma_target_gain_bounds(peaks, ceiling, n - 1);
        let p = peaks[n - 1];
        if ceiling.raw < p.raw {
            lemma_asked_gain(ceiling, p);
        }
    }
}

/// The gain that a peak above the ceiling asks for, which takes the peak down to the ceiling.
proof fn lemma_asked_gain(ceiling: Fixed, p: Fixed)
    requires
        0 <= ceiling.raw < p.raw,
    ensures
        0 <= ceiling.s_div(p).raw < ONE,
        p.raw * ceiling.s_div(p).raw <= ceiling.raw * ONE,
{
    let c = ceiling.raw as int;
    let q = c * ONE / (p.raw as int);
    assert(0 <= q < ONE && p.raw * q <= c * ONE) by (nonlinear_arith)
        requires
            0 <= c < p.raw,
            q == c * ONE / (p.raw as int),
    ;
    assert(ceiling.s_div(p).raw == q);
}

/// The gain that a window asks for is no larger than what a single peak in it asks for.
proof fn lemma_target_gain_at_most(peaks: Seq<Fixed>, ceiling: Fixed, n: int, j: int)
    requires
        0 <= j < n <= peaks.len(),
        ceiling.raw < peaks[j].raw,
    ensures
        target_gain(peaks, ceiling, n).raw <= ceiling.s_div(peaks[j]).raw,
    decreases n,
{
    if j < n - 1 {
        lemma_target_gain_at_most(peaks, ceiling, n - 1, j);
    }
}

/// The peak of a frame is at least as large as each of its samples, and as what the probe measures
/// on each channel.
pub proof fn lemma_peak_covers_frame(
    st: LimiterState<Fixed>,
    frame: Seq<Fixed>,
    n: int,
    ch: int,
)
    requires
        0 <= ch < n,
        forall|k: int| 0 <= k < n ==> -LIMIT <= (#[trigger] frame[k]).raw,
    ensures
        within(frame[ch], frame_peak(st, frame, n).raw as int),
        peak_of(pushed(st.lines1[ch], frame[ch]), st.lines2[ch]).raw <= frame_peak(
            st,
            frame,
            n,
        ).raw,
    decreases n,
{
    if ch < n - 1 {
        lemma_peak_covers_frame(st, frame, n - 1, ch);
    } else {
        assert(-LIMIT <= frame[ch].raw);
        assert(frame[ch].s_abs().raw == magnitude(frame[ch].raw as int));
    }
}

/// A step of the gain ends at or below the target, and above zero where it starts there.
proof fn lemma_gain_step(gain: Fixed, target: Fixed, release: Fixed)
    requires
        0 <= gain.raw <= ONE,
        0 <= target.raw <= ONE,
        0 <= release.raw <= ONE,
    ensures
        0 <= next_gain(gain, target, release).raw <= target.raw,
        0 < gain.raw && 0 < target.raw ==> 0 < next_gain(gain, target, release).raw,
        gain.raw == ONE && target.raw == ONE ==> next_gain(gain, target, release).raw == ONE,
{
    if target.raw >= gain.raw {
        let d = target.raw - gain.raw;
        let step = d * release.raw / (ONE as int);
        assert(0 <= step <= d) by (nonlinear_arith)
            requires
                0 <= d,
                0 <= release.raw <= ONE,
                step == d * release.raw / (ONE as int),
        ;
        assert(target.s_min(s_one()).s_sub(gain).s_mul(release).raw == step);
    }
}

/// The delay lines of a channel go on holding the same samples, and the probe measures the one
/// that came in `MEASURED_AFTER` frames earlier as it is.
proof fn lemma_lines_go_on(delay: Seq<Fixed>, line1: Seq<Fixed>, line2: Seq<Fixed>, v: Fixed)
    requires
        lines_agree(delay, line1, line2),
        -LIMIT <= v.raw,
    ensures
        lines_agree(moved_on(delay, v), pushed(line1, v), line2_after(pushed(line1, v), line2)),
        within(
            moved_on(delay, v)[15 - MEASURED_AFTER],
            peak_of(pushed(line1, v), line2).raw as int,
        ),
{
    let d = moved_on(delay, v);
    let l1 = pushed(line1, v);
    assert(in_range(d)) by {
        assert forall|k: int| 0 <= k < d.len() implies -LIMIT <= (#[trigger] d[k]).raw by {
            if k < 15 {
                assert(d[k] == delay[k + 1]);
            }
        }
    }
    assert(in_range(l1)) by {
        assert forall|k: int| 0 <= k < l1.len() implies -LIMIT <= (#[trigger] l1[k]).raw by {
            if k > 0 {
                assert(l1[k] == line1[k - 1]);
            }
        }
    }
    assert forall|k: int| 0 <= k < 16 implies #[trigger] l1[k] == d[15 - k] by {
        if k > 0 {
            assert(l1[k] == line1[k - 1]);
        }
    }
    lemma_doubled_in_range(l1);
    lemma_odd_phase_passes(l1);
    let mid = pushed(line2, doubled(l1).0);
    assert(in_range(mid)) by {
        assert forall|k: int| 0 <= k < mid.len() implies -LIMIT <= (#[trigger] mid[k]).raw by {
            if k > 0 {
                assert(mid[k] == line2[k - 1]);
            }
        }
    }
    let l2 = line2_after(l1, line2);
    assert(in_range(l2)) by {
        assert forall|k: int| 0 <= k < l2.len() implies -LIMIT <= (#[trigger] l2[k]).raw by {
            if k > 0 {
                assert(l2[k] == mid[k - 1]);
            }
        }
    }
    assert forall|k: int| 0 <= k < 16 && k % 2 == 0 implies #[trigger] l2[k] == d[8 - k / 2] by {
        if k == 0 {
            assert(l2[0] == l1[7]);
        } else {
            assert(l2[k] == line2[k - 2]);
        }
    }
    lemma_odd_phase_passes(mid);
    assert(mid[7] == line2[6]);
    assert(line2[6] == delay[5]);
    lemma_peak_of_covers(l1, line2);
}

/// A limiter that has seen no audio holds the level.
pub proof fn lemma_fresh_limiter_holds_level(lim: TruePeakLimiterCore<Fixed>)
    requires
        lim.wf(),
        lim.is_fresh(),
    ensures
        holds_level(lim.state()),
{
    let st = lim.state();
    assert(probe_branch::<Fixed>(0).len() == 16);
    assert forall|ch: int| 0 <= ch < st.delays.len() implies lines_agree(
        #[trigger] st.delays[ch],
        st.lines1[ch],
        st.lines2[ch],
    ) by {
        assert(st.delays[ch] == lim.delay_buffers@[ch]@);
        assert(st.lines1[ch] == lim.oversampler.state_stage1@[ch]@);
        assert(st.lines2[ch] == lim.oversampler.state_stage2@[ch]@);
    }
    assert forall|ch: int, j: int|
        #![trigger st.delays[ch][j]]
        0 <= ch < st.delays.len() && 0 <= j < 16 - MEASURED_AFTER implies within(
        st.delays[ch][j],
        st.peaks[j + MEASURED_AFTER].raw as int,
    ) by {
        assert(st.delays[ch] == lim.delay_buffers@[ch]@);
    }
}

/// A limiter goes on holding the level, whatever frame comes and with whatever parameters.
pub proof fn lemma_frame_keeps_level(
    st: LimiterState<Fixed>,
    frame: Seq<Fixed>,
    ceiling: Fixed,
    release: Fixed,
)
    requires
        holds_level(st),
        0 <= ceiling.raw,
        0 <= release.raw <= ONE,
        st.delays.len() <= frame.len(),
        forall|k: int| 0 <= k < st.delays.len() ==> -LIMIT <= (#[trigger] frame[k]).raw,
    ensures
        holds_level(st.after(frame, ceiling, release)),
{
    let n = st.delays.len() as int;
    let next = st.after(frame, ceiling, release);
    let target = target_gain(next.peaks, ceiling, next.peaks.len() as int);
    lemma_target_gain_bounds(next.peaks, ceiling, next.peaks.len() as int);
    lemma_gain_step(st.gain, target, release);
    assert forall|ch: int| 0 <= ch < next.delays.len() implies lines_agree(
        #[trigger] next.delays[ch],
        next.lines1[ch],
        next.lines2[ch],
    ) by {
        assert(lines_agree(st.delays[ch], st.lines1[ch], st.lines2[ch]));
        assert(-LIMIT <= frame[ch].raw);
        lemma_lines_go_on(st.delays[ch], st.lines1[ch], st.lines2[ch], frame[ch]);
    }
    assert forall|ch: int, j: int|
        #![trigger next.delays[ch][j]]
        0 <= ch < next.delays.len() && 0 <= j < 16 - MEASURED_AFTER implies within(
        next.delays[ch][j],
        next.peaks[j + MEASURED_AFTER].raw as int,
    ) by {
        assert(next.delays[ch] == moved_on(st.delays[ch], frame[ch]));
        assert(lines_agree(st.delays[ch], st.lines1[ch], st.lines2[ch]));
        if j < 15 - MEASURED_AFTER {
            assert(next.delays[ch][j] == st.delays[ch][j + 1]);
            assert(next.peaks[j + MEASURED_AFTER] == st.peaks[j + 1 + MEASURED_AFTER]);
        } else {
            assert(-LIMIT <= frame[ch].raw);
            lemma_lines_go_on(st.delays[ch], st.lines1[ch], st.lines2[ch], frame[ch]);
            lemma_peak_covers_frame(st, frame, n, ch);
        }
    }
}

/// Whether every one of `frames` has a sample in range for each of `n` channels.
pub open spec fn frames_in_range(frames: Seq<Seq<Fixed>>, n: int) -> bool {
    &&& forall|f: int| 0 <= f < frames.len() ==> n <= (#[trigger] frames[f]).len()
    &&& forall|f: int, k: int|
        0 <= f < frames.len() && 0 <= k < n ==> -LIMIT <= (#[trigger] frames[f][k]).raw
}

/// A limiter holds the level over any sequence of frames.
pub proof fn lemma_frames_keep_level(
    st: LimiterState<Fixed>,
    frames: Seq<Seq<Fixed>>,
    ceiling: Fixed,
    release: Fixed,
)
    requires
        holds_level(st),
        0 <= ceiling.raw,
        0 <= release.raw <= ONE,
        frames_in_range(frames, st.delays.len() as int),
    ensures
        holds_level(after_frames(st, frames, ceiling, release)),
        after_frames(st, frames, ceiling, release).delays.len() == st.delays.len(),
    decreases frames.len(),
{
    if frames.len() > 0 {
        let first = frames.drop_last();
        assert forall|f: int, k: int|
            0 <= f < first.len() && 0 <= k < st.delays.len() implies -LIMIT <= (
        #[trigger] first[f][k]).raw by {
            assert(first[f][k] == frames[f][k]);
        }
        assert forall|f: int| 0 <= f < first.len() implies st.delays.len() <= (
        #[trigger] first[f]).len() by {
            assert(first[f] == frames[f]);
        }
        lemma_frames_keep_level(st, first, ceiling, release);
        let before = after_frames(st, first, ceiling, release);
        assert(frames.last() == frames[frames.len() - 1]);
        assert forall|k: int| 0 <= k < before.delays.len() implies -LIMIT <= (
        #[trigger] frames.last()[k]).raw by {
            assert(frames.last()[k] == frames[frames.len() - 1][k]);
        }
        lemma_frame_keeps_level(before, frames.last(), ceiling, release);
    }
}

/// A sample that is not above a peak in the window, scaled by the gain that the window asks for,
/// lies within the ceiling.
proof fn lemma_scaled_is_capped(
    v: Fixed,
    gain: Fixed,
    peaks: Seq<Fixed>,
    ceiling: Fixed,
    j: int,
)
    requires
        0 <= j < peaks.len(),
        0 <= ceiling.raw,
        within(v, peaks[j].raw as int),
        0 <= gain.raw <= ONE,
        gain.raw <= target_gain(peaks, ceiling, peaks.len() as int).raw,
    ensures
        within(v.s_mul(gain), ceiling.raw as int),
{
    let m = magnitude(v.raw as int);
    let g = gain.raw as int;
    let p = peaks[j];
    if ceiling.raw < p.raw {
        lemma_asked_gain(ceiling, p);
        lemma_target_gain_at_most(peaks, ceiling, peaks.len() as int, j);
        let q = ceiling.s_div(p).raw as int;
        assert(m * g / (ONE as int) <= ceiling.raw && 0 <= m * g / (ONE as int))
            by (nonlinear_arith)
            requires
                0 <= m <= p.raw,
                0 <= g <= q,
                p.raw * q <= ceiling.raw * ONE,
        ;
    } else {
        assert(m * g / (ONE as int) <= m && 0 <= m * g / (ONE as int)) by (nonlinear_arith)
            requires
                0 <= m,
                0 <= g <= ONE,
        ;
    }
    assert(magnitude(g) == g);
}

/// What leaves a limiter that holds the level lies within the ceiling, also in the first frame after
/// a change of parameters.
pub proof fn lemma_output_is_capped(
    st: LimiterState<Fixed>,
    frame: Seq<Fixed>,
    ceiling: Fixed,
    release: Fixed,
    ch: int,
)
    requires
        holds_level(st),
        0 <= ceiling.raw,
        0 <= release.raw <= ONE,
        0 <= ch < st.delays.len(),
    ensures
        within(st.output(frame, ceiling, release)[ch], ceiling.raw as int),
{
    let next = st.after(frame, ceiling, release);
    let target = target_gain(next.peaks, ceiling, next.peaks.len() as int);
    lemma_target_gain_bounds(next.peaks, ceiling, next.peaks.len() as int);
    lemma_gain_step(st.gain, target, release);
    // The sample that leaves was measured with the peak that is now one place further on.
    assert(within(st.delays[ch][0], st.peaks[MEASURED_AFTER as int].raw as int));
    assert(next.peaks[MEASURED_AFTER - 1] == st.peaks[MEASURED_AFTER as int]);
    lemma_scaled_is_capped(
        st.delays[ch][0],
        next.gain,
        next.peaks,
        ceiling,
        MEASURED_AFTER - 1,
    );
}

/// The limiter caps the level at the ceiling: from a fresh limiter on, over any frames and with any
/// release coefficient between zero and one, no sample that comes out lies above it.
pub proof fn lemma_ceiling_is_never_exceeded(
    lim: TruePeakLimiterCore<Fixed>,
    frames: Seq<Seq<Fixed>>,
    frame: Seq<Fixed>,
    ch: int,
)
    requires
        lim.wf(),
        lim.is_fresh(),
        0 <= lim.ceiling.raw,
        0 <= lim.release_coef.raw <= ONE,
        frames_in_range(frames, lim.nbr_channels as int),
        0 <= ch < lim.nbr_channels,
    ensures
        within(
            after_frames(lim.state(), frames, lim.ceiling, lim.release_coef).output(
                frame,
                lim.ceiling,
                lim.release_coef,
            )[ch],
            lim.ceiling.raw as int,
        ),
{
    lemma_fresh_limiter_holds_level(lim);
    lemma_frames_keep_level(lim.state(), frames, lim.ceiling, lim.release_coef);
    lemma_output_is_capped(
        after_frames(lim.state(), frames, lim.ceiling, lim.release_coef),
        frame,
        lim.ceiling,
        lim.release_coef,
        ch,
    );
}

/// The parameters of a limiter are such that it holds the level: the ceiling is not negative, and
/// the release coefficient lies between zero and one.
pub proof fn lemma_parameters_hold_the_level(
    ceiling_dbfs: Fixed,
    release_ms: Fixed,
    samplerate: int,
)
    requires
        0 <= samplerate,
    ensures
        0 <= s_ceiling_from_dbfs(ceiling_dbfs).raw,
        0 <= s_release_from_ms(release_ms, samplerate).raw <= ONE,
{
    let ten = Fixed::s_int(10);
    lemma_exp_bounds(ceiling_dbfs.s_div(Fixed::s_int(20)).s_mul(ten.s_ln()));
    if 0 < release_ms.raw {
        let rate = Fixed::s_int(samplerate);
        let product = rate.s_mul(release_ms);
        assert(0 <= rate.raw * release_ms.raw / (ONE as int)) by (nonlinear_arith)
            requires
                0 <= rate.raw,
                0 <= release_ms.raw,
        ;
        let thousand = Fixed::s_int(1000);
        assert(thousand.raw == 1000 * ONE);
        let span = product.s_div(thousand);
        assert(0 <= product.raw * ONE / (thousand.raw as int)) by (nonlinear_arith)
            requires
                0 <= product.raw,
                0 < thousand.raw,
        ;
        let x = Fixed::s_int(-1).s_div(span);
        if span.raw > 0 {
            assert(0 <= ONE * ONE / (span.raw as int)) by (nonlinear_arith)
                requires
                    0 < span.raw,
            ;
        }
        assert(x.raw <= 0);
        lemma_exp_bounds(x);
    }
}

/// A true-peak processor lets no sample out above its ceiling, from its construction on, whatever
/// its parameters and whatever it is given.
pub proof fn lemma_processor_caps(
    tp: TruePeak<Fixed>,
    waves: Seq<Vec<Fixed>>,
    ch: int,
    f: int,
)
    requires
        tp.wf(),
        holds_level(tp.limiter.state()),
        tp.limiter.nbr_channels <= tp.channels,
        0 <= ch < tp.channels,
        0 <= f,
        forall|w: int| 0 <= w < waves.len() ==> in_range((#[trigger] waves[w])@),
    ensures
        ({
            let c = tp.limiter.ceiling;
            let r = tp.limiter.release_coef;
            let n = tp.channels as int;
            &&& within(
                limited_at(tp.limiter.state(), waves, n, c, r, ch, f),
                s_ceiling_from_dbfs(tp.ceiling_dbfs).raw as int,
            )
            &&& holds_level(state_after(tp.limiter.state(), waves, n, c, r, f))
        }),
{
    lemma_parameters_hold_the_level(tp.ceiling_dbfs, tp.release_ms, tp.samplerate as int);
    lemma_chunks_are_capped(
        tp.limiter.state(),
        waves,
        tp.channels as int,
        tp.limiter.ceiling,
        tp.limiter.release_coef,
        ch,
        f,
    );
}

/// The processor caps whole chunks: it goes on holding the level from chunk to chunk, and no sample
/// that it writes lies above the ceiling.
pub proof fn lemma_chunks_are_capped(
    st: LimiterState<Fixed>,
    waves: Seq<Vec<Fixed>>,
    channels: int,
    ceiling: Fixed,
    release: Fixed,
    ch: int,
    f: int,
)
    requires
        holds_level(st),
        0 <= ceiling.raw,
        0 <= release.raw <= ONE,
        st.delays.len() <= channels,
        0 <= ch < channels,
        0 <= f,
        forall|w: int| 0 <= w < waves.len() ==> in_range((#[trigger] waves[w])@),
    ensures
        holds_level(state_after(st, waves, channels, ceiling, release, f)),
        within(limited_at(st, waves, channels, ceiling, release, ch, f), ceiling.raw as int),
    decreases f,
{
    if f > 0 {
        lemma_chunks_are_capped(st, waves, channels, ceiling, release, ch, f - 1);
        lemma_state_after_channels(st, waves, channels, ceiling, release, f - 1);
        let before = state_after(st, waves, channels, ceiling, release, f - 1);
        let frame = frame_at(waves, channels, f - 1);
        assert forall|k: int| 0 <= k < before.delays.len() implies -LIMIT <= (
        #[trigger] frame[k]).raw by {
            if k < waves.len() && f - 1 < waves[k]@.len() {
                assert(in_range(waves[k]@));
                assert(-LIMIT <= waves[k]@[f - 1].raw);
            }
        }
        lemma_frame_keeps_level(before, frame, ceiling, release);
    }
    lemma_state_after_channels(st, waves, channels, ceiling, release, f);
    if ch < st.delays.len() {
        lemma_output_is_capped(
            state_after(st, waves, channels, ceiling, release, f),
            frame_at(waves, channels, f),
            ceiling,
            release,
            ch,
        );
    }
}

// ------------------------------- Bounded input -------------------------------

/// Whether everything that a limiter holds comes from samples within `bound`: the samples
/// themselves, what the first interpolation stage makes of them, and the peaks.
pub open spec fn holds_bounded(st: LimiterState<Fixed>, bound: int) -> bool {
    &&& 0 <= bound
    &&& st.lines1.len() == st.delays.len()
    &&& st.lines2.len() == st.delays.len()
    &&& forall|ch: int|
        0 <= ch < st.delays.len() ==> {
            &&& (#[trigger] st.delays[ch]).len() > 0
            &&& st.lines1[ch].len() == 16
            &&& st.lines2[ch].len() == 16
            &&& all_within(st.delays[ch], bound)
            &&& all_within(st.lines1[ch], bound)
            &&& all_within(st.lines2[ch], stage_reach(bound))
            &&& in_range(st.lines2[ch])
        }
    &&& st.peaks.len() > 0
    &&& forall|j: int|
        0 <= j < st.peaks.len() ==> 0 <= (#[trigger] st.peaks[j]).raw <= probe_reach(bound)
}

/// Whether every one of `frames` has a sample within `bound` for each of `n` channels.
pub open spec fn frames_within(frames: Seq<Seq<Fixed>>, n: int, bound: int) -> bool {
    forall|f: int, k: int|
        0 <= f < frames.len() && 0 <= k < n ==> within(#[trigger] frames[f][k], bound)
}

proof fn lemma_frame_peak_bound(st: LimiterState<Fixed>, frame: Seq<Fixed>, n: int, bound: int)
    requires
        holds_bounded(st, bound),
        0 <= n <= st.delays.len(),
        forall|k: int| 0 <= k < n ==> within(#[trigger] frame[k], bound),
        bound <= LIMIT,
    ensures
        0 <= frame_peak(st, frame, n).raw <= probe_reach(bound),
    decreases n,
{
    lemma_probe_reach_grows(bound);
    if n > 0 {
        lemma_frame_peak_bound(st, frame, n - 1, bound);
        let v = frame[n - 1];
        assert(within(v, bound));
        assert(all_within(st.lines1[n - 1], bound)) by {
            assert(st.delays[n - 1].len() > 0);
        }
        lemma_pushed_within(st.lines1[n - 1], v, bound);
        lemma_probe_bound(pushed(st.lines1[n - 1], v), st.lines2[n - 1], bound);
    }
}

proof fn lemma_pushed_within(line: Seq<Fixed>, v: Fixed, bound: int)
    requires
        all_within(line, bound),
        within(v, bound),
    ensures
        all_within(pushed(line, v), bound),
{
    let next = pushed(line, v);
    assert forall|k: int| 0 <= k < next.len() implies within(#[trigger] next[k], bound) by {
        if k > 0 {
            assert(next[k] == line[k - 1]);
        }
    }
}

/// A sample never leaves the probe smaller than it came in, as far as bounds go.
proof fn lemma_probe_reach_grows(bound: int)
    requires
        0 <= bound,
    ensures
        bound <= stage_reach(bound) <= probe_reach(bound),
{
    lemma_stage_reach_grows(bound);
    lemma_stage_reach_grows(stage_reach(bound));
}

/// A limiter on bounded input goes on holding bounded values.
proof fn lemma_frame_keeps_bounds(
    st: LimiterState<Fixed>,
    frame: Seq<Fixed>,
    ceiling: Fixed,
    release: Fixed,
    bound: int,
)
    requires
        holds_bounded(st, bound),
        bound <= LIMIT,
        forall|k: int| 0 <= k < st.delays.len() ==> within(#[trigger] frame[k], bound),
    ensures
        holds_bounded(st.after(frame, ceiling, release), bound),
{
    let n = st.delays.len() as int;
    let next = st.after(frame, ceiling, release);
    lemma_frame_peak_bound(st, frame, n, bound);
    assert forall|ch: int| 0 <= ch < next.delays.len() implies {
        &&& (#[trigger] next.delays[ch]).len() > 0
        &&& next.lines1[ch].len() == 16
        &&& next.lines2[ch].len() == 16
        &&& all_within(next.delays[ch], bound)
        &&& all_within(next.lines1[ch], bound)
        &&& all_within(next.lines2[ch], stage_reach(bound))
        &&& in_range(next.lines2[ch])
    } by {
        let v = frame[ch];
        assert(within(v, bound));
        assert(st.delays[ch].len() > 0);
        let d = moved_on(st.delays[ch], v);
        assert forall|k: int| 0 <= k < d.len() implies within(#[trigger] d[k], bound) by {
            if k < d.len() - 1 {
                assert(d[k] == st.delays[ch][k + 1]);
            }
        }
        let l1 = pushed(st.lines1[ch], v);
        lemma_pushed_within(st.lines1[ch], v, bound);
        lemma_probe_bound(l1, st.lines2[ch], bound);
    }
    assert forall|j: int| 0 <= j < next.peaks.len() implies 0 <= (
    #[trigger] next.peaks[j]).raw <= probe_reach(bound) by {
        if j < next.peaks.len() - 1 {
            assert(next.peaks[j] == st.peaks[j + 1]);
        }
    }
}

/// A limiter on bounded input holds bounded values over any sequence of frames.
pub proof fn lemma_frames_keep_bounds(
    st: LimiterState<Fixed>,
    frames: Seq<Seq<Fixed>>,
    ceiling: Fixed,
    release: Fixed,
    bound: int,
)
    requires
        holds_bounded(st, bound),
        bound <= LIMIT,
        frames_within(frames, st.delays.len() as int, bound),
    ensures
        holds_bounded(after_frames(st, frames, ceiling, release), bound),
        after_frames(st, frames, ceiling, release).delays.len() == st.delays.len(),
        after_frames(st, frames, ceiling, release).peaks.len() == st.peaks.len(),
    decreases frames.len(),
{
    if frames.len() > 0 {
        let first = frames.drop_last();
        assert forall|f: int, k: int|
            0 <= f < first.len() && 0 <= k < st.delays.len() implies within(
            #[trigger] first[f][k],
            bound,
        ) by {
            assert(first[f][k] == frames[f][k]);
        }
        lemma_frames_keep_bounds(st, first, ceiling, release, bound);
        let before = after_frames(st, first, ceiling, release);
        assert forall|k: int| 0 <= k < before.delays.len() implies within(
            #[trigger] frames.last()[k],
            bound,
        ) by {
            assert(frames.last()[k] == frames[frames.len() - 1][k]);
        }
        lemma_frame_keeps_bounds(before, frames.last(), ceiling, release, bound);
    }
}

/// A limiter that has seen no audio holds bounded values.
proof fn lemma_fresh_limiter_is_bounded(lim: TruePeakLimiterCore<Fixed>, bound: int)
    requires
        lim.wf(),
        lim.is_fresh(),
        0 <= bound,
    ensures
        holds_bounded(lim.state(), bound),
        lim.state().delays.len() == lim.nbr_channels,
{
    let st = lim.state();
    lemma_probe_reach_grows(bound);
    assert(probe_branch::<Fixed>(0).len() == 16);
    assert forall|ch: int| 0 <= ch < st.delays.len() implies {
        &&& (#[trigger] st.delays[ch]).len() > 0
        &&& st.lines1[ch].len() == 16
        &&& st.lines2[ch].len() == 16
        &&& all_within(st.delays[ch], bound)
        &&& all_within(st.lines1[ch], bound)
        &&& all_within(st.lines2[ch], stage_reach(bound))
        &&& in_range(st.lines2[ch])
    } by {
        assert(st.delays[ch] == lim.delay_buffers@[ch]@);
        assert(st.lines1[ch] == lim.oversampler.state_stage1@[ch]@);
        assert(st.lines2[ch] == lim.oversampler.state_stage2@[ch]@);
    }
}

/// The gain that bounded peaks ask for is above zero, as long as the ceiling over the largest of
/// them is not below the last place.
proof fn lemma_target_gain_is_positive(peaks: Seq<Fixed>, ceiling: Fixed, n: int, top: int)
    requires
        0 <= n <= peaks.len(),
        0 < ceiling.raw,
        top <= ceiling.raw * ONE,
        forall|j: int| 0 <= j < peaks.len() ==> (#[trigger] peaks[j]).raw <= top,
    ensures
        0 < target_gain(peaks, ceiling, n).raw,
    decreases n,
{
    if n > 0 {
        lemma_target_gain_is_positive(peaks, ceiling, n - 1, top);
        let p = peaks[n - 1];
        if ceiling.raw < p.raw {
            lemma_asked_gain(ceiling, p);
            let c = ceiling.raw as int;
            let q = c * ONE / (p.raw as int);
            assert(0 < q) by (nonlinear_arith)
                requires
                    0 < c < p.raw <= c * ONE,
                    q == c * ONE / (p.raw as int),
            ;
        }
    }
}

/// One gain is applied to all channels of a frame, above zero and at most one: every channel gives
/// the sample that came in `LOOKAHEAD_SAMPLES` frames earlier (silence before the first) times that
/// gain. Where the ceiling is so low that the gain for the largest peak would vanish below the last
/// place, the input is bounded.
pub proof fn lemma_one_gain_between_zero_and_one(
    lim: TruePeakLimiterCore<Fixed>,
    frames: Seq<Seq<Fixed>>,
    frame: Seq<Fixed>,
    bound: int,
)
    requires
        lim.wf(),
        lim.is_fresh(),
        0 < lim.ceiling.raw,
        0 <= lim.release_coef.raw <= ONE,
        0 <= bound <= LIMIT,
        LIMIT <= lim.ceiling.raw * ONE || 4 * bound <= lim.ceiling.raw * ONE,
        frames_within(frames.push(frame), lim.nbr_channels as int, bound),
    ensures
        ({
            let here = after_frames(lim.state(), frames, lim.ceiling, lim.release_coef);
            let gain = here.after(frame, lim.ceiling, lim.release_coef).gain;
            let out = here.output(frame, lim.ceiling, lim.release_coef);
            &&& 0 < gain.raw <= ONE
            &&& out.len() == lim.nbr_channels
            &&& forall|ch: int|
                0 <= ch < lim.nbr_channels ==> #[trigger] out[ch] == if frames.len()
                    < LOOKAHEAD_SAMPLES {
                    s_zero::<Fixed>()
                } else {
                    frames[frames.len() - LOOKAHEAD_SAMPLES][ch].s_mul(gain)
                }
        }),
{
    let st = lim.state();
    let all = frames.push(frame);
    lemma_probe_at_most_quadruples(bound);
    lemma_fresh_limiter_is_bounded(lim, bound);
    lemma_gain_stays_positive(st, all, lim.ceiling, lim.release_coef, bound);
    let here = after_frames(st, frames, lim.ceiling, lim.release_coef);
    assert(all.drop_last() =~= frames);
    let gain = here.after(frame, lim.ceiling, lim.release_coef).gain;
    let out = here.output(frame, lim.ceiling, lim.release_coef);
    assert(after_frames(st, all, lim.ceiling, lim.release_coef).gain == gain);
    assert(out.len() == lim.nbr_channels) by {
        if lim.nbr_channels > 0 {
            assert(st.delays[0] == lim.delay_buffers@[0]@);
            lemma_windows_delay(st, frames, lim.ceiling, lim.release_coef, 0);
        } else {
            lemma_no_channels(st, frames, lim.ceiling, lim.release_coef);
        }
    }
    assert forall|ch: int| 0 <= ch < lim.nbr_channels implies #[trigger] out[ch] == if frames.len()
        < LOOKAHEAD_SAMPLES {
        s_zero::<Fixed>()
    } else {
        frames[frames.len() - LOOKAHEAD_SAMPLES][ch].s_mul(gain)
    } by {
        assert(st.delays[ch] == lim.delay_buffers@[ch]@);
        lemma_gain_is_linked_across_channels(
            st,
            frames,
            frame,
            lim.ceiling,
            lim.release_coef,
            ch,
        );
        let m = magnitude(gain.raw as int);
        assert(0 * m == 0) by (nonlinear_arith);
        assert(s_zero::<Fixed>().s_mul(gain) == s_zero::<Fixed>());
        if frames.len() < LOOKAHEAD_SAMPLES {
            assert((st.delays[ch] + column(all, ch))[frames.len() as int] == s_zero::<Fixed>());
        }
    }
}

proof fn lemma_no_channels(
    st: LimiterState<Fixed>,
    frames: Seq<Seq<Fixed>>,
    ceiling: Fixed,
    release: Fixed,
)
    ensures
        after_frames(st, frames, ceiling, release).delays.len() == st.delays.len(),
    decreases frames.len(),
{
    if frames.len() > 0 {
        lemma_no_channels(st, frames.drop_last(), ceiling, release);
    }
}

/// The gain stays above zero and at most one over any sequence of bounded frames.
proof fn lemma_gain_stays_positive(
    st: LimiterState<Fixed>,
    frames: Seq<Seq<Fixed>>,
    ceiling: Fixed,
    release: Fixed,
    bound: int,
)
    requires
        holds_bounded(st, bound),
        0 < st.gain.raw <= ONE,
        0 < ceiling.raw,
        0 <= release.raw <= ONE,
        bound <= LIMIT,
        LIMIT <= ceiling.raw * ONE || probe_reach(bound) <= ceiling.raw * ONE,
        frames_within(frames, st.delays.len() as int, bound),
    ensures
        0 < after_frames(st, frames, ceiling, release).gain.raw <= ONE,
    decreases frames.len(),
{
    if frames.len() > 0 {
        let first = frames.drop_last();
        assert forall|f: int, k: int|
            0 <= f < first.len() && 0 <= k < st.delays.len() implies within(
            #[trigger] first[f][k],
            bound,
        ) by {
            assert(first[f][k] == frames[f][k]);
        }
        lemma_gain_stays_positive(st, first, ceiling, release, bound);
        lemma_frames_keep_bounds(st, frames, ceiling, release, bound);
        let before = after_frames(st, first, ceiling, release);
        let next = after_frames(st, frames, ceiling, release);
        let n = next.peaks.len() as int;
        lemma_target_gain_bounds(next.peaks, ceiling, n);
        let top = if LIMIT <= ceiling.raw * ONE {
            LIMIT as int
        } else {
            probe_reach(bound)
        };
        lemma_target_gain_is_positive(next.peaks, ceiling, n, top);
        lemma_gain_step(before.gain, target_gain(next.peaks, ceiling, n), release);
    }
}

/// The gain stays at one over any sequence of frames whose peaks stay within the ceiling.
proof fn lemma_gain_stays_one(
    st: LimiterState<Fixed>,
    frames: Seq<Seq<Fixed>>,
    ceiling: Fixed,
    release: Fixed,
    bound: int,
)
    requires
        holds_bounded(st, bound),
        st.gain.raw == ONE,
        0 <= release.raw <= ONE,
        bound <= LIMIT,
        probe_reach(bound) <= ceiling.raw,
        frames_within(frames, st.delays.len() as int, bound),
    ensures
        after_frames(st, frames, ceiling, release).gain.raw == ONE,
    decreases frames.len(),
{
    if frames.len() > 0 {
        let first = frames.drop_last();
        assert forall|f: int, k: int|
            0 <= f < first.len() && 0 <= k < st.delays.len() implies within(
            #[trigger] first[f][k],
            bound,
        ) by {
            assert(first[f][k] == frames[f][k]);
        }
        lemma_gain_stays_one(st, first, ceiling, release, bound);
        lemma_frames_keep_bounds(st, frames, ceiling, release, bound);
        let before = after_frames(st, first, ceiling, release);
        let next = after_frames(st, frames, ceiling, release);
        let n = next.peaks.len() as int;
        assert forall|i: int| 0 <= i < n implies !ceiling.s_lt(#[trigger] next.peaks[i]) by {
            assert(next.peaks[i].raw <= probe_reach(bound));
        }
        lemma_quiet_asks_for_no_attenuation(next.peaks, ceiling, n);
        lemma_gain_step(before.gain, target_gain(next.peaks, ceiling, n), release);
    }
}

/// Quiet material passes unaltered: as long as no sample is so large that the probe could make a
/// peak above the ceiling of it, the limiter only delays. The gain is exactly one throughout, and
/// the attenuation is 0 dB.
pub proof fn lemma_quiet_is_transparent(
    lim: TruePeakLimiterCore<Fixed>,
    after: TruePeakLimiterCore<Fixed>,
    frames: Seq<Seq<Fixed>>,
    frame: Seq<Fixed>,
    bound: int,
)
    requires
        lim.wf(),
        lim.is_fresh(),
        0 <= lim.release_coef.raw <= ONE,
        0 <= bound <= LIMIT,
        probe_reach(bound) <= lim.ceiling.raw,
        frames_within(frames.push(frame), lim.nbr_channels as int, bound),
        after.state() == after_frames(
            lim.state(),
            frames.push(frame),
            lim.ceiling,
            lim.release_coef,
        ),
    ensures
        ({
            let here = after_frames(lim.state(), frames, lim.ceiling, lim.release_coef);
            let out = here.output(frame, lim.ceiling, lim.release_coef);
            forall|ch: int|
                0 <= ch < lim.nbr_channels ==> #[trigger] out[ch] == if frames.len()
                    < LOOKAHEAD_SAMPLES {
                    s_zero::<Fixed>()
                } else {
                    frames[frames.len() - LOOKAHEAD_SAMPLES][ch]
                }
        }),
        after.current_gain == s_one::<Fixed>(),
        after.s_attenuation_db() == s_zero::<Fixed>(),
{
    let st = lim.state();
    let all = frames.push(frame);
    lemma_fresh_limiter_is_bounded(lim, bound);
    lemma_gain_stays_one(st, all, lim.ceiling, lim.release_coef, bound);
    lemma_unity_is_no_attenuation(after);
    let here = after_frames(st, frames, lim.ceiling, lim.release_coef);
    assert(all.drop_last() =~= frames);
    let gain = here.after(frame, lim.ceiling, lim.release_coef).gain;
    let out = here.output(frame, lim.ceiling, lim.release_coef);
    assert forall|ch: int| 0 <= ch < lim.nbr_channels implies #[trigger] out[ch] == if frames.len()
        < LOOKAHEAD_SAMPLES {
        s_zero::<Fixed>()
    } else {
        frames[frames.len() - LOOKAHEAD_SAMPLES][ch]
    } by {
        assert(st.delays[ch] == lim.delay_buffers@[ch]@);
        lemma_gain_is_linked_across_channels(
            st,
            frames,
            frame,
            lim.ceiling,
            lim.release_coef,
            ch,
        );
        lemma_windows_delay(st, frames, lim.ceiling, lim.release_coef, ch);
        let heard = (st.delays[ch] + column(all, ch))[frames.len() as int];
        if frames.len() >= LOOKAHEAD_SAMPLES {
            let f = frames.len() - LOOKAHEAD_SAMPLES;
            assert(within(all[f][ch], bound));
            assert(all[f] == frames[f]);
        }
        assert(-LIMIT <= heard.raw);
        let m = magnitude(heard.raw as int);
        assert(m * ONE / (ONE as int) == m);
        assert(heard.s_mul(gain) == heard);
    }
}

/// Material within a quarter of the ceiling passes unaltered: it is delayed and nothing else, and the
/// attenuation is 0 dB.
pub proof fn lemma_quarter_of_the_ceiling_is_transparent(
    lim: TruePeakLimiterCore<Fixed>,
    after: TruePeakLimiterCore<Fixed>,
    frames: Seq<Seq<Fixed>>,
    frame: Seq<Fixed>,
)
    requires
        lim.wf(),
        lim.is_fresh(),
        0 <= lim.ceiling.raw,
        0 <= lim.release_coef.raw <= ONE,
        frames_within(
            frames.push(frame),
            lim.nbr_channels as int,
            lim.ceiling.raw as int / 4,
        ),
        after.state() == after_frames(
            lim.state(),
            frames.push(frame),
            lim.ceiling,
            lim.release_coef,
        ),
    ensures
        ({
            let here = after_frames(lim.state(), frames, lim.ceiling, lim.release_coef);
            let out = here.output(frame, lim.ceiling, lim.release_coef);
            forall|ch: int|
                0 <= ch < lim.nbr_channels ==> #[trigger] out[ch] == if frames.len()
                    < LOOKAHEAD_SAMPLES {
                    s_zero::<Fixed>()
                } else {
                    frames[frames.len() - LOOKAHEAD_SAMPLES][ch]
                }
        }),
        after.current_gain == s_one::<Fixed>(),
        after.s_attenuation_db() == s_zero::<Fixed>(),
{
    let bound = lim.ceiling.raw as int / 4;
    lemma_probe_at_most_quadruples(bound);
    lemma_quiet_is_transparent(lim, after, frames, frame, bound);
}

/// A gain of one is an attenuation of 0 dB.
pub proof fn lemma_unity_is_no_attenuation(lim: TruePeakLimiterCore<Fixed>)
    requires
        lim.current_gain == s_one::<Fixed>(),
    ensures
        lim.s_attenuation_db() == s_zero::<Fixed>(),
{
    reveal_with_fuel(tenths, 10);
    let one = s_one::<Fixed>();
    assert(one.s_max(Fixed::s_dec(1, 9)) == one);
    lemma_log_of_one();
    lemma_zero_product(Fixed::s_int(20));
}

/// The reported attenuation is zero where nothing is limited and negative where the limiter is
/// active: it is 0 dB for a gain of one, and below that for every smaller gain.
pub proof fn lemma_attenuation_tells_limiting(lim: TruePeakLimiterCore<Fixed>)
    requires
        lim.current_gain.raw <= ONE,
    ensures
        lim.s_attenuation_db().raw <= 0,
        lim.current_gain.raw == ONE <==> lim.s_attenuation_db().raw == 0,
{
    reveal_with_fuel(tenths, 10);
    if lim.current_gain.raw == ONE {
        lemma_unity_is_no_attenuation(lim);
    } else {
        let gain = lim.current_gain.s_max(Fixed::s_dec(1, 9));
        lemma_log10_sign(gain);
        let twenty = Fixed::s_int(20);
        let last = saturated(-1);
        lemma_product_rises(twenty, gain.s_log10(), last);
        assert(20 * ONE * 1 / (ONE as int) == 20);
        assert(twenty.s_mul(last).raw == -20);
    }
}

/// The processor and the guard report no gain: a limiter that holds the level, as both do from chunk
/// to chunk, reports an attenuation that is never above 0 dB, and 0 dB only for a gain of one.
pub proof fn lemma_level_is_held_without_gain(lim: TruePeakLimiterCore<Fixed>)
    requires
        holds_level(lim.state()),
    ensures
        lim.s_attenuation_db().raw <= 0,
        lim.current_gain.raw == ONE <==> lim.s_attenuation_db().raw == 0,
{
    lemma_attenuation_tells_limiting(lim);
}

/// The gain stays at most one over any frames.
proof fn lemma_gain_stays_at_most_one(
    st: LimiterState<Fixed>,
    frames: Seq<Seq<Fixed>>,
    ceiling: Fixed,
    release: Fixed,
)
    requires
        0 <= st.gain.raw <= ONE,
        0 <= ceiling.raw,
        0 <= release.raw <= ONE,
    ensures
        0 <= after_frames(st, frames, ceiling, release).gain.raw <= ONE,
    decreases frames.len(),
{
    if frames.len() > 0 {
        lemma_gain_stays_at_most_one(st, frames.drop_last(), ceiling, release);
        let before = after_frames(st, frames.drop_last(), ceiling, release);
        let next = after_frames(st, frames, ceiling, release);
        let n = next.peaks.len() as int;
        lemma_target_gain_bounds(next.peaks, ceiling, n);
        lemma_gain_step(before.gain, target_gain(next.peaks, ceiling, n), release);
    }
}

/// Over any frames, whatever their level, the attenuation that a limiter reports is never above
/// 0 dB, from the state without audio on.
pub proof fn lemma_attenuation_is_never_positive(
    lim: TruePeakLimiterCore<Fixed>,
    after: TruePeakLimiterCore<Fixed>,
    frames: Seq<Seq<Fixed>>,
)
    requires
        lim.wf(),
        lim.is_fresh(),
        0 <= lim.ceiling.raw,
        0 <= lim.release_coef.raw <= ONE,
        after.state() == after_frames(lim.state(), frames, lim.ceiling, lim.release_coef),
    ensures
        after.s_attenuation_db().raw <= 0,
        after.current_gain.raw == ONE <==> after.s_attenuation_db().raw == 0,
{
    lemma_gain_stays_at_most_one(lim.state(), frames, lim.ceiling, lim.release_coef);
    lemma_attenuation_tells_limiting(after);
}

// ------------------------------- Reset -------------------------------

/// A reset limiter is as good as a new one: two limiters without audio, for the same number of
/// channels and with the same parameters, are in the same state, so they give the same output for
/// every input and report the same attenuation, which in fixed point is 0 dB.
pub proof fn lemma_reset_starts_anew(
    a: TruePeakLimiterCore<Fixed>,
    b: TruePeakLimiterCore<Fixed>,
)
    requires
        a.wf(),
        b.wf(),
        a.is_fresh(),
        b.is_fresh(),
        a.nbr_channels == b.nbr_channels,
    ensures
        a.state() == b.state(),
        a.s_attenuation_db() == s_zero::<Fixed>(),
{
    lemma_fresh_states_agree(a, b);
    lemma_unity_is_no_attenuation(a);
}

} // verus!
