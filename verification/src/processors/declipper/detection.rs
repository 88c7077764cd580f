//! What counts as a clip, stated over the samples: a run that is repaired is a flat top, and a flat
//! top is repaired.

use crate::arith::{max_int, monus, s_zero};
use crate::fixed::{magnitude, tenths, Fixed, LIMIT};
use crate::prcfmt::PrcFmt;
use crate::processors::declipper::line_after;
use crate::processors::declipper::scan::{
    began_earlier, continues, in_order, in_runs, lemma_plateau_end, lemma_repaired_outside,
    lemma_scan_goes_forward, plateau_end, repaired, scan, ClipSettings,
};
use vstd::prelude::*;

verus! {

/// Whether `[s, e)` is a flat top: every sample is at least as loud as the threshold, all have the
/// same sign, and no two neighbours differ by more than `1e-5`.
pub open spec fn is_flat_top<T: PrcFmt>(buf: Seq<T>, s: int, e: int, threshold: T) -> bool {
    &&& !buf[s].s_abs().s_lt(threshold)
    &&& forall|p: int|
        s < p < e ==> {
            &&& threshold.s_le((#[trigger] buf[p]).s_abs())
            &&& s_zero::<T>().s_lt(buf[p]) == s_zero::<T>().s_lt(buf[s])
            &&& buf[p].s_sub(buf[p - 1]).s_abs().s_le(T::s_dec(1, 5))
        }
}

/// Only flat tops are repaired, however loud the signal is.
pub proof fn lemma_repaired_runs_are_flat_tops<T: PrcFmt>(
    buf: Seq<T>,
    i: int,
    end: int,
    set: ClipSettings<T>,
    runs: Seq<(int, int)>,
    long: Option<int>,
)
    requires
        1 <= i,
        end <= buf.len(),
        in_order(runs),
        runs.len() > 0 ==> runs.last().1 <= i,
    ensures
        ({
            let done = scan(buf, i, end, set, runs, long);
            forall|a: int|
                runs.len() <= a < done.runs.len() ==> is_flat_top(
                    buf,
                    (#[trigger] done.runs[a]).0,
                    done.runs[a].1,
                    set.threshold,
                )
        }),
    decreases monus(end, i),
{
    let done = scan(buf, i, end, set, runs, long);
    if i < end {
        if buf[i].s_abs().s_lt(set.threshold) || began_earlier(buf, i, set.threshold) {
            lemma_repaired_runs_are_flat_tops(buf, i + 1, end, set, runs, long);
        } else {
            let positive = s_zero::<T>().s_lt(buf[i]);
            lemma_plateau_end(buf, i + 1, positive, set.threshold);
            let e = plateau_end(buf, i + 1, positive, set.threshold);
            if e >= buf.len() || e - i < set.min_len {
                lemma_repaired_runs_are_flat_tops(buf, e, end, set, runs, long);
            } else if e - i > set.max_len {
                lemma_repaired_runs_are_flat_tops(buf, e, end, set, runs, Some(e - i));
            } else if buf.len() - e < 2 {
                lemma_repaired_runs_are_flat_tops(buf, e, end, set, runs, long);
            } else {
                let next = repaired(buf, i, e, set);
                let more = runs.push((i, e));
                lemma_repaired_outside(buf, i, e, set);
                assert forall|a: int, b: int| 0 <= a < b < more.len() implies (
                #[trigger] more[a]).1 <= (#[trigger] more[b]).0 by {
                    if b == runs.len() && a < runs.len() - 1 {
                        assert(runs[a].1 <= runs.last().0);
                    }
                }
                lemma_repaired_runs_are_flat_tops(next, e, end, set, more, long);
                lemma_scan_goes_forward(next, e, end, set, more, long);
                assert(done.runs.take(more.len() as int)[runs.len() as int] == (i, e));
                assert forall|a: int| runs.len() <= a < done.runs.len() implies is_flat_top(
                    buf,
                    (#[trigger] done.runs[a]).0,
                    done.runs[a].1,
                    set.threshold,
                ) by {
                    let (s, f) = done.runs[a];
                    if a == runs.len() {
                        assert forall|p: int| i < p < e implies {
                            &&& set.threshold.s_le((#[trigger] buf[p]).s_abs())
                            &&& s_zero::<T>().s_lt(buf[p]) == s_zero::<T>().s_lt(buf[i])
                            &&& buf[p].s_sub(buf[p - 1]).s_abs().s_le(T::s_dec(1, 5))
                        } by {
                            assert(continues(buf, p, positive, set.threshold));
                        }
                    } else {
                        assert(is_flat_top(next, s, f, set.threshold));
                        assert(e <= s < f && f + 2 <= buf.len());
                        assert(next[s] == buf[s]);
                        assert forall|p: int| s < p < f implies {
                            &&& set.threshold.s_le((#[trigger] buf[p]).s_abs())
                            &&& s_zero::<T>().s_lt(buf[p]) == s_zero::<T>().s_lt(buf[s])
                            &&& buf[p].s_sub(buf[p - 1]).s_abs().s_le(T::s_dec(1, 5))
                        } by {
                            assert(next[p] == buf[p] && next[p - 1] == buf[p - 1]);
                        }
                    }
                }
            }
        }
    }
}

/// The flatness bound in units of the last place: `1e-5`.
pub const FLAT_UNITS: i64 = 42949;

proof fn lemma_flat_units()
    ensures
        Fixed::s_dec(1, 5).raw == FLAT_UNITS,
{
    reveal_with_fuel(tenths, 6);
}

/// In fixed point: any two neighbours inside a run that is repaired differ by at most `1e-5`, both
/// are as loud as the threshold, and both have the same sign.
pub proof fn lemma_neighbours_in_a_repaired_run_are_close(
    buf: Seq<Fixed>,
    i: int,
    end: int,
    set: ClipSettings<Fixed>,
    a: int,
    p: int,
)
    requires
        1 <= i,
        end <= buf.len(),
        forall|k: int| 0 <= k < buf.len() ==> magnitude((#[trigger] buf[k]).raw as int) <= LIMIT / 2,
        0 <= a < scan(buf, i, end, set, Seq::empty(), None).runs.len(),
        ({
            let run = scan(buf, i, end, set, Seq::empty(), None).runs[a];
            run.0 < p < run.1
        }),
    ensures
        magnitude(buf[p].raw - buf[p - 1].raw) <= 42949,
        set.threshold.raw <= magnitude(buf[p].raw as int),
        set.threshold.raw <= magnitude(buf[p - 1].raw as int),
        0 < buf[p].raw <==> 0 < buf[p - 1].raw,
{
    let none = Seq::<(int, int)>::empty();
    lemma_repaired_runs_are_flat_tops(buf, i, end, set, none, None);
    lemma_scan_goes_forward(buf, i, end, set, none, None);
    lemma_flat_units();
    let done = scan(buf, i, end, set, none, None);
    let (s, e) = done.runs[a];
    assert(is_flat_top(buf, s, e, set.threshold));
    assert(magnitude(buf[p].raw as int) <= LIMIT / 2 && magnitude(buf[p - 1].raw as int) <= LIMIT
        / 2);
    assert(set.threshold.s_le(buf[p].s_abs()));
    assert(p - 1 == s || set.threshold.s_le(buf[p - 1].s_abs()));
}

/// A stretch in which all neighbours differ by more than `1e-5` is never altered, however loud it
/// is: where every pair of neighbours in the buffer does, nothing is repaired.
pub proof fn lemma_steep_signals_are_left_alone(
    buf: Seq<Fixed>,
    i: int,
    end: int,
    set: ClipSettings<Fixed>,
)
    requires
        1 <= i,
        end <= buf.len(),
        2 <= set.min_len,
        forall|k: int| 0 <= k < buf.len() ==> magnitude((#[trigger] buf[k]).raw as int) <= LIMIT / 2,
        forall|p: int| i < p < buf.len() ==> 42949 < magnitude((#[trigger] buf[p]).raw - buf[p - 1].raw),
    ensures
        scan(buf, i, end, set, Seq::empty(), None).runs == Seq::<(int, int)>::empty(),
        scan(buf, i, end, set, Seq::empty(), None).line == buf,
{
    let none = Seq::<(int, int)>::empty();
    let done = scan(buf, i, end, set, none, None);
    lemma_scan_goes_forward(buf, i, end, set, none, None);
    if done.runs.len() > 0 {
        let (s, e) = done.runs[0];
        lemma_neighbours_in_a_repaired_run_are_close(buf, i, end, set, 0, s + 1);
        assert(buf[s + 1].raw - buf[s].raw == buf[s + 1].raw - buf[s + 1 - 1].raw);
    }
    assert(done.runs =~= none);
    assert forall|j: int| 0 <= j < buf.len() implies done.line[j] == buf[j] by {
        assert(!in_runs(done.runs, j));
    }
    assert(done.line =~= buf);
}

/// A chunk whose neighbouring samples all differ by more than `1e-5`, behind a delay line of such
/// samples, is passed on as it is.
pub proof fn lemma_steep_chunk_is_kept(
    buf: Seq<Fixed>,
    to: int,
    wave: Seq<Fixed>,
    process: bool,
    set: ClipSettings<Fixed>,
)
    requires
        1 <= set.ctx <= buf.len(),
        2 <= set.min_len,
        forall|k: int|
            0 <= k < (buf + wave).len() ==> magnitude((#[trigger] (buf + wave)[k]).raw as int)
                <= LIMIT / 2,
        forall|p: int|
            set.ctx < p < (buf + wave).len() ==> 42949 < magnitude(
                (#[trigger] (buf + wave)[p]).raw - (buf + wave)[p - 1].raw,
            ),
    ensures
        line_after(buf, to, wave, process, set).line == buf + wave,
        line_after(buf, to, wave, process, set).runs == Seq::<(int, int)>::empty(),
{
    if process {
        lemma_steep_signals_are_left_alone(
            buf + wave,
            max_int(set.ctx as int, to),
            set.ctx + wave.len(),
            set,
        );
    }
}

// ------------------------------- The other way round -------------------------------

/// A plateau ends where a flat top does.
proof fn lemma_flat_top_ends<T: PrcFmt>(buf: Seq<T>, s: int, p: int, e: int, threshold: T)
    requires
        0 <= s < p <= e < buf.len(),
        is_flat_top(buf, s, e, threshold),
        !continues(buf, e, s_zero::<T>().s_lt(buf[s]), threshold),
    ensures
        plateau_end(buf, p, s_zero::<T>().s_lt(buf[s]), threshold) == e,
    decreases e - p,
{
    if p < e {
        assert(threshold.s_le(buf[p].s_abs()));
        assert(continues(buf, p, s_zero::<T>().s_lt(buf[s]), threshold));
        lemma_flat_top_ends(buf, s, p + 1, e, threshold);
    }
}

/// The runs that were repaired before a scan stay where they stand in its list.
proof fn lemma_runs_are_kept<T: PrcFmt>(
    buf: Seq<T>,
    i: int,
    end: int,
    set: ClipSettings<T>,
    runs: Seq<(int, int)>,
    long: Option<int>,
    a: int,
)
    requires
        0 <= a < runs.len(),
    ensures
        a < scan(buf, i, end, set, runs, long).runs.len(),
        scan(buf, i, end, set, runs, long).runs[a] == runs[a],
    decreases monus(end, i),
{
    if i < end {
        if buf[i].s_abs().s_lt(set.threshold) || began_earlier(buf, i, set.threshold) {
            lemma_runs_are_kept(buf, i + 1, end, set, runs, long, a);
        } else {
            let positive = s_zero::<T>().s_lt(buf[i]);
            lemma_plateau_end(buf, i + 1, positive, set.threshold);
            let e = plateau_end(buf, i + 1, positive, set.threshold);
            if e >= buf.len() || e - i < set.min_len {
                lemma_runs_are_kept(buf, e, end, set, runs, long, a);
            } else if e - i > set.max_len {
                lemma_runs_are_kept(buf, e, end, set, runs, Some(e - i), a);
            } else if buf.len() - e < 2 {
                lemma_runs_are_kept(buf, e, end, set, runs, long, a);
            } else {
                let next = repaired(buf, i, e, set);
                lemma_runs_are_kept(next, e, end, set, runs.push((i, e)), long, a);
            }
        }
    }
}

/// Whether a flat top cannot reach from sample `p - 1` into sample `p` of a fixed-point signal: the
/// first lies below the threshold, has the other sign or lies more than `1e-5` away.
pub open spec fn apart(buf: Seq<Fixed>, p: int, threshold: int) -> bool {
    &&& magnitude(buf[p - 1].raw as int) <= LIMIT / 2
    &&& magnitude(buf[p].raw as int) <= LIMIT / 2
    &&& magnitude(buf[p - 1].raw as int) < threshold || (0 < buf[p - 1].raw) != (0 < buf[p].raw)
        || 42949 < magnitude(buf[p].raw - buf[p - 1].raw)
}

/// Whether `[s, e)` is a whole flat top of a fixed-point signal, counted in units of the last
/// place: the sample before it is apart from it, and it is followed by one that is not as loud, has
/// the other sign or lies more than `1e-5` away from its neighbour.
pub open spec fn is_whole_flat_top(buf: Seq<Fixed>, s: int, e: int, threshold: int) -> bool {
    &&& forall|p: int|
        s - 1 <= p <= e ==> magnitude((#[trigger] buf[p]).raw as int) <= LIMIT / 2
    &&& apart(buf, s, threshold)
    &&& forall|p: int| s <= p < e ==> threshold <= magnitude((#[trigger] buf[p]).raw as int)
    &&& forall|p: int| s <= p < e ==> (0 < (#[trigger] buf[p]).raw <==> 0 < buf[s].raw)
    &&& forall|p: int|
        s < p < e ==> magnitude((#[trigger] buf[p]).raw - buf[p - 1].raw) <= 42949
    &&& magnitude(buf[e].raw as int) < threshold || (0 < buf[e].raw) != (0 < buf[s].raw) || 42949
        < magnitude(buf[e].raw - buf[e - 1].raw)
}

proof fn lemma_whole_flat_top(buf: Seq<Fixed>, s: int, e: int, threshold: Fixed)
    requires
        1 <= s < e < buf.len(),
        is_whole_flat_top(buf, s, e, threshold.raw as int),
    ensures
        is_flat_top(buf, s, e, threshold),
        !began_earlier(buf, s, threshold),
        !continues(buf, e, s_zero::<Fixed>().s_lt(buf[s]), threshold),
{
    lemma_flat_units();
    assert(magnitude(buf[s].raw as int) <= LIMIT / 2);
    assert(magnitude(buf[s - 1].raw as int) <= LIMIT / 2);
    assert(magnitude(buf[e].raw as int) <= LIMIT / 2);
    assert(magnitude(buf[e - 1].raw as int) <= LIMIT / 2);
    assert forall|p: int| s < p < e implies {
        &&& threshold.s_le((#[trigger] buf[p]).s_abs())
        &&& s_zero::<Fixed>().s_lt(buf[p]) == s_zero::<Fixed>().s_lt(buf[s])
        &&& buf[p].s_sub(buf[p - 1]).s_abs().s_le(Fixed::s_dec(1, 5))
    } by {
        assert(magnitude(buf[p].raw as int) <= LIMIT / 2);
        assert(magnitude(buf[p - 1].raw as int) <= LIMIT / 2);
        assert(magnitude(buf[p].raw - buf[p - 1].raw) <= 42949);
        assert(threshold.raw <= magnitude(buf[p].raw as int));
    }
}

/// A plateau does not reach across two samples that are apart.
proof fn lemma_plateau_stops(buf: Seq<Fixed>, i: int, p: int, threshold: Fixed)
    requires
        0 <= i < p < buf.len(),
        !buf[i].s_abs().s_lt(threshold),
        apart(buf, p, threshold.raw as int),
    ensures
        plateau_end(buf, i + 1, s_zero::<Fixed>().s_lt(buf[i]), threshold) <= p,
{
    lemma_flat_units();
    let positive = s_zero::<Fixed>().s_lt(buf[i]);
    lemma_plateau_end(buf, i + 1, positive, threshold);
    if plateau_end(buf, i + 1, positive, threshold) > p {
        assert(continues(buf, p, positive, threshold));
        if p - 1 > i {
            assert(continues(buf, p - 1, positive, threshold));
        }
    }
}

/// Every flat top of a length between the limits that starts inside the scanned stretch, and has
/// two samples behind it, is repaired. The sample before it lies below the threshold, or belongs to
/// no run of its own.
pub proof fn lemma_flat_tops_are_repaired(
    buf: Seq<Fixed>,
    i: int,
    end: int,
    set: ClipSettings<Fixed>,
    runs: Seq<(int, int)>,
    long: Option<int>,
    s: int,
    e: int,
)
    requires
        1 <= i <= s < end,
        end <= buf.len(),
        s < e,
        e + 2 <= buf.len(),
        set.min_len <= e - s <= set.max_len,
        is_whole_flat_top(buf, s, e, set.threshold.raw as int),
        magnitude(buf[s - 1].raw as int) < set.threshold.raw || (2 <= set.min_len && (i <= s - 2
            ==> apart(buf, s - 1, set.threshold.raw as int))),
    ensures
        scan(buf, i, end, set, runs, long).runs.contains((s, e)),
    decreases s - i,
{
    let thr = set.threshold;
    lemma_whole_flat_top(buf, s, e, thr);
    if i == s {
        lemma_flat_top_ends(buf, s, s + 1, e, thr);
        let more = runs.push((s, e));
        lemma_runs_are_kept(repaired(buf, s, e, set), e, end, set, more, long, runs.len() as int);
        let done = scan(buf, s, end, set, runs, long);
        assert(done.runs[runs.len() as int] == (s, e));
    } else if buf[i].s_abs().s_lt(thr) || began_earlier(buf, i, thr) {
        lemma_flat_tops_are_repaired(buf, i + 1, end, set, runs, long, s, e);
    } else {
        let positive = s_zero::<Fixed>().s_lt(buf[i]);
        lemma_plateau_end(buf, i + 1, positive, thr);
        let f = plateau_end(buf, i + 1, positive, thr);
        let quiet_before = magnitude(buf[s - 1].raw as int) < thr.raw;
        lemma_plateau_stops(buf, i, s, thr);
        if i == s - 1 {
            assert(!quiet_before);
        } else if quiet_before {
            if f > s - 1 {
                assert(continues(buf, s - 1, positive, thr));
            }
        } else {
            lemma_plateau_stops(buf, i, s - 1, thr);
        }
        assert(f <= s - 1 || f - i < set.min_len);
        if f - i < set.min_len {
            lemma_flat_tops_are_repaired(buf, f, end, set, runs, long, s, e);
        } else if f - i > set.max_len {
            lemma_flat_tops_are_repaired(buf, f, end, set, runs, Some(f - i), s, e);
        } else {
            let next = repaired(buf, i, f, set);
            lemma_repaired_outside(buf, i, f, set);
            assert(is_whole_flat_top(next, s, e, thr.raw as int)) by {
                assert forall|p: int| s - 1 <= p <= e implies next[p] == buf[p] by {}
                assert forall|p: int| s < p < e implies magnitude(
                    (#[trigger] next[p]).raw - next[p - 1].raw,
                ) <= 42949 by {
                    assert(magnitude(buf[p].raw - buf[p - 1].raw) <= 42949);
                }
            }
            lemma_flat_tops_are_repaired(next, f, end, set, runs.push((i, f)), long, s, e);
        }
    }
}

} // verus!
