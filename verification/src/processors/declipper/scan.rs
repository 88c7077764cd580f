//! Detection of clip runs in one channel, and their repair.

use crate::arith::{monus, s_zero};
use crate::config::DeclipMethod;
use crate::prcfmt::PrcFmt;
use crate::processors::declipper::gap::{
    ar_repaired, flat_eps, flat_step, lemma_ar_repaired_outside, reconstruct_ar, reconstruct_cubic,
    with_cubic, ArScratch, ArSettings,
};
use vstd::prelude::*;

verus! {

/// What counts as a clip, and how a clip is repaired.
pub struct ClipSettings<T> {
    /// Magnitude from which a sample may belong to a clip plateau.
    pub threshold: T,
    /// Shortest run that is repaired.
    pub min_len: usize,
    /// Longest run that is repaired.
    pub max_len: usize,
    pub method: DeclipMethod,
    /// Model order asked for.
    pub order: usize,
    /// Context samples used on each side of a clip, at most.
    pub ctx: usize,
    /// Longest run that the autoregressive method takes.
    pub gap_cap: usize,
}

impl<T> ClipSettings<T> {
    /// The part that governs the autoregressive method.
    pub open spec fn ar(self) -> ArSettings<T> {
        ArSettings { max_ctx: self.ctx, threshold: self.threshold, req_order: self.order }
    }
}

/// Whether sample `p` lies below the threshold, in the sense of either comparison.
pub open spec fn quiet<T: PrcFmt>(v: T, threshold: T) -> bool {
    v.s_abs().s_lt(threshold) && !threshold.s_le(v.s_abs())
}

/// Whether sample `p` continues a plateau of the given sign.
pub open spec fn continues<T: PrcFmt>(buf: Seq<T>, p: int, positive: bool, threshold: T) -> bool {
    &&& threshold.s_le(buf[p].s_abs())
    &&& s_zero::<T>().s_lt(buf[p]) == positive
    &&& flat_step(buf, p)
}

/// Whether sample `p` belongs to a plateau that began before it.
pub open spec fn began_earlier<T: PrcFmt>(buf: Seq<T>, p: int, threshold: T) -> bool {
    &&& threshold.s_le(buf[p - 1].s_abs())
    &&& s_zero::<T>().s_lt(buf[p - 1]) == s_zero::<T>().s_lt(buf[p])
    &&& flat_step(buf, p)
}

/// The end of a plateau that is known to reach up to `e`.
pub open spec fn plateau_end<T: PrcFmt>(buf: Seq<T>, e: int, positive: bool, threshold: T) -> int
    decreases buf.len() - e,
{
    if e < buf.len() && continues(buf, e, positive, threshold) {
        plateau_end(buf, e + 1, positive, threshold)
    } else {
        e
    }
}

/// A plateau ends at or behind the point that it is known to reach, every sample up to its end
/// continues it, and it stays inside the buffer.
pub proof fn lemma_plateau_end<T: PrcFmt>(buf: Seq<T>, e: int, positive: bool, threshold: T)
    ensures
        e <= plateau_end(buf, e, positive, threshold),
        e <= buf.len() ==> plateau_end(buf, e, positive, threshold) <= buf.len(),
        forall|p: int|
            e <= p < plateau_end(buf, e, positive, threshold) ==> #[trigger] continues(
                buf,
                p,
                positive,
                threshold,
            ),
    decreases buf.len() - e,
{
    if e < buf.len() && continues(buf, e, positive, threshold) {
        lemma_plateau_end(buf, e + 1, positive, threshold);
    }
}

/// The buffer with the clip `[s, e)` repaired: by the autoregressive method where it is chosen and
/// succeeds, else by the cubic.
pub open spec fn repaired<T: PrcFmt>(buf: Seq<T>, s: int, e: int, set: ClipSettings<T>) -> Seq<T> {
    if set.method == DeclipMethod::Ar && e - s <= set.gap_cap {
        match ar_repaired(buf, s, e, set.ar(), set.ctx as int, set.gap_cap as int) {
            Some(out) => out,
            None => with_cubic(buf, s, e),
        }
    } else {
        with_cubic(buf, s, e)
    }
}

/// What a scan makes of a buffer.
pub struct Scanned<T> {
    /// The repaired buffer.
    pub line: Seq<T>,
    /// The runs that were repaired, from start to end, in the order of their repair.
    pub runs: Seq<(int, int)>,
    /// The length of the last run that was too long to repair, if there was one.
    pub long: Option<int>,
}

/// The number of samples in `runs`.
pub open spec fn covered(runs: Seq<(int, int)>) -> int
    decreases runs.len(),
{
    if runs.len() == 0 {
        0
    } else {
        covered(runs.drop_last()) + (runs.last().1 - runs.last().0)
    }
}

/// Whether sample `p` lies in one of `runs`.
pub open spec fn in_runs(runs: Seq<(int, int)>, p: int) -> bool {
    exists|a: int| 0 <= a < runs.len() && (#[trigger] runs[a]).0 <= p < runs[a].1
}

/// Whether `runs` lie one behind the other, none of them empty.
pub open spec fn in_order(runs: Seq<(int, int)>) -> bool {
    &&& forall|a: int| 0 <= a < runs.len() ==> (#[trigger] runs[a]).0 < runs[a].1
    &&& forall|a: int, b: int|
        0 <= a < b < runs.len() ==> (#[trigger] runs[a]).1 <= (#[trigger] runs[b]).0
}

/// How far the signal has been repaired after `runs`, where it had been repaired up to `to`.
pub open spec fn repaired_up_to(runs: Seq<(int, int)>, to: int) -> int {
    if runs.len() == 0 {
        to
    } else {
        runs.last().1
    }
}

/// What a scan from `i` to `end` makes of a buffer. The repaired runs are added to `runs`; `long`
/// stands where no run is too long.
///
/// A run is taken up where it starts. It is left alone if it reaches the end of the buffer, is
/// shorter than the minimum, longer than the maximum, or has fewer than two samples behind it.
pub open spec fn scan<T: PrcFmt>(
    buf: Seq<T>,
    i: int,
    end: int,
    set: ClipSettings<T>,
    runs: Seq<(int, int)>,
    long: Option<int>,
) -> Scanned<T>
    decreases monus(end, i),
{
    if i >= end {
        Scanned { line: buf, runs, long }
    } else if buf[i].s_abs().s_lt(set.threshold) || began_earlier(buf, i, set.threshold) {
        scan(buf, i + 1, end, set, runs, long)
    } else {
        proof {
            lemma_plateau_end(buf, i + 1, s_zero::<T>().s_lt(buf[i]), set.threshold);
        }
        let e = plateau_end(buf, i + 1, s_zero::<T>().s_lt(buf[i]), set.threshold);
        if e >= buf.len() || e - i < set.min_len {
            scan(buf, e, end, set, runs, long)
        } else if e - i > set.max_len {
            scan(buf, e, end, set, runs, Some(e - i))
        } else if buf.len() - e < 2 {
            scan(buf, e, end, set, runs, long)
        } else {
            scan(repaired(buf, i, e, set), e, end, set, runs.push((i, e)), long)
        }
    }
}

/// A repair keeps the length of the buffer and every sample outside the clip.
pub proof fn lemma_repaired_outside<T: PrcFmt>(buf: Seq<T>, s: int, e: int, set: ClipSettings<T>)
    requires
        0 <= s <= e <= buf.len(),
    ensures
        repaired(buf, s, e, set).len() == buf.len(),
        forall|j: int|
            0 <= j < buf.len() && !(s <= j < e) ==> #[trigger] repaired(buf, s, e, set)[j]
                == buf[j],
{
    lemma_ar_repaired_outside(buf, s, e, set.ar(), set.ctx as int, set.gap_cap as int);
}

/// A scan alters only what is loud: a sample below the threshold, or one before the start of the
/// scan, comes out as it went in. The buffer keeps its length.
pub proof fn lemma_scan_touches_only_loud<T: PrcFmt>(
    buf: Seq<T>,
    i: int,
    end: int,
    set: ClipSettings<T>,
    runs: Seq<(int, int)>,
    long: Option<int>,
)
    requires
        1 <= i,
        end <= buf.len(),
    ensures
        scan(buf, i, end, set, runs, long).line.len() == buf.len(),
        forall|j: int|
            0 <= j < buf.len() && (j < i || quiet(buf[j], set.threshold)) ==> #[trigger] scan(
                buf,
                i,
                end,
                set,
                runs,
                long,
            ).line[j] == buf[j],
    decreases monus(end, i),
{
    if i < end {
        if buf[i].s_abs().s_lt(set.threshold) || began_earlier(buf, i, set.threshold) {
            lemma_scan_touches_only_loud(buf, i + 1, end, set, runs, long);
        } else {
            let positive = s_zero::<T>().s_lt(buf[i]);
            lemma_plateau_end(buf, i + 1, positive, set.threshold);
            let e = plateau_end(buf, i + 1, positive, set.threshold);
            lemma_repaired_outside(buf, i, e, set);
            let next = repaired(buf, i, e, set);
            if e >= buf.len() || e - i < set.min_len {
                lemma_scan_touches_only_loud(buf, e, end, set, runs, long);
            } else if e - i > set.max_len {
                lemma_scan_touches_only_loud(buf, e, end, set, runs, Some(e - i));
            } else if buf.len() - e < 2 {
                lemma_scan_touches_only_loud(buf, e, end, set, runs, long);
            } else {
                lemma_scan_touches_only_loud(next, e, end, set, runs.push((i, e)), long);
                assert forall|j: int|
                    0 <= j < buf.len() && (j < i || quiet(
                        buf[j],
                        set.threshold,
                    )) implies #[trigger] scan(buf, i, end, set, runs, long).line[j] == buf[j] by {
                    assert(i < j < e ==> continues(buf, j, positive, set.threshold));
                    assert(next[j] == buf[j]);
                }
            }
        }
    }
}

/// A scan repairs run after run: behind the runs that were repaired before it, all of them inside
/// the buffer, and each with a length between the limits. Where no run covers a sample, the sample
/// comes out as it went in.
pub proof fn lemma_scan_goes_forward<T: PrcFmt>(
    buf: Seq<T>,
    i: int,
    end: int,
    set: ClipSettings<T>,
    runs: Seq<(int, int)>,
    long: Option<int>,
)
    requires
        1 <= i,
        end <= buf.len(),
        in_order(runs),
        runs.len() > 0 ==> runs.last().1 <= i,
    ensures
        ({
            let done = scan(buf, i, end, set, runs, long);
            &&& done.line.len() == buf.len()
            &&& runs.len() <= done.runs.len()
            &&& done.runs.take(runs.len() as int) == runs
            &&& in_order(done.runs)
            &&& forall|a: int|
                runs.len() <= a < done.runs.len() ==> {
                    &&& i <= (#[trigger] done.runs[a]).0 < end
                    &&& done.runs[a].1 + 2 <= buf.len()
                    &&& set.min_len <= done.runs[a].1 - done.runs[a].0 <= set.max_len
                }
            &&& forall|j: int|
                0 <= j < buf.len() && !in_runs(done.runs, j) ==> #[trigger] done.line[j] == buf[j]
        }),
    decreases monus(end, i),
{
    let done = scan(buf, i, end, set, runs, long);
    if i < end {
        if buf[i].s_abs().s_lt(set.threshold) || began_earlier(buf, i, set.threshold) {
            lemma_scan_goes_forward(buf, i + 1, end, set, runs, long);
        } else {
            let positive = s_zero::<T>().s_lt(buf[i]);
            lemma_plateau_end(buf, i + 1, positive, set.threshold);
            let e = plateau_end(buf, i + 1, positive, set.threshold);
            if e >= buf.len() || e - i < set.min_len {
                lemma_scan_goes_forward(buf, e, end, set, runs, long);
            } else if e - i > set.max_len {
                lemma_scan_goes_forward(buf, e, end, set, runs, Some(e - i));
            } else if buf.len() - e < 2 {
                lemma_scan_goes_forward(buf, e, end, set, runs, long);
            } else {
                let next = repaired(buf, i, e, set);
                let more = runs.push((i, e));
                lemma_repaired_outside(buf, i, e, set);
                assert forall|a: int, b: int| 0 <= a < b < more.len() implies (
                #[trigger] more[a]).1 <= (#[trigger] more[b]).0 by {
                    if b == runs.len() && a < runs.len() - 1 {
                        assert(runs[a].1 <= runs.last().0);
                    }
                }
                lemma_scan_goes_forward(next, e, end, set, more, long);
                assert(done.runs.take(runs.len() as int) =~= done.runs.take(
                    more.len() as int,
                ).take(runs.len() as int));
                assert(more.take(runs.len() as int) =~= runs);
                assert(done.runs.take(more.len() as int)[runs.len() as int] == (i, e));
                assert forall|a: int| runs.len() <= a < done.runs.len() implies {
                    &&& i <= (#[trigger] done.runs[a]).0 < end
                    &&& done.runs[a].1 + 2 <= buf.len()
                    &&& set.min_len <= done.runs[a].1 - done.runs[a].0 <= set.max_len
                } by {
                    if a > runs.len() {
                        assert(more.len() <= a);
                    }
                }
                assert forall|j: int| 0 <= j < buf.len() && !in_runs(done.runs, j) implies #[trigger]
                    done.line[j] == buf[j] by {
                    assert(done.runs[runs.len() as int] == (i, e));
                    assert(next[j] == buf[j]);
                }
            }
        }
    } else {
        assert(runs.take(runs.len() as int) =~= runs);
    }
}

/// A scan over samples that all lie below the threshold finds nothing.
pub proof fn lemma_scan_quiet<T: PrcFmt>(
    buf: Seq<T>,
    i: int,
    end: int,
    set: ClipSettings<T>,
    runs: Seq<(int, int)>,
    long: Option<int>,
)
    requires
        forall|j: int| i <= j < end ==> (#[trigger] buf[j]).s_abs().s_lt(set.threshold),
    ensures
        scan(buf, i, end, set, runs, long) == (Scanned { line: buf, runs, long }),
    decreases monus(end, i),
{
    if i < end {
        lemma_scan_quiet(buf, i + 1, end, set, runs, long);
    }
}

fn continues_at<T: PrcFmt>(buf: &Vec<T>, p: usize, positive: bool, threshold: T) -> (r: bool)
    requires
        1 <= p < buf@.len(),
    ensures
        r == continues(buf@, p as int, positive, threshold),
{
    threshold.le(buf[p].abs()) && T::of_int(0).lt(buf[p]) == positive && buf[p].minus(
        buf[p - 1],
    ).abs().le(flat_eps())
}

fn began_earlier_at<T: PrcFmt>(buf: &Vec<T>, p: usize, threshold: T) -> (r: bool)
    requires
        1 <= p < buf@.len(),
    ensures
        r == began_earlier(buf@, p as int, threshold),
{
    threshold.le(buf[p - 1].abs()) && T::of_int(0).lt(buf[p - 1]) == T::of_int(0).lt(buf[p])
        && buf[p].minus(buf[p - 1]).abs().le(flat_eps())
}

/// Repairs the clip `[s, e)`.
fn repair<T: PrcFmt>(
    buf: &mut Vec<T>,
    s: usize,
    e: usize,
    set: &ClipSettings<T>,
    scratch: &mut ArScratch<T>,
)
    requires
        2 <= s <= e,
        e + 1 < old(buf)@.len(),
        old(scratch).has_room(set.ctx as int, set.gap_cap as int),
    ensures
        final(buf)@ == repaired(old(buf)@, s as int, e as int, *set),
        final(scratch).has_room(set.ctx as int, set.gap_cap as int),
{
    let ghost before = buf@;
    if set.method == DeclipMethod::Ar && e - s <= set.gap_cap {
        let ar: ArSettings<T> = ArSettings {
            max_ctx: set.ctx,
            threshold: set.threshold,
            req_order: set.order,
        };
        if reconstruct_ar(buf, s, e, &ar, scratch) {
            return ;
        }
    }
    let ghost tried = buf@;
    reconstruct_cubic(buf, s, e);
    assert(with_cubic(tried, s as int, e as int) =~= with_cubic(before, s as int, e as int));
}

/// What a scan found.
pub struct Found {
    /// Samples that were repaired.
    pub declipped: usize,
    /// The length of the last run that was too long.
    pub long: Option<usize>,
    /// The end of the last run that was repaired.
    pub repaired_to: usize,
}

impl Found {
    /// Whether `self` reports what a scan did that found the signal repaired up to `to`.
    pub open spec fn reports<T>(self, done: Scanned<T>, to: int) -> bool {
        &&& self.declipped == covered(done.runs)
        &&& self.long is Some == done.long is Some
        &&& self.long is Some ==> self.long->0 == done.long->0
        &&& self.repaired_to == repaired_up_to(done.runs, to)
    }
}

/// Scans `buf` for clip runs that start in `[start, end)` and repairs them. The signal had been
/// repaired up to `to`, and the scan starts at or behind that point.
pub fn repair_clips<T: PrcFmt>(
    buf: &mut Vec<T>,
    start: usize,
    end: usize,
    to: usize,
    set: &ClipSettings<T>,
    scratch: &mut ArScratch<T>,
) -> (r: Found)
    requires
        2 <= start <= old(buf)@.len(),
        end < old(buf)@.len(),
        to <= start,
        old(scratch).has_room(set.ctx as int, set.gap_cap as int),
    ensures
        final(scratch).has_room(set.ctx as int, set.gap_cap as int),
        ({
            let done = scan(old(buf)@, start as int, end as int, *set, Seq::empty(), None);
            &&& final(buf)@ == done.line
            &&& r.reports(done, to as int)
        }),
        final(buf)@.len() == old(buf)@.len(),
        r.declipped <= old(buf)@.len() - start,
        to <= r.repaired_to,
        r.repaired_to == to || r.repaired_to + 2 <= old(buf)@.len(),
{
    let n: usize = buf.len();
    let mut declipped: usize = 0;
    let mut long: Option<usize> = None;
    let mut repaired_to: usize = to;
    let ghost mut long_len: Option<int> = None;
    let ghost mut runs: Seq<(int, int)> = Seq::empty();
    let mut i: usize = start;
    while i < end
        invariant
            2 <= start <= i <= n,
            end < n,
            n == buf@.len(),
            n == old(buf)@.len(),
            n == buf.len(),
            to <= repaired_to <= i,
            repaired_to == to || repaired_to + 2 <= n,
            to <= start,
            declipped <= i - start,
            declipped == covered(runs),
            repaired_to == repaired_up_to(runs, to as int),
            scratch.has_room(set.ctx as int, set.gap_cap as int),
            long is Some == long_len is Some,
            long is Some ==> long->0 == long_len->0,
            scan(old(buf)@, start as int, end as int, *set, Seq::empty(), None) == scan(
                buf@,
                i as int,
                end as int,
                *set,
                runs,
                long_len,
            ),
        decreases monus(end as int, i as int),
    {
        if buf[i].abs().lt(set.threshold) || began_earlier_at(buf, i, set.threshold) {
            i += 1;
            continue ;
        }
        let positive: bool = T::of_int(0).lt(buf[i]);
        let s: usize = i;
        let mut e: usize = s + 1;
        while e < n && continues_at(buf, e, positive, set.threshold)
            invariant
                s < e <= n,
                n == buf@.len(),
                plateau_end(buf@, s + 1, positive, set.threshold) == plateau_end(
                    buf@,
                    e as int,
                    positive,
                    set.threshold,
                ),
            decreases n - e,
        {
            e += 1;
        }
        let len: usize = e - s;
        if e >= n || len < set.min_len {
        } else if len > set.max_len {
            long = Some(len);
            proof {
                long_len = Some(e - s);
            }
        } else if n - e < 2 {
        } else {
            proof {
                lemma_repaired_outside(buf@, s as int, e as int, *set);
                let more = runs.push((s as int, e as int));
                assert(more.drop_last() =~= runs);
                runs = more;
            }
            repair(buf, s, e, set, scratch);
            declipped += len;
            repaired_to = e;
        }
        i = e;
    }
    Found { declipped, long, repaired_to }
}

} // verus!
