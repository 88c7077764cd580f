//! Reconstruction of a clipped gap: cubic Hermite and autoregressive.

use crate::arith::{copies, min_int, monus, s_one, s_zero};
use crate::prcfmt::PrcFmt;
use crate::processors::declipper::banded::{factorizes, solution, solve_banded_toeplitz};
use crate::processors::declipper::lpc::{
    autocorrelation, autocorrelation_over, coeff_autocorr, coeff_autocorr_over, lag_sum, levinson,
    levinson_from, levinson_over, prediction_sum, raised, reflection, white_model,
};
use vstd::prelude::*;
use vstd::slice::slice_subrange;

verus! {

/// Alternations of (fit model, solve gap). Janssen converges in a handful of iterations; five is
/// comfortably past the knee for audio-length gaps.
pub const ITERATIONS: usize = 5;

/// Maximum difference between adjacent samples for them to count as part of the same flat clip
/// plateau. Hard digital clipping produces identical samples, so a small bound detects real clips
/// while staying far below the curvature of a reconstructed (smooth) peak, which prevents an
/// already repaired region from being re-detected as a clip on the next chunk. A scan also never
/// starts before the end of the last repaired run.
pub open spec fn s_flat_eps<T: PrcFmt>() -> T {
    T::s_dec(1, 5)
}

/// The flatness bound.
pub fn flat_eps<T: PrcFmt>() -> (r: T)
    ensures
        r == s_flat_eps::<T>(),
{
    T::decimal(1, 5)
}

/// Whether samples `p - 1` and `p` lie on one plateau, sign and level apart.
pub open spec fn flat_step<T: PrcFmt>(buf: Seq<T>, p: int) -> bool {
    buf[p].s_sub(buf[p - 1]).s_abs().s_le(s_flat_eps())
}

// ------------------------------- Cubic -------------------------------

/// The cubic Hermite interpolant across the gap `[s, e)` at sample `j`, from the two good samples
/// on each side.
pub open spec fn cubic_at<T: PrcFmt>(buf: Seq<T>, s: int, e: int, j: int) -> T {
    let span = T::s_int(e - s).s_add(s_one());
    let p0 = buf[s - 1];
    let p1 = buf[e];
    let m0 = buf[s - 1].s_sub(buf[s - 2]).s_mul(span);
    let m1 = buf[e + 1].s_sub(buf[e]).s_mul(span);
    let t = T::s_int(j - s).s_add(s_one()).s_div(span);
    let t2 = t.s_mul(t);
    let t3 = t2.s_mul(t);
    let h00 = T::s_int(2).s_mul(t3).s_sub(T::s_int(3).s_mul(t2)).s_add(s_one());
    let h10 = t3.s_sub(T::s_int(2).s_mul(t2)).s_add(t);
    let h01 = T::s_int(-2).s_mul(t3).s_add(T::s_int(3).s_mul(t2));
    let h11 = t3.s_sub(t2);
    h00.s_mul(p0).s_add(h10.s_mul(m0)).s_add(h01.s_mul(p1)).s_add(h11.s_mul(m1))
}

/// `buf` with the gap `[s, e)` filled by the cubic interpolant.
pub open spec fn with_cubic<T: PrcFmt>(buf: Seq<T>, s: int, e: int) -> Seq<T> {
    Seq::new(
        buf.len(),
        |j: int|
            if s <= j < e {
                cubic_at(buf, s, e, j)
            } else {
                buf[j]
            },
    )
}

/// Cubic Hermite reconstruction across the gap `[s, e)`, using the two good samples on each side.
/// The boundary tangents make the interpolant overshoot the clip level, restoring the peak.
pub fn reconstruct_cubic<T: PrcFmt>(buf: &mut Vec<T>, s: usize, e: usize)
    requires
        2 <= s <= e,
        e + 1 < old(buf).len(),
    ensures
        final(buf)@ == with_cubic(old(buf)@, s as int, e as int),
{
    let one: T = T::of_int(1);
    let span: T = T::of_usize(e - s).plus(one);
    let p0: T = buf[s - 1];
    let p1: T = buf[e];
    let m0: T = buf[s - 1].minus(buf[s - 2]).times(span);
    let m1: T = buf[e + 1].minus(buf[e]).times(span);
    let mut j: usize = s;
    while j < e
        invariant
            2 <= s <= j <= e,
            e + 1 < buf@.len(),
            buf@.len() == old(buf)@.len(),
            one == s_one::<T>(),
            span == T::s_int(e - s).s_add(s_one()),
            p0 == old(buf)@[s - 1],
            p1 == old(buf)@[e as int],
            m0 == old(buf)@[s - 1].s_sub(old(buf)@[s - 2]).s_mul(span),
            m1 == old(buf)@[e + 1].s_sub(old(buf)@[e as int]).s_mul(span),
            forall|i: int|
                0 <= i < buf@.len() ==> buf@[i] == if s <= i < j {
                    cubic_at(old(buf)@, s as int, e as int, i)
                } else {
                    old(buf)@[i]
                },
        decreases e - j,
    {
        let t: T = T::of_usize(j - s).plus(one).over(span);
        let t2: T = t.times(t);
        let t3: T = t2.times(t);
        let h00: T = T::of_int(2).times(t3).minus(T::of_int(3).times(t2)).plus(one);
        let h10: T = t3.minus(T::of_int(2).times(t2)).plus(t);
        let h01: T = T::of_int(-2).times(t3).plus(T::of_int(3).times(t2));
        let h11: T = t3.minus(t2);
        buf[j] = h00.times(p0).plus(h10.times(m0)).plus(h01.times(p1)).plus(h11.times(m1));
        j += 1;
    }
    assert(buf@ =~= with_cubic(old(buf)@, s as int, e as int));
}

// ------------------------------- Normal equations -------------------------------

/// The known neighbours within distance `o` of gap sample `i`, weighted and added up in order: a
/// neighbour on the right counts once it reaches `ge`, one on the left once it steps before `gs`.
pub open spec fn known_sum<T: PrcFmt>(
    buf: Seq<T>,
    gs: int,
    ge: int,
    rc: Seq<T>,
    i: int,
    o: int,
) -> T
    decreases o,
{
    if o <= 0 {
        s_zero()
    } else {
        let before = known_sum(buf, gs, ge, rc, i, o - 1);
        let right = if gs + i + o >= ge {
            before.s_add(rc[o].s_mul(buf[gs + i + o]))
        } else {
            before
        };
        if o > i {
            right.s_add(rc[o].s_mul(buf[gs + i - o]))
        } else {
            right
        }
    }
}

/// The right-hand side of the normal equations of the gap `[gs, ge)`.
pub open spec fn gap_rhs<T: PrcFmt>(
    buf: Seq<T>,
    gs: int,
    ge: int,
    order: int,
    rc: Seq<T>,
) -> Seq<T> {
    Seq::new((ge - gs) as nat, |i: int| known_sum(buf, gs, ge, rc, i, order).s_neg())
}

/// The solution of the normal equations of the gap.
pub open spec fn gap_solution<T: PrcFmt>(
    buf: Seq<T>,
    gs: int,
    ge: int,
    order: int,
    rc: Seq<T>,
) -> Seq<T> {
    Seq::new(
        (ge - gs) as nat,
        |i: int| solution(rc, order, ge - gs, gap_rhs(buf, gs, ge, order, rc), i),
    )
}

/// The first position from `i` on at which `x` holds no finite value, or its length.
pub open spec fn finite_run<T: PrcFmt>(x: Seq<T>, i: int) -> int
    decreases x.len() - i,
{
    if i >= x.len() || !x[i].s_finite() {
        i
    } else {
        finite_run(x, i + 1)
    }
}

/// `buf` with `x[0..m]` written at `gs`.
pub open spec fn spliced<T>(buf: Seq<T>, gs: int, x: Seq<T>, m: int) -> Seq<T> {
    Seq::new(
        buf.len(),
        |j: int|
            if gs <= j < gs + m {
                x[j - gs]
            } else {
                buf[j]
            },
    )
}

/// Whether the gap can be solved: the matrix factors, and every sample of the solution is finite.
pub open spec fn gap_solvable<T: PrcFmt>(
    buf: Seq<T>,
    gs: int,
    ge: int,
    order: int,
    rc: Seq<T>,
) -> bool {
    factorizes(rc, order, ge - gs) && finite_run(gap_solution(buf, gs, ge, order, rc), 0) == ge - gs
}

/// The buffer after a solve: the solution up to its first sample that is not finite.
pub open spec fn gap_solved<T: PrcFmt>(
    buf: Seq<T>,
    gs: int,
    ge: int,
    order: int,
    rc: Seq<T>,
) -> Seq<T> {
    if factorizes(rc, order, ge - gs) {
        let x = gap_solution(buf, gs, ge, order, rc);
        spliced(buf, gs, x, finite_run(x, 0))
    } else {
        buf
    }
}

proof fn lemma_finite_run<T: PrcFmt>(x: Seq<T>, i: int, m: int)
    requires
        0 <= i <= m <= x.len(),
        forall|j: int| i <= j < m ==> x[j].s_finite(),
        m < x.len() ==> !x[m].s_finite(),
    ensures
        finite_run(x, i) == m,
    decreases m - i,
{
    if i < m {
        lemma_finite_run(x, i + 1, m);
    }
}

/// Fills the Janssen normal-equation right-hand side for the gap `[gs, ge)` under the coefficient
/// autocorrelation `rc`, solves for those samples, and writes the result into `buf`. Every sample
/// outside `[gs, ge)`, left and right model context and any samples pinned at the clip boundary
/// alike, is treated as a known neighbour entering through the right-hand side; the coupling of
/// missing samples inside the gap is carried by the banded Toeplitz matrix. Returns false on an
/// ill-conditioned factorisation or a non-finite solution.
pub fn solve_gap<T: PrcFmt>(
    buf: &mut Vec<T>,
    gs: usize,
    ge: usize,
    order: usize,
    rc: &[T],
    band: &mut Vec<T>,
    rhs: &mut Vec<T>,
    x: &mut Vec<T>,
) -> (ok: bool)
    requires
        order <= gs <= ge,
        ge + order <= old(buf).len(),
        order < rc.len(),
        ge - gs <= old(rhs)@.len(),
        ge - gs <= old(x)@.len(),
        (ge - gs) * (order + 1) <= old(band)@.len(),
    ensures
        ok == gap_solvable(old(buf)@, gs as int, ge as int, order as int, rc@),
        final(buf)@ == gap_solved(old(buf)@, gs as int, ge as int, order as int, rc@),
        final(band)@.len() == old(band)@.len(),
        final(rhs)@.len() == old(rhs)@.len(),
        final(x)@.len() == old(x)@.len(),
{
    let g: usize = ge - gs;
    let ghost want = gap_rhs(buf@, gs as int, ge as int, order as int, rc@);
    let mut i: usize = 0;
    while i < g
        invariant
            g == ge - gs,
            order <= gs <= ge,
            ge + order <= buf.len(),
            order < rc.len(),
            g <= rhs@.len(),
            rhs@.len() == old(rhs)@.len(),
            i <= g,
            want == gap_rhs(buf@, gs as int, ge as int, order as int, rc@),
            forall|q: int| 0 <= q < i ==> rhs@[q] == want[q],
        decreases g - i,
    {
        let mut acc: T = T::of_int(0);
        let base: usize = gs + i;
        let mut o: usize = 1;
        while o <= order
            invariant
                base == gs + i,
                i < ge - gs,
                order <= gs <= ge,
                ge + order <= buf.len(),
                order < rc.len(),
                1 <= o <= order + 1,
                acc == known_sum(buf@, gs as int, ge as int, rc@, i as int, o - 1),
            decreases order + 1 - o,
        {
            if base + o >= ge {
                acc = acc.plus(rc[o].times(buf[base + o]));
            }
            if o > i {
                acc = acc.plus(rc[o].times(buf[base - o]));
            }
            o += 1;
        }
        rhs[i] = acc.negated();
        i += 1;
    }
    let known: &[T] = slice_subrange(rhs.as_slice(), 0, g);
    assert(known@ =~= want);
    if !solve_banded_toeplitz(rc, order, g, known, band, x) {
        return false;
    }
    let ghost sol = gap_solution(buf@, gs as int, ge as int, order as int, rc@);
    assert(forall|q: int| 0 <= q < g ==> x@[q] == sol[q]);
    let mut idx: usize = 0;
    while idx < g
        invariant
            g == ge - gs,
            gs <= ge <= buf@.len(),
            g <= x@.len(),
            x@.len() == old(x)@.len(),
            idx <= g,
            sol.len() == g,
            sol == gap_solution(old(buf)@, gs as int, ge as int, order as int, rc@),
            factorizes(rc@, order as int, g as int),
            band@.len() == old(band)@.len(),
            rhs@.len() == old(rhs)@.len(),
            forall|q: int| 0 <= q < g ==> x@[q] == sol[q],
            forall|q: int| 0 <= q < idx ==> sol[q].s_finite(),
            buf@ =~= spliced(old(buf)@, gs as int, sol, idx as int),
        decreases g - idx,
    {
        if !x[idx].is_finite() {
            proof {
                lemma_finite_run(sol, 0, idx as int);
            }
            return false;
        }
        buf[gs + idx] = x[idx];
        idx += 1;
    }
    proof {
        lemma_finite_run(sol, 0, g as int);
    }
    true
}

// ------------------------------- Autoregressive model -------------------------------

/// Scratch vectors of the autoregressive method, so that processing does not allocate.
pub struct ArScratch<T> {
    pub r: Vec<T>,
    pub a: Vec<T>,
    pub tmp: Vec<T>,
    /// Deterministic autocorrelation of the LPC coefficients.
    pub rc: Vec<T>,
    /// Lower-triangular band storage for the banded Cholesky solve.
    pub band: Vec<T>,
    /// Right-hand side and solution of the gap linear system.
    pub rhs: Vec<T>,
    pub x: Vec<T>,
}

impl<T> ArScratch<T> {
    /// Room for models up to order `order_cap` and gaps up to `gap_cap` samples.
    pub open spec fn has_room(self, order_cap: int, gap_cap: int) -> bool {
        &&& self.r@.len() == order_cap + 1
        &&& self.a@.len() == order_cap + 1
        &&& self.tmp@.len() == order_cap + 1
        &&& self.rc@.len() == order_cap + 1
        &&& self.rhs@.len() == gap_cap
        &&& self.x@.len() == gap_cap
        &&& self.band@.len() == gap_cap * (order_cap + 1)
    }
}

/// What governs the autoregressive reconstruction.
pub struct ArSettings<T> {
    /// Context samples used on each side of a gap, at most.
    pub max_ctx: usize,
    /// Magnitude from which a sample may belong to a clip plateau.
    pub threshold: T,
    /// Model order asked for.
    pub req_order: usize,
}

/// Whether sample `p` continues a flat top: loud enough, and level with its predecessor.
pub open spec fn flat_top<T: PrcFmt>(buf: Seq<T>, p: int, threshold: T) -> bool {
    threshold.s_le(buf[p].s_abs()) && flat_step(buf, p)
}

/// The number of samples from `e + len` on that serve as right context, `len` counted already: up
/// to the next clip plateau, the end of the buffer or the context limit.
pub open spec fn clean_run<T: PrcFmt>(buf: Seq<T>, e: int, set: ArSettings<T>, len: int) -> int
    decreases buf.len() - e - len,
{
    if len < set.max_ctx && e + len < buf.len() && !flat_top(buf, e + len, set.threshold) {
        clean_run(buf, e, set, len + 1)
    } else {
        len
    }
}

/// The number of left context samples of a gap that starts at `s`.
pub open spec fn left_context<T>(s: int, set: ArSettings<T>) -> int {
    min_int(s, set.max_ctx as int)
}

/// The model order for the gap `[s, e)`: the one asked for, as far as both contexts and the
/// scratch vectors carry it.
pub open spec fn model_order<T: PrcFmt>(
    buf: Seq<T>,
    s: int,
    e: int,
    set: ArSettings<T>,
    order_cap: int,
) -> int {
    min_int(
        min_int(
            min_int(set.req_order as int, monus(left_context(s, set), 1)),
            monus(clean_run(buf, e, set, 0), 1),
        ),
        order_cap,
    )
}

/// The AR model of `order` fitted to the window `win`: whether there is one, and its coefficients.
pub open spec fn fitted<T: PrcFmt>(win: Seq<T>, order: int) -> (bool, Seq<T>) {
    let blank = copies((order + 1) as nat, s_zero::<T>());
    levinson_over(autocorrelation_over(win, order, blank), order, blank)
}

/// The Toeplitz coefficients of the normal equations under the model `a`.
pub open spec fn toeplitz<T: PrcFmt>(a: Seq<T>, order: int) -> Seq<T> {
    coeff_autocorr_over(a, order, copies((order + 1) as nat, s_zero()))
}

/// One alternation: fit a model to the window `[ws, we)`, then solve the gap `[s, e)` under it.
/// Gives the buffer and the Toeplitz coefficients, unless the fit or the solve fails.
pub open spec fn alternation<T: PrcFmt>(
    buf: Seq<T>,
    ws: int,
    we: int,
    s: int,
    e: int,
    order: int,
) -> Option<(Seq<T>, Seq<T>)> {
    let model = fitted(buf.subrange(ws, we), order);
    let rc = toeplitz(model.1, order);
    if model.0 && gap_solvable(buf, s, e, order, rc) {
        Some((gap_solved(buf, s, e, order, rc), rc))
    } else {
        None
    }
}

/// `n` alternations.
pub open spec fn alternations<T: PrcFmt>(
    buf: Seq<T>,
    ws: int,
    we: int,
    s: int,
    e: int,
    order: int,
    n: nat,
) -> Option<(Seq<T>, Seq<T>)>
    decreases n,
{
    if n == 0 {
        Some((buf, Seq::empty()))
    } else {
        match alternations(buf, ws, we, s, e, order, (n - 1) as nat) {
            Some(state) => alternation(state.0, ws, we, s, e, order),
            None => None,
        }
    }
}

/// What `n` alternations leave in the buffer, whether they succeed or not: where a fit fails, the
/// buffer that it was tried on; where a solve fails, that buffer with as much of the gap filled as
/// the solve had written.
pub open spec fn left_by_alternations<T: PrcFmt>(
    buf: Seq<T>,
    ws: int,
    we: int,
    s: int,
    e: int,
    order: int,
    n: nat,
) -> Seq<T>
    decreases n,
{
    if n == 0 {
        buf
    } else {
        match alternations(buf, ws, we, s, e, order, (n - 1) as nat) {
            None => left_by_alternations(buf, ws, we, s, e, order, (n - 1) as nat),
            Some(state) => {
                let model = fitted(state.0.subrange(ws, we), order);
                if model.0 {
                    gap_solved(state.0, s, e, order, toeplitz(model.1, order))
                } else {
                    state.0
                }
            },
        }
    }
}

// ------------------------------- Clipping consistency -------------------------------

/// Whether `v` falls short of the clip level `boundary`, on the side that the clip was on. A
/// clipped sample was at least as large as the clip level, so such a value cannot be right.
pub open spec fn violates<T: PrcFmt>(v: T, positive: bool, boundary: T) -> bool {
    if positive {
        v.s_lt(boundary)
    } else {
        boundary.s_lt(v)
    }
}

fn falls_short<T: PrcFmt>(v: T, positive: bool, boundary: T) -> (r: bool)
    ensures
        r == violates(v, positive, boundary),
{
    if positive {
        v.lt(boundary)
    } else {
        boundary.lt(v)
    }
}

/// Where the violating run at the start of `[gs, ge)` ends.
pub open spec fn pinned_left<T: PrcFmt>(
    buf: Seq<T>,
    gs: int,
    ge: int,
    positive: bool,
    boundary: T,
) -> int
    decreases ge - gs,
{
    if gs < ge && violates(buf[gs], positive, boundary) {
        pinned_left(buf, gs + 1, ge, positive, boundary)
    } else {
        gs
    }
}

/// Where the violating run at the end of `[gs, ge)` starts.
pub open spec fn pinned_right<T: PrcFmt>(
    buf: Seq<T>,
    gs: int,
    ge: int,
    positive: bool,
    boundary: T,
) -> int
    decreases ge - gs,
{
    if gs < ge && violates(buf[ge - 1], positive, boundary) {
        pinned_right(buf, gs, ge - 1, positive, boundary)
    } else {
        ge
    }
}

/// The violating runs end inside the gap.
pub proof fn lemma_pinned<T: PrcFmt>(buf: Seq<T>, gs: int, ge: int, positive: bool, boundary: T)
    requires
        gs <= ge,
    ensures
        gs <= pinned_left(buf, gs, ge, positive, boundary) <= ge,
        gs <= pinned_right(buf, gs, ge, positive, boundary) <= ge,
    decreases ge - gs,
{
    if gs < ge {
        lemma_pinned(buf, gs + 1, ge, positive, boundary);
        lemma_pinned(buf, gs, ge - 1, positive, boundary);
    }
}

/// `buf` with `[gs, l)` and `[r, ge)` set to the boundary.
pub open spec fn edges_pinned<T>(
    buf: Seq<T>,
    gs: int,
    l: int,
    r: int,
    ge: int,
    boundary: T,
) -> Seq<T> {
    Seq::new(
        buf.len(),
        |j: int|
            if gs <= j < l || r <= j < ge {
                boundary
            } else {
                buf[j]
            },
    )
}

/// `buf` with every violating sample of `[gs, ge)` set to the boundary.
pub open spec fn projected<T: PrcFmt>(
    buf: Seq<T>,
    gs: int,
    ge: int,
    positive: bool,
    boundary: T,
) -> Seq<T> {
    Seq::new(
        buf.len(),
        |j: int|
            if gs <= j < ge && violates(buf[j], positive, boundary) {
                boundary
            } else {
                buf[j]
            },
    )
}

/// Whether some sample of `[gs, ge)` violates the clip level.
pub open spec fn any_violates<T: PrcFmt>(
    buf: Seq<T>,
    gs: int,
    ge: int,
    positive: bool,
    boundary: T,
) -> bool {
    exists|j: int| gs <= j < ge && violates(#[trigger] buf[j], positive, boundary)
}

/// The active-set refinement of the gap `[gs, ge)`: the violating runs at both edges are pinned to
/// the boundary and the rest is solved again with them as known context, until no edge moves.
pub open spec fn settled<T: PrcFmt>(
    buf: Seq<T>,
    gs: int,
    ge: int,
    order: int,
    rc: Seq<T>,
    positive: bool,
    boundary: T,
) -> Seq<T>
    decreases ge - gs,
{
    let l = pinned_left(buf, gs, ge, positive, boundary);
    let r = pinned_right(buf, l, ge, positive, boundary);
    let p = edges_pinned(buf, gs, l, r, ge, boundary);
    proof {
        if gs <= ge {
            lemma_pinned(buf, gs, ge, positive, boundary);
            lemma_pinned(buf, l, ge, positive, boundary);
        }
    }
    if l >= r {
        p
    } else if any_violates(p, l, r, positive, boundary) {
        projected(p, l, r, positive, boundary)
    } else if l == gs && r == ge {
        p
    } else {
        let q = gap_solved(p, l, r, order, rc);
        if gap_solvable(p, l, r, order, rc) {
            settled(q, l, r, order, rc, positive, boundary)
        } else {
            projected(q, l, r, positive, boundary)
        }
    }
}

/// The sample that a clip at level `clip` may not fall short of.
pub open spec fn clip_boundary<T: PrcFmt>(clip: T) -> T {
    if s_zero::<T>().s_lt(clip) {
        clip.s_abs()
    } else {
        clip.s_abs().s_neg()
    }
}

/// The buffer with the gap `[s, e)` reconstructed by the autoregressive method, or `None` where
/// there is not enough context, the gap exceeds the scratch vectors, or a fit or a solve fails.
pub open spec fn ar_repaired<T: PrcFmt>(
    buf: Seq<T>,
    s: int,
    e: int,
    set: ArSettings<T>,
    order_cap: int,
    gap_cap: int,
) -> Option<Seq<T>> {
    let order = model_order(buf, s, e, set, order_cap);
    if ar_refused(buf, s, e, set, order_cap, gap_cap) {
        None
    } else {
        match alternations(
            with_cubic(buf, s, e),
            s - left_context(s, set),
            e + clean_run(buf, e, set, 0),
            s,
            e,
            order,
            ITERATIONS as nat,
        ) {
            None => None,
            Some(state) => Some(
                settled(
                    state.0,
                    s,
                    e,
                    order,
                    state.1,
                    s_zero::<T>().s_lt(buf[s]),
                    clip_boundary(buf[s]),
                ),
            ),
        }
    }
}

/// Whether the autoregressive method does not take up the gap `[s, e)`: it is empty or too long,
/// or the context carries no model.
pub open spec fn ar_refused<T: PrcFmt>(
    buf: Seq<T>,
    s: int,
    e: int,
    set: ArSettings<T>,
    order_cap: int,
    gap_cap: int,
) -> bool {
    e <= s || e - s > gap_cap || model_order(buf, s, e, set, order_cap) < 1
}

/// What the autoregressive method leaves in the buffer where it fails: the buffer as it was where
/// the gap is not taken up, and what the alternations left otherwise.
pub open spec fn left_by_failure<T: PrcFmt>(
    buf: Seq<T>,
    s: int,
    e: int,
    set: ArSettings<T>,
    order_cap: int,
    gap_cap: int,
) -> Seq<T> {
    if ar_refused(buf, s, e, set, order_cap, gap_cap) {
        buf
    } else {
        left_by_alternations(
            with_cubic(buf, s, e),
            s - left_context(s, set),
            e + clean_run(buf, e, set, 0),
            s,
            e,
            model_order(buf, s, e, set, order_cap),
            ITERATIONS as nat,
        )
    }
}

// ------------------------------- Supporting facts -------------------------------

proof fn lemma_lag_sum_prefix<T: PrcFmt>(a: Seq<T>, b: Seq<T>, k: int, n: nat, len: int)
    requires
        0 <= k,
        n + k <= len,
        len <= a.len(),
        len <= b.len(),
        forall|j: int| 0 <= j < len ==> a[j] == b[j],
    ensures
        lag_sum(a, k, n) == lag_sum(b, k, n),
    decreases n,
{
    if n > 0 {
        lemma_lag_sum_prefix(a, b, k, (n - 1) as nat, len);
    }
}

proof fn lemma_prediction_sum_prefix<T: PrcFmt>(r: Seq<T>, a: Seq<T>, b: Seq<T>, i: int, j: int)
    requires
        j <= i,
        i < a.len(),
        i < b.len(),
        forall|q: int| 0 <= q < i ==> a[q] == b[q],
    ensures
        prediction_sum(r, a, i, j) == prediction_sum(r, b, i, j),
    decreases j,
{
    if j > 1 {
        lemma_prediction_sum_prefix(r, a, b, i, j - 1);
    }
}

/// The recursion reads and writes the first `order + 1` coefficients only.
proof fn lemma_levinson_prefix<T: PrcFmt>(
    r: Seq<T>,
    order: int,
    i: int,
    a: Seq<T>,
    b: Seq<T>,
    err: T,
)
    requires
        1 <= i,
        order < a.len(),
        order + 1 == b.len(),
        a.take(order + 1) == b,
    ensures
        levinson_from(r, order, i, a, err).0 == levinson_from(r, order, i, b, err).0,
        levinson_from(r, order, i, a, err).1.take(order + 1) == levinson_from(
            r,
            order,
            i,
            b,
            err,
        ).1,
        levinson_from(r, order, i, a, err).1.len() == a.len(),
        levinson_from(r, order, i, b, err).1.len() == b.len(),
    decreases order + 1 - i,
{
    if i <= order {
        assert forall|q: int| 0 <= q <= order implies a[q] == b[q] by {
            assert(a.take(order + 1)[q] == a[q]);
        }
        lemma_prediction_sum_prefix(r, a, b, i, i);
        let k = reflection(r, a, i, err);
        let next = err.s_mul(s_one::<T>().s_sub(k.s_mul(k)));
        assert(raised(a, i, k).take(order + 1) =~= raised(b, i, k));
        lemma_levinson_prefix(r, order, i + 1, raised(a, i, k), raised(b, i, k), next);
    }
}

/// Once an alternation has failed, none follows.
proof fn lemma_alternations_stop<T: PrcFmt>(
    buf: Seq<T>,
    ws: int,
    we: int,
    s: int,
    e: int,
    order: int,
    n: nat,
    m: nat,
)
    requires
        n <= m,
        alternations(buf, ws, we, s, e, order, n) is None,
    ensures
        alternations(buf, ws, we, s, e, order, m) is None,
        left_by_alternations(buf, ws, we, s, e, order, m) == left_by_alternations(
            buf,
            ws,
            we,
            s,
            e,
            order,
            n,
        ),
    decreases m,
{
    if n < m {
        lemma_alternations_stop(buf, ws, we, s, e, order, n, (m - 1) as nat);
    }
}

/// Pinning, projecting and solving leave every sample outside the gap alone.
proof fn lemma_settled_outside<T: PrcFmt>(
    buf: Seq<T>,
    gs: int,
    ge: int,
    order: int,
    rc: Seq<T>,
    positive: bool,
    boundary: T,
)
    requires
        0 <= gs <= ge <= buf.len(),
    ensures
        settled(buf, gs, ge, order, rc, positive, boundary).len() == buf.len(),
        forall|j: int|
            0 <= j < buf.len() && !(gs <= j < ge) ==> #[trigger] settled(
                buf,
                gs,
                ge,
                order,
                rc,
                positive,
                boundary,
            )[j] == buf[j],
    decreases ge - gs,
{
    let l = pinned_left(buf, gs, ge, positive, boundary);
    let r = pinned_right(buf, l, ge, positive, boundary);
    lemma_pinned(buf, gs, ge, positive, boundary);
    lemma_pinned(buf, l, ge, positive, boundary);
    let p = edges_pinned(buf, gs, l, r, ge, boundary);
    let q = gap_solved(p, l, r, order, rc);
    if l < r {
        lemma_gap_solved_outside(p, l, r, order, rc);
        if !(l == gs && r == ge) {
            lemma_settled_outside(q, l, r, order, rc, positive, boundary);
        }
    }
}

proof fn lemma_finite_run_bounds<T: PrcFmt>(x: Seq<T>, i: int)
    requires
        0 <= i <= x.len(),
    ensures
        i <= finite_run(x, i) <= x.len(),
    decreases x.len() - i,
{
    if i < x.len() && x[i].s_finite() {
        lemma_finite_run_bounds(x, i + 1);
    }
}

/// A solve writes inside the gap only.
pub proof fn lemma_gap_solved_outside<T: PrcFmt>(
    buf: Seq<T>,
    gs: int,
    ge: int,
    order: int,
    rc: Seq<T>,
)
    requires
        0 <= gs <= ge <= buf.len(),
    ensures
        gap_solved(buf, gs, ge, order, rc).len() == buf.len(),
        forall|j: int|
            0 <= j < buf.len() && !(gs <= j < ge) ==> #[trigger] gap_solved(
                buf,
                gs,
                ge,
                order,
                rc,
            )[j] == buf[j],
{
    lemma_finite_run_bounds(gap_solution(buf, gs, ge, order, rc), 0);
}

/// After the refinement no sample of the gap falls short of the clip level.
pub proof fn lemma_settled_consistent<T: PrcFmt>(
    buf: Seq<T>,
    gs: int,
    ge: int,
    order: int,
    rc: Seq<T>,
    positive: bool,
    boundary: T,
)
    requires
        0 <= gs <= ge <= buf.len(),
    ensures
        forall|j: int|
            gs <= j < ge ==> !violates(
                #[trigger] settled(buf, gs, ge, order, rc, positive, boundary)[j],
                positive,
                boundary,
            ),
    decreases ge - gs,
{
    boundary.lt_irreflexive();
    let out = settled(buf, gs, ge, order, rc, positive, boundary);
    let l = pinned_left(buf, gs, ge, positive, boundary);
    let r = pinned_right(buf, l, ge, positive, boundary);
    lemma_pinned(buf, gs, ge, positive, boundary);
    lemma_pinned(buf, l, ge, positive, boundary);
    let p = edges_pinned(buf, gs, l, r, ge, boundary);
    let q = gap_solved(p, l, r, order, rc);
    if l < r {
        lemma_gap_solved_outside(p, l, r, order, rc);
        if !(l == gs && r == ge) {
            lemma_settled_consistent(q, l, r, order, rc, positive, boundary);
            lemma_settled_outside(q, l, r, order, rc, positive, boundary);
        }
    }
    assert forall|j: int| gs <= j < ge implies !violates(#[trigger] out[j], positive, boundary) by {
        assert(gs <= j < l || r <= j < ge ==> p[j] == boundary && q[j] == boundary || l >= r);
        if l < r && l <= j < r {
            assert(!any_violates(p, l, r, positive, boundary) ==> !violates(
                p[j],
                positive,
                boundary,
            ));
        }
    }
}

proof fn lemma_alternations_outside<T: PrcFmt>(
    buf: Seq<T>,
    ws: int,
    we: int,
    s: int,
    e: int,
    order: int,
    n: nat,
)
    requires
        0 <= s <= e <= buf.len(),
    ensures
        alternations(buf, ws, we, s, e, order, n) matches Some(state) ==> {
            &&& state.0.len() == buf.len()
            &&& forall|j: int|
                0 <= j < buf.len() && !(s <= j < e) ==> #[trigger] state.0[j] == buf[j]
        },
    decreases n,
{
    if n > 0 {
        lemma_alternations_outside(buf, ws, we, s, e, order, (n - 1) as nat);
        if let Some(state) = alternations(buf, ws, we, s, e, order, (n - 1) as nat) {
            let model = fitted(state.0.subrange(ws, we), order);
            lemma_gap_solved_outside(state.0, s, e, order, toeplitz(model.1, order));
        }
    }
}

/// The autoregressive repair writes inside the gap only.
pub proof fn lemma_ar_repaired_outside<T: PrcFmt>(
    buf: Seq<T>,
    s: int,
    e: int,
    set: ArSettings<T>,
    order_cap: int,
    gap_cap: int,
)
    requires
        0 <= s <= e <= buf.len(),
    ensures
        ar_repaired(buf, s, e, set, order_cap, gap_cap) matches Some(out) ==> {
            &&& out.len() == buf.len()
            &&& forall|j: int|
                0 <= j < buf.len() && !(s <= j < e) ==> #[trigger] out[j] == buf[j]
        },
{
    let order = model_order(buf, s, e, set, order_cap);
    let ws = s - left_context(s, set);
    let we = e + clean_run(buf, e, set, 0);
    let start = with_cubic(buf, s, e);
    lemma_alternations_outside(start, ws, we, s, e, order, ITERATIONS as nat);
    if let Some(state) = alternations(start, ws, we, s, e, order, ITERATIONS as nat) {
        lemma_settled_outside(
            state.0,
            s,
            e,
            order,
            state.1,
            s_zero::<T>().s_lt(buf[s]),
            clip_boundary(buf[s]),
        );
    }
}

/// Clipping consistency: where the autoregressive repair succeeds, no repaired sample falls short
/// of the level that the run was clipped at, on the side that it was clipped on.
pub proof fn lemma_ar_repaired_consistent<T: PrcFmt>(
    buf: Seq<T>,
    s: int,
    e: int,
    set: ArSettings<T>,
    order_cap: int,
    gap_cap: int,
)
    requires
        0 <= s <= e <= buf.len(),
    ensures
        ar_repaired(buf, s, e, set, order_cap, gap_cap) matches Some(out) ==> forall|j: int|
            s <= j < e ==> !violates(
                #[trigger] out[j],
                s_zero::<T>().s_lt(buf[s]),
                clip_boundary(buf[s]),
            ),
{
    let order = model_order(buf, s, e, set, order_cap);
    let ws = s - left_context(s, set);
    let we = e + clean_run(buf, e, set, 0);
    let start = with_cubic(buf, s, e);
    lemma_alternations_outside(start, ws, we, s, e, order, ITERATIONS as nat);
    if let Some(state) = alternations(start, ws, we, s, e, order, ITERATIONS as nat) {
        lemma_settled_consistent(
            state.0,
            s,
            e,
            order,
            state.1,
            s_zero::<T>().s_lt(buf[s]),
            clip_boundary(buf[s]),
        );
    }
}

/// A gap with fewer than two samples before it or behind it is not taken up.
pub proof fn lemma_short_context_is_refused<T: PrcFmt>(
    buf: Seq<T>,
    s: int,
    e: int,
    set: ArSettings<T>,
    order_cap: int,
    gap_cap: int,
)
    requires
        0 <= s <= e <= buf.len(),
        s < 2 || buf.len() - e < 2,
    ensures
        ar_refused(buf, s, e, set, order_cap, gap_cap),
        ar_repaired(buf, s, e, set, order_cap, gap_cap) is None,
        left_by_failure(buf, s, e, set, order_cap, gap_cap) == buf,
{
    lemma_clean_run_bound(buf, e, set, 0);
}

/// The right context ends inside the buffer.
proof fn lemma_clean_run_bound<T: PrcFmt>(buf: Seq<T>, e: int, set: ArSettings<T>, len: int)
    requires
        e + len <= buf.len(),
    ensures
        e + clean_run(buf, e, set, len) <= buf.len(),
    decreases buf.len() - e - len,
{
    if len < set.max_ctx && e + len < buf.len() && !flat_top(buf, e + len, set.threshold) {
        lemma_clean_run_bound(buf, e, set, len + 1);
    }
}

/// Whether every sample of `[gs, ge)` is finite.
pub open spec fn all_finite<T: PrcFmt>(buf: Seq<T>, gs: int, ge: int) -> bool {
    forall|j: int| gs <= j < ge ==> (#[trigger] buf[j]).s_finite()
}

/// The samples that a solve takes over are finite.
proof fn lemma_finite_run_is_finite<T: PrcFmt>(x: Seq<T>, i: int)
    requires
        0 <= i <= x.len(),
    ensures
        i <= finite_run(x, i) <= x.len(),
        forall|q: int| i <= q < finite_run(x, i) ==> (#[trigger] x[q]).s_finite(),
    decreases x.len() - i,
{
    if i < x.len() && x[i].s_finite() {
        lemma_finite_run_is_finite(x, i + 1);
    }
}

/// A solve keeps a finite gap finite, and a solve that succeeds fills the gap with finite samples.
proof fn lemma_gap_solved_finite<T: PrcFmt>(buf: Seq<T>, gs: int, ge: int, order: int, rc: Seq<T>)
    requires
        0 <= gs <= ge <= buf.len(),
    ensures
        all_finite(buf, gs, ge) || gap_solvable(buf, gs, ge, order, rc) ==> all_finite(
            gap_solved(buf, gs, ge, order, rc),
            gs,
            ge,
        ),
{
    let x = gap_solution(buf, gs, ge, order, rc);
    lemma_finite_run_is_finite(x, 0);
    let out = gap_solved(buf, gs, ge, order, rc);
    assert forall|j: int|
        gs <= j < ge && (all_finite(buf, gs, ge) || gap_solvable(
            buf,
            gs,
            ge,
            order,
            rc,
        )) implies (#[trigger] out[j]).s_finite() by {
        if factorizes(rc, order, ge - gs) && j - gs < finite_run(x, 0) {
            assert(x[j - gs].s_finite());
        } else {
            assert(buf[j].s_finite());
        }
    }
}

/// The refinement keeps a finite gap finite, where the clip boundary is finite.
proof fn lemma_settled_finite<T: PrcFmt>(
    buf: Seq<T>,
    gs: int,
    ge: int,
    order: int,
    rc: Seq<T>,
    positive: bool,
    boundary: T,
)
    requires
        0 <= gs <= ge <= buf.len(),
        boundary.s_finite(),
        all_finite(buf, gs, ge),
    ensures
        all_finite(settled(buf, gs, ge, order, rc, positive, boundary), gs, ge),
    decreases ge - gs,
{
    let out = settled(buf, gs, ge, order, rc, positive, boundary);
    let l = pinned_left(buf, gs, ge, positive, boundary);
    let r = pinned_right(buf, l, ge, positive, boundary);
    lemma_pinned(buf, gs, ge, positive, boundary);
    lemma_pinned(buf, l, ge, positive, boundary);
    let p = edges_pinned(buf, gs, l, r, ge, boundary);
    let q = gap_solved(p, l, r, order, rc);
    assert(all_finite(p, gs, ge)) by {
        assert forall|j: int| gs <= j < ge implies (#[trigger] p[j]).s_finite() by {
            assert(buf[j].s_finite());
        }
    }
    if l < r {
        lemma_gap_solved_outside(p, l, r, order, rc);
        lemma_gap_solved_finite(p, l, r, order, rc);
        if !(l == gs && r == ge) {
            lemma_settled_finite(q, l, r, order, rc, positive, boundary);
            lemma_settled_outside(q, l, r, order, rc, positive, boundary);
        }
    }
    assert forall|j: int| gs <= j < ge implies (#[trigger] out[j]).s_finite() by {
        assert(p[j].s_finite());
        if l < r && !(l <= j < r) {
            assert(q[j] == p[j]);
        }
    }
}

/// Where the autoregressive repair succeeds, every repaired sample is finite, as long as the level
/// that the run was clipped at is.
pub proof fn lemma_ar_repaired_finite<T: PrcFmt>(
    buf: Seq<T>,
    s: int,
    e: int,
    set: ArSettings<T>,
    order_cap: int,
    gap_cap: int,
)
    requires
        0 <= s <= e <= buf.len(),
        clip_boundary(buf[s]).s_finite(),
    ensures
        ar_repaired(buf, s, e, set, order_cap, gap_cap) matches Some(out) ==> all_finite(out, s, e),
{
    let order = model_order(buf, s, e, set, order_cap);
    let ws = s - left_context(s, set);
    let we = e + clean_run(buf, e, set, 0);
    let start = with_cubic(buf, s, e);
    let n = (ITERATIONS - 1) as nat;
    lemma_alternations_outside(start, ws, we, s, e, order, n);
    lemma_alternations_outside(start, ws, we, s, e, order, ITERATIONS as nat);
    if let Some(state) = alternations(start, ws, we, s, e, order, ITERATIONS as nat) {
        let last = alternations(start, ws, we, s, e, order, n)->0;
        lemma_gap_solved_finite(last.0, s, e, order, state.1);
        lemma_settled_finite(
            state.0,
            s,
            e,
            order,
            state.1,
            s_zero::<T>().s_lt(buf[s]),
            clip_boundary(buf[s]),
        );
    }
}

// ------------------------------- Autoregressive reconstruction -------------------------------

/// Fits a model to the window `[ws, we)` and leaves its Toeplitz coefficients in `scratch.rc`.
/// Returns whether there is one.
fn fit_window<T: PrcFmt>(
    buf: &Vec<T>,
    ws: usize,
    we: usize,
    order: usize,
    scratch: &mut ArScratch<T>,
    Ghost(order_cap): Ghost<int>,
    Ghost(gap_cap): Ghost<int>,
) -> (ok: bool)
    requires
        ws <= we <= buf@.len(),
        order <= we - ws,
        1 <= order <= order_cap,
        old(scratch).has_room(order_cap, gap_cap),
    ensures
        final(scratch).has_room(order_cap, gap_cap),
        ok == fitted(buf@.subrange(ws as int, we as int), order as int).0,
        ok ==> final(scratch).rc@.take(order + 1) == toeplitz(
            fitted(buf@.subrange(ws as int, we as int), order as int).1,
            order as int,
        ),
{
    let ghost win = buf@.subrange(ws as int, we as int);
    let ghost blank = copies((order + 1) as nat, s_zero::<T>());
    let ghost r0 = scratch.r@;
    autocorrelation(slice_subrange(buf.as_slice(), ws, we), order, &mut scratch.r);
    let ghost acf = autocorrelation_over(win, order as int, blank);
    assert(order < scratch.r.len());
    let lags: &[T] = slice_subrange(scratch.r.as_slice(), 0, order + 1);
    assert(lags@ =~= acf);
    let ghost a0 = scratch.a@;
    let ok: bool = levinson(lags, order, &mut scratch.a, &mut scratch.tmp);
    proof {
        assert(white_model(a0, order as int).take(order + 1) =~= white_model(blank, order as int));
        lemma_levinson_prefix(
            acf,
            order as int,
            1,
            white_model(a0, order as int),
            white_model(blank, order as int),
            acf[0],
        );
    }
    if !ok {
        return false;
    }
    let model: &[T] = slice_subrange(scratch.a.as_slice(), 0, order + 1);
    assert(model@ =~= fitted(win, order as int).1);
    coeff_autocorr(model, order, &mut scratch.rc);
    assert(scratch.rc@.take(order + 1) =~= toeplitz(model@, order as int));
    true
}

/// Autoregressive gap reconstruction by the Janssen iterative least-squares AR interpolation,
/// extended with the clipping-consistency constraint that turns AR interpolation into AR
/// declipping. The missing samples `[s, e)` are estimated jointly as the values that minimise the
/// residual energy under a single model spanning both sides; the estimate and the model are
/// refined by alternating: fit the coefficients on the currently filled signal, then solve the
/// normal equations for the gap.
///
/// A clipped sample was at least as large as the clip level, so after the interpolation an
/// active-set pass pins the samples that fall short of it to the clip boundary and solves the
/// interior again with them held as known context. Returns false (the caller falls back to the
/// cubic) when there is not enough context, the gap exceeds the scratch capacity, or the model or
/// a solve is ill-conditioned. Without enough context, or with too long a gap, the buffer is as it
/// was; after a failed fit or solve the gap holds the cubic seed or what the last solve had written.
pub fn reconstruct_ar<T: PrcFmt>(
    buf: &mut Vec<T>,
    s: usize,
    e: usize,
    set: &ArSettings<T>,
    scratch: &mut ArScratch<T>,
) -> (ok: bool)
    requires
        s <= e <= old(buf)@.len(),
        old(scratch).r@.len() > 0,
        old(scratch).has_room(old(scratch).r@.len() - 1, old(scratch).rhs@.len() as int),
    ensures
        final(scratch).has_room(old(scratch).r@.len() - 1, old(scratch).rhs@.len() as int),
        ok == ar_repaired(
            old(buf)@,
            s as int,
            e as int,
            *set,
            old(scratch).r@.len() - 1,
            old(scratch).rhs@.len() as int,
        ) is Some,
        ok ==> Some(final(buf)@) == ar_repaired(
            old(buf)@,
            s as int,
            e as int,
            *set,
            old(scratch).r@.len() - 1,
            old(scratch).rhs@.len() as int,
        ),
        !ok ==> final(buf)@ == left_by_failure(
            old(buf)@,
            s as int,
            e as int,
            *set,
            old(scratch).r@.len() - 1,
            old(scratch).rhs@.len() as int,
        ),
        ar_refused(
            old(buf)@,
            s as int,
            e as int,
            *set,
            old(scratch).r@.len() - 1,
            old(scratch).rhs@.len() as int,
        ) ==> !ok && final(buf)@ == old(buf)@,
        final(buf)@.len() == old(buf)@.len(),
        forall|j: int|
            0 <= j < old(buf)@.len() && !(s <= j < e) ==> #[trigger] final(buf)@[j] == old(buf)@[j],
{
    let ghost order_cap = scratch.r@.len() - 1;
    let ghost gap_cap = scratch.rhs@.len() as int;
    let ghost buf0 = buf@;
    let n: usize = buf.len();
    let g: usize = e - s;
    if g == 0 || g > scratch.rhs.len() || g > scratch.x.len() {
        return false;
    }
    let left_len: usize = if s <= set.max_ctx { s } else { set.max_ctx };
    let mut right_len: usize = 0;
    let mut ended: bool = false;
    while !ended && right_len < set.max_ctx && e + right_len < n
        invariant
            n == buf.len(),
            buf@ == buf0,
            1 <= e <= n,
            e + right_len <= n,
            right_len <= set.max_ctx,
            clean_run(buf0, e as int, *set, 0) == if ended {
                right_len as int
            } else {
                clean_run(buf0, e as int, *set, right_len as int)
            },
        decreases n - right_len + (if ended { 0int } else { 1int }),
    {
        let p: usize = e + right_len;
        let flat: bool = set.threshold.le(buf[p].abs()) && buf[p].minus(buf[p - 1]).abs().le(
            flat_eps(),
        );
        if flat {
            ended = true;
        } else {
            right_len += 1;
        }
    }
    let left_room: usize = if left_len >= 1 { left_len - 1 } else { 0 };
    let right_room: usize = if right_len >= 1 { right_len - 1 } else { 0 };
    let mut order: usize = set.req_order;
    if left_room < order {
        order = left_room;
    }
    if right_room < order {
        order = right_room;
    }
    if scratch.r.len() - 1 < order {
        order = scratch.r.len() - 1;
    }
    assert(order == model_order(buf0, s as int, e as int, *set, order_cap));
    if order < 1 {
        return false;
    }
    let clip_val: T = buf[s];
    let positive: bool = T::of_int(0).lt(clip_val);
    let clip_mag: T = clip_val.abs();

    // Seed the gap with the cubic estimate so the first coefficient fit sees a plausible waveform
    // rather than a discontinuity.
    reconstruct_cubic(buf, s, e);
    let ghost seed = buf@;

    let win_start: usize = s - left_len;
    let win_end: usize = e + right_len;
    let ghost ws = win_start as int;
    let ghost we = win_end as int;

    assert(g * (order + 1) <= gap_cap * (order_cap + 1)) by (nonlinear_arith)
        requires
            0 <= g <= gap_cap,
            0 <= order <= order_cap,
    ;
    let mut k: usize = 0;
    while k < ITERATIONS
        invariant
            k <= ITERATIONS,
            order_cap == old(scratch).r@.len() - 1,
            gap_cap == old(scratch).rhs@.len(),
            scratch.has_room(order_cap, gap_cap),
            1 <= order <= order_cap,
            order < left_len,
            order < right_len,
            left_len == left_context(s as int, *set),
            right_len == clean_run(buf0, e as int, *set, 0),
            win_start == s - left_len,
            win_end == e + right_len,
            ws == win_start,
            we == win_end,
            win_end <= buf.len(),
            buf0 == old(buf)@,
            buf@.len() == buf0.len(),
            g == e - s,
            1 <= g <= gap_cap,
            g * (order + 1) <= gap_cap * (order_cap + 1),
            order == model_order(buf0, s as int, e as int, *set, order_cap),
            seed == with_cubic(buf0, s as int, e as int),
            alternations(seed, ws, we, s as int, e as int, order as int, k as nat) matches Some(st)
                && st.0 == buf@ && (k > 0 ==> st.1 == scratch.rc@.take(order + 1)),
            forall|j: int| 0 <= j < buf0.len() && !(s <= j < e) ==> #[trigger] buf@[j] == buf0[j],
        decreases ITERATIONS - k,
    {
        let ok: bool = fit_window(
            buf,
            win_start,
            win_end,
            order,
            scratch,
            Ghost(order_cap),
            Ghost(gap_cap),
        );
        if !ok {
            proof {
                lemma_alternations_stop(
                    seed,
                    ws,
                    we,
                    s as int,
                    e as int,
                    order as int,
                    (k + 1) as nat,
                    ITERATIONS as nat,
                );
            }
            return false;
        }
        let ghost was = buf@;
        assert(order < scratch.rc.len());
        let coeffs: &[T] = slice_subrange(scratch.rc.as_slice(), 0, order + 1);
        assert(coeffs@ =~= scratch.rc@.take(order + 1));
        let solved: bool = solve_gap(
            buf,
            s,
            e,
            order,
            coeffs,
            &mut scratch.band,
            &mut scratch.rhs,
            &mut scratch.x,
        );
        proof {
            lemma_gap_solved_outside(was, s as int, e as int, order as int, coeffs@);
        }
        if !solved {
            proof {
                lemma_alternations_stop(
                    seed,
                    ws,
                    we,
                    s as int,
                    e as int,
                    order as int,
                    (k + 1) as nat,
                    ITERATIONS as nat,
                );
            }
            return false;
        }
        k += 1;
    }

    // Clipping-consistency refinement, under the model of the last alternation.
    let boundary: T = if positive {
        clip_mag
    } else {
        clip_mag.negated()
    };
    let ghost rcs = scratch.rc@.take(order + 1);
    let ghost start = buf@;
    proof {
        lemma_settled_outside(
            start,
            s as int,
            e as int,
            order as int,
            rcs,
            positive,
            boundary,
        );
    }
    let mut gs: usize = s;
    let mut ge: usize = e;
    let mut done: bool = false;
    while !done
        invariant
            order_cap == old(scratch).r@.len() - 1,
            gap_cap == old(scratch).rhs@.len(),
            scratch.has_room(order_cap, gap_cap),
            1 <= order <= order_cap,
            order <= s <= gs <= ge <= e,
            e + order <= buf.len(),
            e - s <= gap_cap,
            buf@.len() == start.len(),
            rcs == scratch.rc@.take(order + 1),
            settled(start, s as int, e as int, order as int, rcs, positive, boundary) == if done {
                buf@
            } else {
                settled(buf@, gs as int, ge as int, order as int, rcs, positive, boundary)
            },
        decreases (if done { 0int } else { 1 + (ge - gs) }),
    {
        let ghost b0 = buf@;
        let ghost gs0 = gs as int;
        let ghost ge0 = ge as int;
        let mut moved: bool = false;
        proof {
            lemma_pinned(b0, gs0, ge0, positive, boundary);
        }
        while gs < ge && falls_short(buf[gs], positive, boundary)
            invariant
                0 <= gs0 <= gs <= ge == ge0,
                ge <= buf.len(),
                moved == (gs0 < gs),
                buf@ =~= edges_pinned(b0, gs0, gs as int, ge0, ge0, boundary),
                pinned_left(b0, gs0, ge0, positive, boundary) == pinned_left(
                    b0,
                    gs as int,
                    ge0,
                    positive,
                    boundary,
                ),
            decreases ge - gs,
        {
            buf[gs] = boundary;
            gs += 1;
            moved = true;
        }
        let ghost l = gs as int;
        assert(l == pinned_left(b0, gs0, ge0, positive, boundary));
        while ge > gs && falls_short(buf[ge - 1], positive, boundary)
            invariant
                0 <= gs0 <= gs <= ge <= ge0,
                l == gs,
                ge0 <= buf.len(),
                moved == (gs0 < gs || ge < ge0),
                buf@ =~= edges_pinned(b0, gs0, l, ge as int, ge0, boundary),
                pinned_right(b0, l, ge0, positive, boundary) == pinned_right(
                    b0,
                    l,
                    ge as int,
                    positive,
                    boundary,
                ),
            decreases ge - gs,
        {
            buf[ge - 1] = boundary;
            ge -= 1;
            moved = true;
        }
        let ghost r = ge as int;
        assert(r == pinned_right(b0, l, ge0, positive, boundary));
        let ghost p = edges_pinned(b0, gs0, l, r, ge0, boundary);
        assert(buf@ =~= p);
        if gs >= ge {
            // Every remaining sample is pinned to the boundary; nothing left to solve.
            done = true;
        } else if range_falls_short(buf, gs, ge, positive, boundary) {
            // A violation strictly inside the free interior: project those samples directly
            // rather than attempting a non-banded reduced solve.
            project(buf, gs, ge, positive, boundary);
            done = true;
        } else if !moved {
            // The interior is feasible and no edge moved this round: constrained optimum.
            done = true;
        } else {
            assert((ge - gs) * (order + 1) <= gap_cap * (order_cap + 1)) by (nonlinear_arith)
                requires
                    0 <= ge - gs <= gap_cap,
                    0 <= order <= order_cap,
            ;
            assert(order < scratch.rc.len());
            let coeffs: &[T] = slice_subrange(scratch.rc.as_slice(), 0, order + 1);
            assert(coeffs@ =~= rcs);
            let solved: bool = solve_gap(
                buf,
                gs,
                ge,
                order,
                coeffs,
                &mut scratch.band,
                &mut scratch.rhs,
                &mut scratch.x,
            );
            proof {
                lemma_gap_solved_outside(p, l, r, order as int, rcs);
            }
            if !solved {
                project(buf, gs, ge, positive, boundary);
                done = true;
            }
        }
    }
    true
}

/// Whether some sample of `[gs, ge)` falls short of the clip level.
fn range_falls_short<T: PrcFmt>(
    buf: &Vec<T>,
    gs: usize,
    ge: usize,
    positive: bool,
    boundary: T,
) -> (r: bool)
    requires
        gs <= ge <= buf@.len(),
    ensures
        r == any_violates(buf@, gs as int, ge as int, positive, boundary),
{
    let mut j: usize = gs;
    while j < ge
        invariant
            gs <= j <= ge <= buf@.len(),
            forall|q: int| gs <= q < j ==> !violates(buf@[q], positive, boundary),
        decreases ge - j,
    {
        if falls_short(buf[j], positive, boundary) {
            assert(violates(buf@[j as int], positive, boundary));
            return true;
        }
        j += 1;
    }
    false
}

/// Sets every sample of `[gs, ge)` that falls short of the clip level to the boundary.
fn project<T: PrcFmt>(buf: &mut Vec<T>, gs: usize, ge: usize, positive: bool, boundary: T)
    requires
        gs <= ge <= old(buf)@.len(),
    ensures
        final(buf)@ == projected(old(buf)@, gs as int, ge as int, positive, boundary),
{
    let mut j: usize = gs;
    while j < ge
        invariant
            gs <= j <= ge <= buf@.len(),
            buf@ =~= projected(old(buf)@, gs as int, j as int, positive, boundary),
        decreases ge - j,
    {
        if falls_short(buf[j], positive, boundary) {
            buf[j] = boundary;
        }
        j += 1;
    }
}

} // verus!
