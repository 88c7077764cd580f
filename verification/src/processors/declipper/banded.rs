//! Banded Cholesky solver for symmetric Toeplitz systems.

use crate::arith::{min_int, monus, s_zero};
use crate::prcfmt::PrcFmt;
use vstd::arithmetic::div_mod::lemma_fundamental_div_mod_converse;
use vstd::prelude::*;

verus! {

/// Entry `(i, j)`, `j <= i`, of the lower-triangular Cholesky factor of the matrix
/// `A[i][j] = rc[|i - j|]` with half-bandwidth `bw`.
pub open spec fn chol<T: PrcFmt>(rc: Seq<T>, bw: int, i: int, j: int) -> T
    decreases i, j, j + 1,
    when 0 <= j <= i
{
    let s = chol_sum(rc, bw, i, j, j);
    if i == j {
        s.s_sqrt()
    } else {
        s.s_div(chol(rc, bw, j, j))
    }
}

/// `A[i][j]` less the products `L[i][c] * L[j][c]` of the columns `c < k` inside the band of row
/// `i`, subtracted in order.
pub open spec fn chol_sum<T: PrcFmt>(rc: Seq<T>, bw: int, i: int, j: int, k: int) -> T
    decreases i, j, k,
    when 0 <= k <= j <= i
{
    if k <= monus(i, bw) {
        rc[i - j]
    } else {
        chol_sum(rc, bw, i, j, k - 1).s_sub(chol(rc, bw, i, k - 1).s_mul(chol(rc, bw, j, k - 1)))
    }
}

/// Whether row `i` of the factor has a positive, finite pivot.
pub open spec fn pivot_ok<T: PrcFmt>(rc: Seq<T>, bw: int, i: int) -> bool {
    let s = chol_sum(rc, bw, i, i, i);
    !s.s_le(s_zero()) && s.s_finite()
}

/// The first of the rows `i..g` without a usable pivot, or `g`.
pub open spec fn first_bad_pivot<T: PrcFmt>(rc: Seq<T>, bw: int, g: int, i: int) -> int
    decreases g - i,
{
    if i >= g {
        g
    } else if !pivot_ok(rc, bw, i) {
        i
    } else {
        first_bad_pivot(rc, bw, g, i + 1)
    }
}

/// Whether the matrix of size `g` is positive definite, as far as its factorisation shows.
pub open spec fn factorizes<T: PrcFmt>(rc: Seq<T>, bw: int, g: int) -> bool {
    first_bad_pivot(rc, bw, g, 0) == g
}

/// The band storage once the factorisation has reached row `stop`: the factor above, in row
/// `stop` all of the factor but its pivot, and the matrix itself below.
pub open spec fn band_after<T: PrcFmt>(
    rc: Seq<T>,
    bw: int,
    g: int,
    stop: int,
    band: Seq<T>,
) -> Seq<T> {
    Seq::new(
        band.len(),
        |p: int|
            {
                let q = p / (bw + 1);
                let d = p % (bw + 1);
                if q >= g || d > q {
                    band[p]
                } else if q < stop || (q == stop && d > 0) {
                    chol(rc, bw, q, q - d)
                } else {
                    rc[d]
                }
            },
    )
}

/// `rhs[i]` less `L[i][i - c] * y[i - c]` for `c` in `1..=d`.
pub open spec fn forward_sum<T: PrcFmt>(rc: Seq<T>, bw: int, rhs: Seq<T>, i: int, d: int) -> T
    decreases i, d,
    when 0 <= d <= i
{
    if d == 0 {
        rhs[i]
    } else {
        forward_sum(rc, bw, rhs, i, d - 1).s_sub(
            chol(rc, bw, i, i - d).s_mul(forward(rc, bw, rhs, i - d)),
        )
    }
}

/// Component `i` of the solution `y` of `L y = rhs`.
pub open spec fn forward<T: PrcFmt>(rc: Seq<T>, bw: int, rhs: Seq<T>, i: int) -> T
    decreases i, i + 1,
    when 0 <= i && 0 <= bw
{
    forward_sum(rc, bw, rhs, i, min_int(bw, i)).s_div(chol(rc, bw, i, i))
}

/// `y[i]` less `L[c][i] * x[c]` for `c` in `i + 1..=l`.
pub open spec fn back_sum<T: PrcFmt>(
    rc: Seq<T>,
    bw: int,
    g: int,
    rhs: Seq<T>,
    i: int,
    l: int,
) -> T
    decreases g - i, l - i,
    when 0 <= i <= l < g
{
    if l == i {
        forward(rc, bw, rhs, i)
    } else {
        back_sum(rc, bw, g, rhs, i, l - 1).s_sub(
            chol(rc, bw, l, i).s_mul(solution(rc, bw, g, rhs, l)),
        )
    }
}

/// Component `i` of the solution `x` of `A x = rhs` by forward and back substitution.
pub open spec fn solution<T: PrcFmt>(rc: Seq<T>, bw: int, g: int, rhs: Seq<T>, i: int) -> T
    decreases g - i, bw + 1,
    when 0 <= i < g && 0 <= bw
{
    back_sum(rc, bw, g, rhs, i, min_int(i + bw, g - 1)).s_div(chol(rc, bw, i, i))
}

/// The solution laid over `x`.
pub open spec fn solution_over<T: PrcFmt>(
    rc: Seq<T>,
    bw: int,
    g: int,
    rhs: Seq<T>,
    x: Seq<T>,
) -> Seq<T> {
    Seq::new(
        x.len(),
        |i: int|
            if i < g {
                solution(rc, bw, g, rhs, i)
            } else {
                x[i]
            },
    )
}

/// Entry `d` of row `q` of a band with rows of `stride` entries.
spec fn at<T>(band: Seq<T>, stride: int, q: int, d: int) -> T {
    band[q * stride + d]
}

/// Row-major positions inside `g` rows of `stride` entries.
proof fn lemma_position(stride: int, g: int, q: int, d: int)
    requires
        0 <= q < g,
        0 <= d < stride,
    ensures
        0 <= q * stride + d < g * stride,
        (q * stride + d) / stride == q,
        (q * stride + d) % stride == d,
{
    assert(q * stride + stride <= g * stride) by (nonlinear_arith)
        requires
            q + 1 <= g,
            0 < stride,
    ;
    assert(0 <= q * stride) by (nonlinear_arith)
        requires
            0 <= q,
            0 < stride,
    ;
    lemma_fundamental_div_mod_converse(q * stride + d, stride, q, d);
}

/// Reads entry `d` of row `q`.
fn get<T: PrcFmt>(band: &Vec<T>, stride: usize, g: usize, q: usize, d: usize) -> (r: T)
    requires
        q < g,
        d < stride,
        g * stride <= band@.len(),
    ensures
        r == at(band@, stride as int, q as int, d as int),
{
    proof {
        lemma_position(stride as int, g as int, q as int, d as int);
        assert(g * stride <= band.len());
        assert(0 <= q * stride) by (nonlinear_arith)
            requires
                0 <= q,
                0 <= stride,
        ;
    }
    band[q * stride + d]
}

/// Writes entry `d` of row `q`.
fn put<T: PrcFmt>(band: &mut Vec<T>, stride: usize, g: usize, q: usize, d: usize, v: T)
    requires
        q < g,
        d < stride,
        g * stride <= old(band)@.len(),
    ensures
        final(band)@ == old(band)@.update(q * stride + d, v),
        0 <= q * stride + d < g * stride,
        at(final(band)@, stride as int, q as int, d as int) == v,
        forall|a: int, b: int|
            0 <= a < g && 0 <= b < stride && !(a == q && b == d) ==> #[trigger] at(
                final(band)@,
                stride as int,
                a,
                b,
            ) == at(old(band)@, stride as int, a, b),
{
    proof {
        lemma_position(stride as int, g as int, q as int, d as int);
        assert(g * stride <= band.len());
        assert(0 <= q * stride) by (nonlinear_arith)
            requires
                0 <= q,
                0 <= stride,
        ;
    }
    band[q * stride + d] = v;
    assert forall|a: int, b: int|
        0 <= a < g && 0 <= b < stride && !(a == q && b == d) implies #[trigger] at(
        band@,
        stride as int,
        a,
        b,
    ) == at(old(band)@, stride as int, a, b) by {
        lemma_position(stride as int, g as int, a, b);
    }
}

/// What row `q` holds once the rows before `upto` are factored: there the factor, else the matrix.
spec fn row_is<T: PrcFmt>(band: Seq<T>, rc: Seq<T>, bw: int, q: int, upto: int) -> bool {
    forall|d: int|
        0 <= d <= bw && d <= q ==> #[trigger] at(band, bw + 1, q, d) == if q < upto {
            chol(rc, bw, q, q - d)
        } else {
            rc[d]
        }
}

/// Positions that the factorisation never touches.
spec fn rest_kept<T>(band: Seq<T>, before: Seq<T>, bw: int, g: int) -> bool {
    &&& band.len() == before.len()
    &&& forall|p: int|
        0 <= p < band.len() && (p / (bw + 1) >= g || p % (bw + 1) > p / (bw + 1)) ==> #[trigger] band[p]
            == before[p]
}

proof fn lemma_first_bad_pivot<T: PrcFmt>(rc: Seq<T>, bw: int, g: int, i: int, stop: int)
    requires
        0 <= i <= stop <= g,
        forall|q: int| i <= q < stop ==> pivot_ok(rc, bw, q),
        stop < g ==> !pivot_ok(rc, bw, stop),
    ensures
        first_bad_pivot(rc, bw, g, i) == stop,
    decreases stop - i,
{
    if i < stop {
        lemma_first_bad_pivot(rc, bw, g, i + 1, stop);
    }
}

proof fn lemma_band_after<T: PrcFmt>(
    rc: Seq<T>,
    bw: int,
    g: int,
    stop: int,
    before: Seq<T>,
    band: Seq<T>,
)
    requires
        0 <= bw,
        0 <= stop <= g,
        g * (bw + 1) <= band.len(),
        rest_kept(band, before, bw, g),
        forall|q: int| 0 <= q < g && q != stop ==> row_is(band, rc, bw, q, stop),
        stop < g ==> at(band, bw + 1, stop, 0) == rc[0],
        stop < g ==> forall|d: int|
            1 <= d <= bw && d <= stop ==> #[trigger] at(band, bw + 1, stop, d) == chol(
                rc,
                bw,
                stop,
                stop - d,
            ),
    ensures
        band == band_after(rc, bw, g, stop, before),
{
    let w = band_after(rc, bw, g, stop, before);
    assert forall|p: int| 0 <= p < band.len() implies band[p] == w[p] by {
        let q = p / (bw + 1);
        let d = p % (bw + 1);
        vstd::arithmetic::div_mod::lemma_fundamental_div_mod(p, bw + 1);
        vstd::arithmetic::div_mod::lemma_mod_bound(p, bw + 1);
        vstd::arithmetic::div_mod::lemma_div_pos_is_pos(p, bw + 1);
        assert((bw + 1) * q == q * (bw + 1)) by (nonlinear_arith);
        assert(band[p] == at(band, bw + 1, q, d));
        if q < g && d <= q && q != stop {
            assert(row_is(band, rc, bw, q, stop));
        }
    }
    assert(band =~= w);
}

/// Factors the matrix in place. Returns whether every pivot was usable.
fn factor<T: PrcFmt>(rc: &[T], bw: usize, g: usize, band: &mut Vec<T>) -> (ok: bool)
    requires
        bw < rc.len(),
        g * (bw + 1) <= old(band)@.len(),
    ensures
        ok == factorizes(rc@, bw as int, g as int),
        final(band)@ == band_after(
            rc@,
            bw as int,
            g as int,
            first_bad_pivot(rc@, bw as int, g as int, 0),
            old(band)@,
        ),
        ok ==> forall|q: int| 0 <= q < g ==> row_is(final(band)@, rc@, bw as int, q, g as int),
{
    let ghost w = bw as int;
    let ghost before = band@;
    let stride: usize = bw + 1;
    let mut i: usize = 0;
    while i < g
        invariant
            w == bw,
            stride == bw + 1,
            bw < rc@.len(),
            g * stride <= band@.len(),
            i <= g,
            before == old(band)@,
            rest_kept(band@, before, w, g as int),
            forall|q: int| 0 <= q < i ==> row_is(band@, rc@, w, q, 0),
        decreases g - i,
    {
        let dmax: usize = if bw <= i { bw } else { i };
        let mut d: usize = 0;
        while d <= dmax
            invariant
                w == bw,
                stride == bw + 1,
                bw < rc@.len(),
                g * stride <= band@.len(),
                i < g,
                dmax == min_int(bw as int, i as int),
                d <= dmax + 1,
                before == old(band)@,
                rest_kept(band@, before, w, g as int),
                forall|q: int| 0 <= q < i ==> row_is(band@, rc@, w, q, 0),
                forall|e: int| 0 <= e < d ==> #[trigger] at(band@, w + 1, i as int, e) == rc@[e],
            decreases dmax + 1 - d,
        {
            let ghost was = band@;
            put(band, stride, g, i, d, rc[d]);
            proof {
                lemma_position(w + 1, g as int, i as int, d as int);
                assert forall|q: int| 0 <= q < i implies row_is(band@, rc@, w, q, 0) by {
                    assert(row_is(was, rc@, w, q, 0));
                    assert forall|e: int| 0 <= e <= w && e <= q implies #[trigger] at(
                        band@,
                        w + 1,
                        q,
                        e,
                    ) == rc@[e] by {
                        assert(at(was, w + 1, q, e) == rc@[e]);
                    }
                }
            }
            d += 1;
        }
        assert(row_is(band@, rc@, w, i as int, 0));
        i += 1;
    }
    let mut i: usize = 0;
    while i < g
        invariant
            w == bw,
            stride == bw + 1,
            bw < rc@.len(),
            g * stride <= band@.len(),
            i <= g,
            before == old(band)@,
            rest_kept(band@, before, w, g as int),
            forall|q: int| 0 <= q < i ==> pivot_ok(rc@, w, q),
            forall|q: int| 0 <= q < g ==> row_is(band@, rc@, w, q, i as int),
        decreases g - i,
    {
        assert(row_is(band@, rc@, w, i as int, i as int));
        let dmax: usize = if bw <= i { bw } else { i };
        let k_start: usize = if bw <= i { i - bw } else { 0 };
        // The columns of the row run from the band's edge to the diagonal; `todo` of them are
        // still to be filled.
        let mut todo: usize = dmax + 1;
        while todo > 0
            invariant
                w == bw,
                stride == bw + 1,
                bw < rc@.len(),
                g * stride <= band@.len(),
                i < g,
                dmax == min_int(bw as int, i as int),
                k_start == monus(i as int, w),
                dmax == i - k_start,
                todo <= dmax + 1,
                before == old(band)@,
                rest_kept(band@, before, w, g as int),
                forall|q: int| 0 <= q < i ==> pivot_ok(rc@, w, q),
                todo == 0 ==> pivot_ok(rc@, w, i as int),
                forall|q: int| 0 <= q < g && q != i ==> row_is(band@, rc@, w, q, i as int),
                forall|e: int|
                    0 <= e <= dmax ==> #[trigger] at(band@, w + 1, i as int, e) == if e >= todo {
                        chol(rc@, w, i as int, i - e)
                    } else {
                        rc@[e]
                    },
            decreases todo,
        {
            let d: usize = todo - 1;
            let j: usize = i - d;
            let mut sum: T = get(band, stride, g, i, d);
            let mut k: usize = k_start;
            while k < j
                invariant
                    w == bw,
                    stride == bw + 1,
                    g * stride <= band@.len(),
                    j <= i < g,
                    d == i - j,
                    d <= dmax,
                    dmax == min_int(bw as int, i as int),
                    k_start == monus(i as int, w),
                    k_start <= k <= j,
                    sum == chol_sum(rc@, w, i as int, j as int, k as int),
                    forall|q: int| 0 <= q < g && q != i ==> row_is(band@, rc@, w, q, i as int),
                    forall|e: int|
                        d < e <= dmax ==> #[trigger] at(band@, w + 1, i as int, e) == chol(
                            rc@,
                            w,
                            i as int,
                            i - e,
                        ),
                decreases j - k,
            {
                let dik: usize = i - k;
                let djk: usize = j - k;
                assert(at(band@, w + 1, i as int, dik as int) == chol(rc@, w, i as int, k as int));
                if j < i {
                    assert(row_is(band@, rc@, w, j as int, i as int));
                }
                assert(at(band@, w + 1, j as int, djk as int) == chol(rc@, w, j as int, k as int));
                sum = sum.minus(get(band, stride, g, i, dik).times(get(band, stride, g, j, djk)));
                k += 1;
            }
            let ghost was = band@;
            if d == 0 {
                if sum.le(T::of_int(0)) || !sum.is_finite() {
                    proof {
                        lemma_first_bad_pivot(rc@, w, g as int, 0, i as int);
                        lemma_band_after(rc@, w, g as int, i as int, before, band@);
                    }
                    return false;
                }
                put(band, stride, g, i, 0, sum.sqrt());
            } else {
                assert(row_is(band@, rc@, w, j as int, i as int));
                assert(at(band@, w + 1, j as int, 0) == chol(rc@, w, j as int, j as int));
                let v: T = sum.over(get(band, stride, g, j, 0));
                put(band, stride, g, i, d, v);
            }
            proof {
                lemma_position(w + 1, g as int, i as int, d as int);
                assert forall|q: int| 0 <= q < g && q != i implies row_is(
                    band@,
                    rc@,
                    w,
                    q,
                    i as int,
                ) by {
                    assert(row_is(was, rc@, w, q, i as int));
                    assert forall|e: int| 0 <= e <= w && e <= q implies #[trigger] at(
                        band@,
                        w + 1,
                        q,
                        e,
                    ) == at(was, w + 1, q, e) by {}
                }
                assert forall|e: int| 0 <= e <= dmax && e != d implies #[trigger] at(
                    band@,
                    w + 1,
                    i as int,
                    e,
                ) == at(was, w + 1, i as int, e) by {}
            }
            todo = d;
        }
        proof {
            let next = i + 1;
            assert forall|q: int| 0 <= q < g implies row_is(band@, rc@, w, q, next) by {
                if q != i {
                    assert(row_is(band@, rc@, w, q, i as int));
                }
            }
        }
        i += 1;
    }
    proof {
        lemma_first_bad_pivot(rc@, w, g as int, 0, g as int);
        lemma_band_after(rc@, w, g as int, g as int, before, band@);
    }
    true
}

/// Solves `A x = rhs` where `A` is the symmetric positive-definite banded Toeplitz matrix with
/// `A[i][j] = rc[|i - j|]` for `|i - j| <= bw` (zero outside the band), of size `g`. Uses an
/// in-place banded Cholesky factorisation: the factor `L` is written into `band` as
/// `band[i * (bw + 1) + d] = L[i][i - d]`. Returns false if `A` is not positive definite.
pub fn solve_banded_toeplitz<T: PrcFmt>(
    rc: &[T],
    bw: usize,
    g: usize,
    rhs: &[T],
    band: &mut Vec<T>,
    x: &mut Vec<T>,
) -> (ok: bool)
    requires
        bw < rc.len(),
        g <= rhs@.len(),
        g <= old(x)@.len(),
        g * (bw + 1) <= old(band)@.len(),
    ensures
        ok == factorizes(rc@, bw as int, g as int),
        final(band)@ == band_after(
            rc@,
            bw as int,
            g as int,
            first_bad_pivot(rc@, bw as int, g as int, 0),
            old(band)@,
        ),
        final(x)@ == if ok {
            solution_over(rc@, bw as int, g as int, rhs@, old(x)@)
        } else {
            old(x)@
        },
{
    let ghost w = bw as int;
    let stride: usize = bw + 1;
    if !factor(rc, bw, g, band) {
        return false;
    }
    let mut i: usize = 0;
    while i < g
        invariant
            w == bw,
            stride == bw + 1,
            g * stride <= band@.len(),
            g <= rhs@.len(),
            g <= x@.len(),
            i <= g,
            x@.len() == old(x)@.len(),
            forall|q: int| 0 <= q < g ==> row_is(band@, rc@, w, q, g as int),
            forall|q: int| 0 <= q < i ==> x@[q] == forward(rc@, w, rhs@, q),
            forall|q: int| g <= q < x@.len() ==> x@[q] == old(x)@[q],
        decreases g - i,
    {
        let dmax: usize = if bw <= i { bw } else { i };
        let mut sum: T = rhs[i];
        let mut d: usize = 1;
        assert(row_is(band@, rc@, w, i as int, g as int));
        while d <= dmax
            invariant
                w == bw,
                stride == bw + 1,
                g * stride <= band@.len(),
                i < g <= x@.len(),
                dmax == min_int(w, i as int),
                1 <= d <= dmax + 1,
                row_is(band@, rc@, w, i as int, g as int),
                forall|q: int| 0 <= q < i ==> x@[q] == forward(rc@, w, rhs@, q),
                sum == forward_sum(rc@, w, rhs@, i as int, d - 1),
            decreases dmax + 1 - d,
        {
            assert(at(band@, w + 1, i as int, d as int) == chol(rc@, w, i as int, i - d));
            sum = sum.minus(get(band, stride, g, i, d).times(x[i - d]));
            d += 1;
        }
        assert(at(band@, w + 1, i as int, 0) == chol(rc@, w, i as int, i as int));
        x[i] = sum.over(get(band, stride, g, i, 0));
        i += 1;
    }
    let mut i: usize = g;
    while i > 0
        invariant
            w == bw,
            stride == bw + 1,
            g * stride <= band.len(),
            g <= x@.len(),
            i <= g,
            x@.len() == old(x)@.len(),
            forall|q: int| 0 <= q < g ==> row_is(band@, rc@, w, q, g as int),
            forall|q: int| 0 <= q < i ==> x@[q] == forward(rc@, w, rhs@, q),
            forall|q: int| i <= q < g ==> x@[q] == solution(rc@, w, g as int, rhs@, q),
            forall|q: int| g <= q < x@.len() ==> x@[q] == old(x)@[q],
        decreases i,
    {
        i -= 1;
        let mut sum: T = x[i];
        assert(g + bw <= g * stride) by (nonlinear_arith)
            requires
                stride == bw + 1,
                g >= 1,
                bw >= 0,
        ;
        let lmax: usize = if i + bw <= g - 1 { i + bw } else { g - 1 };
        let mut l: usize = i + 1;
        while l <= lmax
            invariant
                w == bw,
                stride == bw + 1,
                g * stride <= band@.len(),
                i < g <= x@.len(),
                lmax == min_int(i + bw, g - 1),
                i + 1 <= l <= lmax + 1,
                forall|q: int| 0 <= q < g ==> row_is(band@, rc@, w, q, g as int),
                forall|q: int| i < q < g ==> x@[q] == solution(rc@, w, g as int, rhs@, q),
                sum == back_sum(rc@, w, g as int, rhs@, i as int, l - 1),
            decreases lmax + 1 - l,
        {
            assert(row_is(band@, rc@, w, l as int, g as int));
            assert(at(band@, w + 1, l as int, l - i) == chol(rc@, w, l as int, i as int));
            sum = sum.minus(get(band, stride, g, l, l - i).times(x[l]));
            l += 1;
        }
        assert(row_is(band@, rc@, w, i as int, g as int));
        assert(at(band@, w + 1, i as int, 0) == chol(rc@, w, i as int, i as int));
        x[i] = sum.over(get(band, stride, g, i, 0));
    }
    assert(x@ =~= solution_over(rc@, w, g as int, rhs@, old(x)@));
    true
}

} // verus!
