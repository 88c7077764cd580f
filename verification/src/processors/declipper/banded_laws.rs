//! What the banded solver computes where arithmetic is exact: the solution of the linear system.
//!
//! A format that rounds gives a solution that is as good as its rounding. To see that nothing but
//! rounding stands between what is computed and the solution, the laws of exact arithmetic are
//! assumed here, and the system is shown to hold.

use crate::arith::{min_int, monus, s_zero};
use crate::exact::{
    difference_cancels, is_exact, lemma_total_same, lemma_total_scale, lemma_total_split,
    lemma_total_swap, lemma_total_zero, products_commute, products_distribute, quotient_cancels,
    root_squares, sums_associate, sums_commute, total, zero_is_neutral,
};
use crate::prcfmt::PrcFmt;
use crate::processors::declipper::banded::{
    back_sum, chol, chol_sum, factorizes, first_bad_pivot, forward, forward_sum, pivot_ok, solution,
};
use crate::processors::declipper::gap::{gap_rhs, gap_solution, known_sum};
use vstd::prelude::*;

verus! {

// ------------------------------- The factor -------------------------------

/// Entry `(i, c)` of the Cholesky factor, zero outside the band.
pub open spec fn factor_entry<T: PrcFmt>(rc: Seq<T>, bw: int, i: int, c: int) -> T {
    if 0 <= c <= i && i - c <= bw {
        chol(rc, bw, i, c)
    } else {
        s_zero()
    }
}

/// Entry `(i, j)` of the symmetric banded Toeplitz matrix.
pub open spec fn matrix_entry<T: PrcFmt>(rc: Seq<T>, bw: int, i: int, j: int) -> T {
    let d = if i <= j {
        j - i
    } else {
        i - j
    };
    if d <= bw {
        rc[d]
    } else {
        s_zero()
    }
}

proof fn lemma_pivots<T: PrcFmt>(rc: Seq<T>, bw: int, g: int, i: int, q: int)
    requires
        first_bad_pivot(rc, bw, g, i) == g,
        i <= q < g,
    ensures
        pivot_ok(rc, bw, q),
    decreases q - i,
{
    if i < q {
        lemma_pivots(rc, bw, g, i + 1, q);
    }
}

/// A usable pivot is not zero, and its square is what it was the root of.
proof fn lemma_diagonal<T: PrcFmt>(rc: Seq<T>, bw: int, g: int, i: int)
    requires
        is_exact::<T>(),
        factorizes(rc, bw, g),
        0 <= i < g,
    ensures
        chol(rc, bw, i, i) != s_zero::<T>(),
        chol(rc, bw, i, i).s_mul(chol(rc, bw, i, i)) == chol_sum(rc, bw, i, i, i),
{
    lemma_pivots(rc, bw, g, 0, i);
    assert(root_squares(chol_sum(rc, bw, i, i, i)));
}

/// The product of two rows of the factor, column by column.
pub open spec fn row_product<T: PrcFmt>(rc: Seq<T>, bw: int, i: int, j: int) -> spec_fn(int) -> T {
    |c: int| factor_entry(rc, bw, i, c).s_mul(factor_entry(rc, bw, j, c))
}

/// What has been subtracted from an entry of the matrix are the products of the columns so far.
proof fn lemma_chol_sum<T: PrcFmt>(rc: Seq<T>, bw: int, i: int, j: int, k: int)
    requires
        is_exact::<T>(),
        0 <= k <= j <= i,
        0 <= bw,
        i - j <= bw,
    ensures
        chol_sum(rc, bw, i, j, k).s_add(total(row_product(rc, bw, i, j), 0, k)) == rc[i - j],
    decreases k,
{
    let f = row_product(rc, bw, i, j);
    if k <= monus(i, bw) {
        assert forall|c: int| 0 <= c < k implies #[trigger] f(c) == s_zero::<T>() by {
            assert(zero_is_neutral(factor_entry(rc, bw, j, c)));
        }
        lemma_total_zero(f, 0, k);
        assert(sums_commute(rc[i - j], s_zero::<T>()));
        assert(zero_is_neutral(rc[i - j]));
    } else {
        lemma_chol_sum(rc, bw, i, j, k - 1);
        let before = chol_sum(rc, bw, i, j, k - 1);
        let s = total(f, 0, k - 1);
        let t = chol(rc, bw, i, k - 1).s_mul(chol(rc, bw, j, k - 1));
        assert(f(k - 1) == t);
        assert(sums_commute(s, t));
        assert(sums_associate(before.s_sub(t), t, s));
        assert(difference_cancels(before, t));
    }
}

/// The factor times its transpose is the matrix.
proof fn lemma_factor_gives_matrix<T: PrcFmt>(rc: Seq<T>, bw: int, g: int, i: int, j: int)
    requires
        is_exact::<T>(),
        factorizes(rc, bw, g),
        0 <= bw,
        0 <= j <= i < g,
    ensures
        total(row_product(rc, bw, i, j), 0, g) == matrix_entry(rc, bw, i, j),
{
    let f = row_product(rc, bw, i, j);
    if i - j > bw {
        assert forall|c: int| 0 <= c < g implies #[trigger] f(c) == s_zero::<T>() by {
            let a = factor_entry(rc, bw, i, c);
            let b = factor_entry(rc, bw, j, c);
            assert(zero_is_neutral(a) && zero_is_neutral(b));
            assert(products_commute(a, b));
        }
        lemma_total_zero(f, 0, g);
    } else {
        lemma_chol_sum(rc, bw, i, j, j);
        lemma_diagonal(rc, bw, g, j);
        let s = chol_sum(rc, bw, i, j, j);
        assert(f(j) == s) by {
            assert(quotient_cancels(s, chol(rc, bw, j, j)));
        }
        assert(sums_commute(s, total(f, 0, j)));
        assert(total(f, 0, j + 1) == rc[i - j]);
        assert forall|c: int| j + 1 <= c < g implies #[trigger] f(c) == s_zero::<T>() by {
            let a = factor_entry(rc, bw, i, c);
            assert(factor_entry(rc, bw, j, c) == s_zero::<T>());
            assert(products_commute(a, s_zero::<T>()));
            assert(zero_is_neutral(a));
        }
        lemma_total_split(f, 0, j + 1, g);
        lemma_total_zero(f, j + 1, g);
        assert(sums_commute(rc[i - j], s_zero::<T>()));
        assert(zero_is_neutral(rc[i - j]));
    }
}

/// The same for any two rows.
proof fn lemma_factor_gives_matrix_any<T: PrcFmt>(rc: Seq<T>, bw: int, g: int, i: int, j: int)
    requires
        is_exact::<T>(),
        factorizes(rc, bw, g),
        0 <= bw,
        0 <= j < g,
        0 <= i < g,
    ensures
        total(row_product(rc, bw, i, j), 0, g) == matrix_entry(rc, bw, i, j),
{
    if j <= i {
        lemma_factor_gives_matrix(rc, bw, g, i, j);
    } else {
        lemma_factor_gives_matrix(rc, bw, g, j, i);
        let f = row_product(rc, bw, i, j);
        let h = row_product(rc, bw, j, i);
        assert forall|c: int| 0 <= c < g implies #[trigger] f(c) == h(c) by {
            assert(products_commute(factor_entry(rc, bw, i, c), factor_entry(rc, bw, j, c)));
        }
        lemma_total_same(f, h, 0, g);
    }
}

// ------------------------------- Substitution -------------------------------

/// Row `i` of the factor times the solution of the forward substitution.
pub open spec fn forward_product<T: PrcFmt>(
    rc: Seq<T>,
    bw: int,
    rhs: Seq<T>,
    i: int,
) -> spec_fn(int) -> T {
    |c: int| factor_entry(rc, bw, i, c).s_mul(forward(rc, bw, rhs, c))
}

proof fn lemma_forward_sum<T: PrcFmt>(rc: Seq<T>, bw: int, rhs: Seq<T>, i: int, d: int)
    requires
        is_exact::<T>(),
        0 <= d <= i,
        d <= bw,
    ensures
        forward_sum(rc, bw, rhs, i, d).s_add(
            total(forward_product(rc, bw, rhs, i), i - d, i),
        ) == rhs[i],
    decreases d,
{
    let f = forward_product(rc, bw, rhs, i);
    if d == 0 {
        assert(sums_commute(rhs[i], s_zero::<T>()));
        assert(zero_is_neutral(rhs[i]));
    } else {
        lemma_forward_sum(rc, bw, rhs, i, d - 1);
        let before = forward_sum(rc, bw, rhs, i, d - 1);
        let t = chol(rc, bw, i, i - d).s_mul(forward(rc, bw, rhs, i - d));
        let rest = total(f, i - d + 1, i);
        assert(f(i - d) == t);
        lemma_total_split(f, i - d, i - d + 1, i);
        assert(total(f, i - d, i - d) == s_zero::<T>());
        assert(zero_is_neutral(t));
        assert(total(f, i - d, i - d + 1) == t);
        assert(sums_associate(before.s_sub(t), t, rest));
        assert(difference_cancels(before, t));
    }
}

/// Forward substitution solves the system of the factor.
proof fn lemma_forward_solves<T: PrcFmt>(rc: Seq<T>, bw: int, g: int, rhs: Seq<T>, i: int)
    requires
        is_exact::<T>(),
        factorizes(rc, bw, g),
        0 <= bw,
        0 <= i < g,
    ensures
        total(forward_product(rc, bw, rhs, i), 0, g) == rhs[i],
{
    let f = forward_product(rc, bw, rhs, i);
    let d = min_int(bw, i);
    let s = forward_sum(rc, bw, rhs, i, d);
    lemma_forward_sum(rc, bw, rhs, i, d);
    lemma_diagonal(rc, bw, g, i);
    let pivot = chol(rc, bw, i, i);
    assert(f(i) == s) by {
        assert(quotient_cancels(s, pivot));
        assert(products_commute(pivot, forward(rc, bw, rhs, i)));
    }
    assert forall|c: int| 0 <= c < i - d implies #[trigger] f(c) == s_zero::<T>() by {
        assert(zero_is_neutral(forward(rc, bw, rhs, c)));
    }
    assert forall|c: int| i + 1 <= c < g implies #[trigger] f(c) == s_zero::<T>() by {
        assert(zero_is_neutral(forward(rc, bw, rhs, c)));
    }
    let mid = total(f, i - d, i);
    lemma_total_zero(f, 0, i - d);
    lemma_total_split(f, 0, i - d, i);
    assert(zero_is_neutral(mid));
    assert(total(f, 0, i) == mid);
    assert(sums_commute(s, mid));
    assert(total(f, 0, i + 1) == rhs[i]);
    lemma_total_zero(f, i + 1, g);
    lemma_total_split(f, 0, i + 1, g);
    assert(sums_commute(rhs[i], s_zero::<T>()));
    assert(zero_is_neutral(rhs[i]));
}

/// Column `i` of the factor times the solution.
pub open spec fn back_product<T: PrcFmt>(
    rc: Seq<T>,
    bw: int,
    g: int,
    rhs: Seq<T>,
    i: int,
) -> spec_fn(int) -> T {
    |l: int| factor_entry(rc, bw, l, i).s_mul(solution(rc, bw, g, rhs, l))
}

proof fn lemma_back_sum<T: PrcFmt>(rc: Seq<T>, bw: int, g: int, rhs: Seq<T>, i: int, l: int)
    requires
        is_exact::<T>(),
        0 <= i <= l < g,
        l - i <= bw,
    ensures
        back_sum(rc, bw, g, rhs, i, l).s_add(
            total(back_product(rc, bw, g, rhs, i), i + 1, l + 1),
        ) == forward(rc, bw, rhs, i),
    decreases l,
{
    let f = back_product(rc, bw, g, rhs, i);
    let y = forward(rc, bw, rhs, i);
    if l == i {
        assert(sums_commute(y, s_zero::<T>()));
        assert(zero_is_neutral(y));
    } else {
        lemma_back_sum(rc, bw, g, rhs, i, l - 1);
        let before = back_sum(rc, bw, g, rhs, i, l - 1);
        let t = chol(rc, bw, l, i).s_mul(solution(rc, bw, g, rhs, l));
        let rest = total(f, i + 1, l);
        assert(f(l) == t);
        assert(sums_commute(rest, t));
        assert(sums_associate(before.s_sub(t), t, rest));
        assert(difference_cancels(before, t));
    }
}

/// Back substitution solves the system of the transposed factor.
proof fn lemma_back_solves<T: PrcFmt>(rc: Seq<T>, bw: int, g: int, rhs: Seq<T>, i: int)
    requires
        is_exact::<T>(),
        factorizes(rc, bw, g),
        0 <= bw,
        0 <= i < g,
    ensures
        total(back_product(rc, bw, g, rhs, i), 0, g) == forward(rc, bw, rhs, i),
{
    let f = back_product(rc, bw, g, rhs, i);
    let y = forward(rc, bw, rhs, i);
    let l = min_int(i + bw, g - 1);
    let s = back_sum(rc, bw, g, rhs, i, l);
    lemma_back_sum(rc, bw, g, rhs, i, l);
    lemma_diagonal(rc, bw, g, i);
    let pivot = chol(rc, bw, i, i);
    assert(f(i) == s) by {
        assert(quotient_cancels(s, pivot));
        assert(products_commute(pivot, solution(rc, bw, g, rhs, i)));
    }
    assert forall|c: int| 0 <= c < i implies #[trigger] f(c) == s_zero::<T>() by {
        assert(zero_is_neutral(solution(rc, bw, g, rhs, c)));
    }
    assert forall|c: int| l + 1 <= c < g implies #[trigger] f(c) == s_zero::<T>() by {
        assert(zero_is_neutral(solution(rc, bw, g, rhs, c)));
    }
    lemma_total_zero(f, 0, i);
    assert(zero_is_neutral(s));
    assert(total(f, 0, i + 1) == s);
    lemma_total_split(f, 0, i + 1, l + 1);
    assert(total(f, 0, l + 1) == y);
    lemma_total_zero(f, l + 1, g);
    lemma_total_split(f, 0, l + 1, g);
    assert(sums_commute(y, s_zero::<T>()));
    assert(zero_is_neutral(y));
}

// ------------------------------- Laws -------------------------------

/// Row `i` of the matrix times the solution, column by column.
pub open spec fn matrix_product<T: PrcFmt>(
    rc: Seq<T>,
    bw: int,
    g: int,
    rhs: Seq<T>,
    i: int,
) -> spec_fn(int) -> T {
    |j: int| matrix_entry(rc, bw, i, j).s_mul(solution(rc, bw, g, rhs, j))
}

/// The solution solves the system: where arithmetic is exact and the matrix factors, the matrix
/// times the solution is the right-hand side.
pub proof fn lemma_solution_solves_the_system<T: PrcFmt>(
    rc: Seq<T>,
    bw: int,
    g: int,
    rhs: Seq<T>,
    i: int,
)
    requires
        is_exact::<T>(),
        factorizes(rc, bw, g),
        0 <= bw,
        0 <= i < g,
    ensures
        total(matrix_product(rc, bw, g, rhs, i), 0, g) == rhs[i],
{
    // The products of row i of the factor, column c, with row j and component j of the solution.
    let f = |c: int, j: int|
        factor_entry(rc, bw, i, c).s_mul(
            factor_entry(rc, bw, j, c).s_mul(solution(rc, bw, g, rhs, j)),
        );
    let by_column = |c: int| total(|j: int| f(c, j), 0, g);
    let by_row = |j: int| total(|c: int| f(c, j), 0, g);
    lemma_total_swap(f, g, g);
    assert(total(by_column, 0, g) == total(by_row, 0, g));
    // Column by column it is the forward substitution.
    let forwards = forward_product(rc, bw, rhs, i);
    assert forall|c: int| 0 <= c < g implies #[trigger] by_column(c) == forwards(c) by {
        let k = factor_entry(rc, bw, i, c);
        let backs = back_product(rc, bw, g, rhs, c);
        let scaled = |j: int| k.s_mul(backs(j));
        lemma_back_solves(rc, bw, g, rhs, c);
        lemma_total_scale(k, backs, 0, g);
        let here = |j: int| f(c, j);
        assert forall|j: int| 0 <= j < g implies #[trigger] here(j) == scaled(j) by {}
        lemma_total_same(here, scaled, 0, g);
        assert(by_column(c) == total(here, 0, g));
    }
    lemma_total_same(by_column, forwards, 0, g);
    lemma_forward_solves(rc, bw, g, rhs, i);
    // Row by row it is the matrix times the solution.
    let rows = matrix_product(rc, bw, g, rhs, i);
    assert forall|j: int| 0 <= j < g implies #[trigger] by_row(j) == rows(j) by {
        let x = solution(rc, bw, g, rhs, j);
        let products = row_product(rc, bw, i, j);
        let scaled = |c: int| x.s_mul(products(c));
        lemma_total_scale(x, products, 0, g);
        lemma_factor_gives_matrix_any(rc, bw, g, i, j);
        let here = |c: int| f(c, j);
        assert forall|c: int| 0 <= c < g implies #[trigger] here(c) == scaled(c) by {
            let a = factor_entry(rc, bw, i, c);
            let b = factor_entry(rc, bw, j, c);
            assert(products_distribute(a, b, x));
            assert(products_commute(a.s_mul(b), x));
        }
        lemma_total_same(here, scaled, 0, g);
        assert(products_commute(x, matrix_entry(rc, bw, i, j)));
        assert(by_row(j) == total(here, 0, g));
    }
    lemma_total_same(by_row, rows, 0, g);
}

/// The solved gap meets the normal equations: where arithmetic is exact and the matrix factors, the
/// residual energy of the model has no slope in any missing sample. For each of them the weighted
/// sum over the gap and the weighted sum over the known neighbours cancel.
pub proof fn lemma_gap_meets_the_normal_equations<T: PrcFmt>(
    buf: Seq<T>,
    gs: int,
    ge: int,
    order: int,
    rc: Seq<T>,
    i: int,
)
    requires
        is_exact::<T>(),
        factorizes(rc, order, ge - gs),
        0 <= order,
        0 <= i < ge - gs,
    ensures
        total(
            |j: int|
                matrix_entry(rc, order, i, j).s_mul(gap_solution(buf, gs, ge, order, rc)[j]),
            0,
            ge - gs,
        ).s_add(known_sum(buf, gs, ge, rc, i, order)) == s_zero::<T>(),
{
    let g = ge - gs;
    let rhs = gap_rhs(buf, gs, ge, order, rc);
    let x = gap_solution(buf, gs, ge, order, rc);
    let known = known_sum(buf, gs, ge, rc, i, order);
    let rows = matrix_product(rc, order, g, rhs, i);
    let here = |j: int| matrix_entry(rc, order, i, j).s_mul(x[j]);
    lemma_solution_solves_the_system(rc, order, g, rhs, i);
    assert forall|j: int| 0 <= j < g implies #[trigger] here(j) == rows(j) by {
        assert(x[j] == solution(rc, order, g, rhs, j));
    }
    lemma_total_same(here, rows, 0, g);
    assert(rhs[i] == known.s_neg());
    assert(difference_cancels(known, known));
}

} // verus!
