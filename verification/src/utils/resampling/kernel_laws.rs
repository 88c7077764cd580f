//! What the kernels sum where arithmetic is exact.

use crate::arith::s_zero;
use crate::exact::{is_exact, lemma_total_same, lemma_total_split, sums_associate, total};
use crate::prcfmt::PrcFmt;
use crate::reals::{lemma_add_zero, lemma_pairs};
use crate::utils::resampling::kernel::{
    backward_terms, forward_terms, four_lane_sum, lane_sum, tail_sum,
};
use vstd::prelude::*;

verus! {

/// The lanes together hold every term of the whole groups of four, once.
proof fn lemma_lanes_hold_all<T: PrcFmt>(terms: Seq<T>, m: int)
    requires
        is_exact::<T>(),
        0 <= m,
    ensures
        lane_sum(terms, 0, m).s_add(lane_sum(terms, 1, m)).s_add(lane_sum(terms, 2, m)).s_add(
            lane_sum(terms, 3, m),
        ) == total(|i: int| terms[i], 0, 4 * m),
    decreases m,
{
    let f = |i: int| terms[i];
    if m > 0 {
        lemma_lanes_hold_all(terms, m - 1);
        let k = 4 * (m - 1);
        let (a, b) = (lane_sum(terms, 0, m - 1), lane_sum(terms, 1, m - 1));
        let (c, d) = (lane_sum(terms, 2, m - 1), lane_sum(terms, 3, m - 1));
        let (w, x) = (terms[k], terms[k + 1]);
        let (y, z) = (terms[k + 2], terms[k + 3]);
        lemma_pairs(a, w, b, x);
        lemma_pairs(a.s_add(b), w.s_add(x), c, y);
        lemma_pairs(a.s_add(b).s_add(c), w.s_add(x).s_add(y), d, z);
        let before = a.s_add(b).s_add(c).s_add(d);
        assert(before == total(f, 0, k));
        assert(total(f, 0, k + 1) == before.s_add(w));
        assert(total(f, 0, k + 2) == before.s_add(w).s_add(x));
        assert(total(f, 0, k + 3) == before.s_add(w).s_add(x).s_add(y));
        assert(total(f, 0, k + 4) == before.s_add(w).s_add(x).s_add(y).s_add(z));
        assert(sums_associate(before, w, x));
        assert(sums_associate(before, w.s_add(x), y));
        assert(sums_associate(before, w.s_add(x).s_add(y), z));
    } else {
        lemma_add_zero(s_zero::<T>());
    }
}

proof fn lemma_tail_is_added<T: PrcFmt>(terms: Seq<T>, from: int, to: int, acc: T)
    requires
        is_exact::<T>(),
        from <= to,
    ensures
        tail_sum(terms, from, to, acc) == acc.s_add(total(|i: int| terms[i], from, to)),
    decreases to - from,
{
    let f = |i: int| terms[i];
    if from < to {
        lemma_tail_is_added(terms, from, to - 1, acc);
        assert(sums_associate(acc, total(f, from, to - 1), terms[to - 1]));
    } else {
        lemma_add_zero(acc);
    }
}

/// Four lanes and a tail add up every term once: the sum is the plain one, whatever the number of
/// terms.
pub proof fn lemma_lanes_are_a_sum<T: PrcFmt>(terms: Seq<T>)
    requires
        is_exact::<T>(),
    ensures
        four_lane_sum(terms) == total(|i: int| terms[i], 0, terms.len() as int),
{
    let n = terms.len() as int;
    let m = n / 4;
    lemma_lanes_hold_all(terms, m);
    lemma_tail_is_added(
        terms,
        4 * m,
        n,
        lane_sum(terms, 0, m).s_add(lane_sum(terms, 1, m)).s_add(lane_sum(terms, 2, m)).s_add(
            lane_sum(terms, 3, m),
        ),
    );
    lemma_total_split(|i: int| terms[i], 0, 4 * m, n);
}

/// Read backwards, a filter weights the sample `k` before the newest with its `k`-th coefficient;
/// read forwards, it weights sample `k` with it.
pub proof fn lemma_kernels_convolve<T: PrcFmt>(coeffs: Seq<T>, buf: Seq<T>, n_p: int)
    requires
        is_exact::<T>(),
    ensures
        four_lane_sum(backward_terms(coeffs, buf, n_p, 0, coeffs.len() as int)) == total(
            |k: int| coeffs[k].s_mul(buf[n_p - k]),
            0,
            coeffs.len() as int,
        ),
        four_lane_sum(forward_terms(coeffs, buf)) == total(
            |k: int| coeffs[k].s_mul(buf[k]),
            0,
            coeffs.len() as int,
        ),
{
    let n = coeffs.len() as int;
    let back = backward_terms(coeffs, buf, n_p, 0, n);
    let ahead = forward_terms(coeffs, buf);
    lemma_lanes_are_a_sum(back);
    lemma_lanes_are_a_sum(ahead);
    lemma_total_same(
        |i: int| back[i],
        |k: int| coeffs[k].s_mul(buf[n_p - k]),
        0,
        n,
    );
    lemma_total_same(|i: int| ahead[i], |k: int| coeffs[k].s_mul(buf[k]), 0, n);
}

} // verus!
