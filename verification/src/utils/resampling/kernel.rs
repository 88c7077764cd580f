//! Inner products with four running sums, for one channel and for a pair of channels that share
//! the coefficients.

use crate::arith::{min_int, monus, s_zero};
use crate::prcfmt::PrcFmt;
use vstd::prelude::*;

verus! {

/// The running sum of lane `lane` after `m` rounds: every fourth term.
pub open spec fn lane_sum<T: PrcFmt>(terms: Seq<T>, lane: int, m: int) -> T
    decreases m,
{
    if m <= 0 {
        s_zero()
    } else {
        lane_sum(terms, lane, m - 1).s_add(terms[4 * (m - 1) + lane])
    }
}

/// `acc` with the terms from `from` up to `to` added one by one.
pub open spec fn tail_sum<T: PrcFmt>(terms: Seq<T>, from: int, to: int, acc: T) -> T
    decreases to - from,
{
    if to <= from {
        acc
    } else {
        tail_sum(terms, from, to - 1, acc).s_add(terms[to - 1])
    }
}

/// The sum of the terms in the order of the kernels: four lanes over whole groups of four, the
/// lanes added up, then the remaining terms.
pub open spec fn four_lane_sum<T: PrcFmt>(terms: Seq<T>) -> T {
    let m = terms.len() as int / 4;
    tail_sum(
        terms,
        4 * m,
        terms.len() as int,
        lane_sum(terms, 0, m).s_add(lane_sum(terms, 1, m)).s_add(lane_sum(terms, 2, m)).s_add(
            lane_sum(terms, 3, m),
        ),
    )
}

/// The products of an inner product that reads the samples backwards from `n_p`, over the taps
/// `[k_start, k_end)`.
pub open spec fn backward_terms<T: PrcFmt>(
    coeffs: Seq<T>,
    buf: Seq<T>,
    n_p: int,
    k_start: int,
    k_end: int,
) -> Seq<T> {
    Seq::new(
        (k_end - k_start) as nat,
        |i: int| coeffs[k_start + i].s_mul(buf[n_p - (k_start + i)]),
    )
}

/// The products of an inner product that reads both sequences forwards.
pub open spec fn forward_terms<T: PrcFmt>(coeffs: Seq<T>, samples: Seq<T>) -> Seq<T> {
    Seq::new(coeffs.len(), |i: int| coeffs[i].s_mul(samples[i]))
}

/// The tap range `[0, taps)` clipped to the taps whose input sample `n_p - k` lies inside the
/// buffer.
pub open spec fn tap_range(n_p: int, buf_len: int, taps: int) -> (int, int) {
    let k_end = min_int(n_p + 1, taps);
    (min_int(monus(n_p + 1, buf_len), k_end), k_end)
}

/// Clip the tap range `[0, taps)` to the taps whose input sample `n_p - k` lies inside
/// `0..buf_len`.
pub fn valid_tap_range(n_p: usize, buf_len: usize, taps: usize) -> (r: (usize, usize))
    requires
        n_p < usize::MAX,
    ensures
        r.0 == tap_range(n_p as int, buf_len as int, taps as int).0,
        r.1 == tap_range(n_p as int, buf_len as int, taps as int).1,
        forall|k: int|
            r.0 <= k < r.1 <==> 0 <= k < taps && 0 <= #[trigger] (n_p - k) < buf_len,
{
    let k_end: usize = if n_p + 1 < taps {
        n_p + 1
    } else {
        taps
    };
    let k_start: usize = (n_p + 1).saturating_sub(buf_len);
    if k_start < k_end {
        (k_start, k_end)
    } else {
        (k_end, k_end)
    }
}

/// The inner product of `coeffs` with the samples of `buf` that end at `n_p`, read backwards, over
/// the taps `[k_start, k_end)`.
pub fn convolve_backward<T: PrcFmt>(
    coeffs: &[T],
    buf: &[T],
    n_p: usize,
    k_start: usize,
    k_end: usize,
) -> (r: T)
    requires
        k_start <= k_end <= coeffs@.len(),
        k_end <= n_p + 1,
        n_p + 1 <= k_start + buf@.len(),
    ensures
        r == four_lane_sum(
            backward_terms(coeffs@, buf@, n_p as int, k_start as int, k_end as int),
        ),
{
    let ghost terms = backward_terms(coeffs@, buf@, n_p as int, k_start as int, k_end as int);
    let mut k: usize = k_start;
    let mut acc0: T = T::of_int(0);
    let mut acc1: T = T::of_int(0);
    let mut acc2: T = T::of_int(0);
    let mut acc3: T = T::of_int(0);
    let ghost mut m: int = 0;
    while k_end - k > 3
        invariant
            k_start <= k <= k_end <= coeffs@.len(),
            k_end <= n_p + 1,
            n_p + 1 <= k_start + buf@.len(),
            terms == backward_terms(coeffs@, buf@, n_p as int, k_start as int, k_end as int),
            k == k_start + 4 * m,
            m >= 0,
            acc0 == lane_sum(terms, 0, m),
            acc1 == lane_sum(terms, 1, m),
            acc2 == lane_sum(terms, 2, m),
            acc3 == lane_sum(terms, 3, m),
        decreases k_end - k,
    {
        let at: usize = n_p - k;
        acc0 = acc0.plus(coeffs[k].times(buf[at]));
        acc1 = acc1.plus(coeffs[k + 1].times(buf[at - 1]));
        acc2 = acc2.plus(coeffs[k + 2].times(buf[at - 2]));
        acc3 = acc3.plus(coeffs[k + 3].times(buf[at - 3]));
        proof {
            m = m + 1;
            assert(terms[4 * (m - 1) + 0] == coeffs@[k as int].s_mul(buf@[n_p - k]));
            assert(terms[4 * (m - 1) + 1] == coeffs@[k + 1].s_mul(buf@[n_p - k - 1]));
            assert(terms[4 * (m - 1) + 2] == coeffs@[k + 2].s_mul(buf@[n_p - k - 2]));
            assert(terms[4 * (m - 1) + 3] == coeffs@[k + 3].s_mul(buf@[n_p - k - 3]));
        }
        k += 4;
    }
    assert(m == terms.len() as int / 4);
    let ghost lanes = acc0.s_add(acc1).s_add(acc2).s_add(acc3);
    let mut acc: T = acc0.plus(acc1).plus(acc2).plus(acc3);
    while k < k_end
        invariant
            k_start + 4 * m <= k <= k_end <= coeffs@.len(),
            m >= 0,
            k_end <= n_p + 1,
            n_p + 1 <= k_start + buf@.len(),
            terms == backward_terms(coeffs@, buf@, n_p as int, k_start as int, k_end as int),
            acc == tail_sum(terms, 4 * m, k - k_start, lanes),
        decreases k_end - k,
    {
        acc = acc.plus(coeffs[k].times(buf[n_p - k]));
        k += 1;
    }
    acc
}

/// Plain dot product of two equal-length slices, used for the mirrored branches.
pub fn convolve_forward<T: PrcFmt>(coeffs: &[T], samples: &[T]) -> (r: T)
    requires
        coeffs@.len() == samples@.len(),
    ensures
        r == four_lane_sum(forward_terms(coeffs@, samples@)),
{
    let ghost terms = forward_terms(coeffs@, samples@);
    let len: usize = coeffs.len();
    let mut i: usize = 0;
    let mut acc0: T = T::of_int(0);
    let mut acc1: T = T::of_int(0);
    let mut acc2: T = T::of_int(0);
    let mut acc3: T = T::of_int(0);
    let ghost mut m: int = 0;
    while len - i > 3
        invariant
            i <= len,
            len == coeffs@.len(),
            len == samples@.len(),
            terms == forward_terms(coeffs@, samples@),
            i == 4 * m,
            m >= 0,
            acc0 == lane_sum(terms, 0, m),
            acc1 == lane_sum(terms, 1, m),
            acc2 == lane_sum(terms, 2, m),
            acc3 == lane_sum(terms, 3, m),
        decreases len - i,
    {
        acc0 = acc0.plus(coeffs[i].times(samples[i]));
        acc1 = acc1.plus(coeffs[i + 1].times(samples[i + 1]));
        acc2 = acc2.plus(coeffs[i + 2].times(samples[i + 2]));
        acc3 = acc3.plus(coeffs[i + 3].times(samples[i + 3]));
        proof {
            m = m + 1;
            assert(terms[4 * (m - 1) + 0] == coeffs@[i as int].s_mul(samples@[i as int]));
            assert(terms[4 * (m - 1) + 1] == coeffs@[i + 1].s_mul(samples@[i + 1]));
            assert(terms[4 * (m - 1) + 2] == coeffs@[i + 2].s_mul(samples@[i + 2]));
            assert(terms[4 * (m - 1) + 3] == coeffs@[i + 3].s_mul(samples@[i + 3]));
        }
        i += 4;
    }
    assert(m == terms.len() as int / 4);
    let ghost lanes = acc0.s_add(acc1).s_add(acc2).s_add(acc3);
    let mut acc: T = acc0.plus(acc1).plus(acc2).plus(acc3);
    while i < len
        invariant
            4 * m <= i <= len,
            m >= 0,
            len == coeffs@.len(),
            len == samples@.len(),
            terms == forward_terms(coeffs@, samples@),
            acc == tail_sum(terms, 4 * m, i as int, lanes),
        decreases len - i,
    {
        acc = acc.plus(coeffs[i].times(samples[i]));
        i += 1;
    }
    acc
}

/// [`convolve_backward`] for two channels against the same coefficients. The accumulation order
/// per channel is that of the single-channel kernel.
pub fn convolve_backward2<T: PrcFmt>(
    coeffs: &[T],
    buf0: &[T],
    buf1: &[T],
    n_p: usize,
    k_start: usize,
    k_end: usize,
) -> (r: (T, T))
    requires
        k_start <= k_end <= coeffs@.len(),
        k_end <= n_p + 1,
        n_p + 1 <= k_start + buf0@.len(),
        n_p + 1 <= k_start + buf1@.len(),
    ensures
        r.0 == four_lane_sum(
            backward_terms(coeffs@, buf0@, n_p as int, k_start as int, k_end as int),
        ),
        r.1 == four_lane_sum(
            backward_terms(coeffs@, buf1@, n_p as int, k_start as int, k_end as int),
        ),
{
    let ghost ta = backward_terms(coeffs@, buf0@, n_p as int, k_start as int, k_end as int);
    let ghost tb = backward_terms(coeffs@, buf1@, n_p as int, k_start as int, k_end as int);
    let mut k: usize = k_start;
    let mut a0: T = T::of_int(0);
    let mut a1: T = T::of_int(0);
    let mut a2: T = T::of_int(0);
    let mut a3: T = T::of_int(0);
    let mut b0: T = T::of_int(0);
    let mut b1: T = T::of_int(0);
    let mut b2: T = T::of_int(0);
    let mut b3: T = T::of_int(0);
    let ghost mut m: int = 0;
    while k_end - k > 3
        invariant
            k_start <= k <= k_end <= coeffs@.len(),
            k_end <= n_p + 1,
            n_p + 1 <= k_start + buf0@.len(),
            n_p + 1 <= k_start + buf1@.len(),
            ta == backward_terms(coeffs@, buf0@, n_p as int, k_start as int, k_end as int),
            tb == backward_terms(coeffs@, buf1@, n_p as int, k_start as int, k_end as int),
            k == k_start + 4 * m,
            m >= 0,
            a0 == lane_sum(ta, 0, m),
            a1 == lane_sum(ta, 1, m),
            a2 == lane_sum(ta, 2, m),
            a3 == lane_sum(ta, 3, m),
            b0 == lane_sum(tb, 0, m),
            b1 == lane_sum(tb, 1, m),
            b2 == lane_sum(tb, 2, m),
            b3 == lane_sum(tb, 3, m),
        decreases k_end - k,
    {
        let at: usize = n_p - k;
        let c0: T = coeffs[k];
        let c1: T = coeffs[k + 1];
        let c2: T = coeffs[k + 2];
        let c3: T = coeffs[k + 3];
        a0 = a0.plus(c0.times(buf0[at]));
        a1 = a1.plus(c1.times(buf0[at - 1]));
        a2 = a2.plus(c2.times(buf0[at - 2]));
        a3 = a3.plus(c3.times(buf0[at - 3]));
        b0 = b0.plus(c0.times(buf1[at]));
        b1 = b1.plus(c1.times(buf1[at - 1]));
        b2 = b2.plus(c2.times(buf1[at - 2]));
        b3 = b3.plus(c3.times(buf1[at - 3]));
        proof {
            m = m + 1;
            assert(ta[4 * (m - 1) + 0] == c0.s_mul(buf0@[n_p - k]));
            assert(ta[4 * (m - 1) + 1] == c1.s_mul(buf0@[n_p - k - 1]));
            assert(ta[4 * (m - 1) + 2] == c2.s_mul(buf0@[n_p - k - 2]));
            assert(ta[4 * (m - 1) + 3] == c3.s_mul(buf0@[n_p - k - 3]));
            assert(tb[4 * (m - 1) + 0] == c0.s_mul(buf1@[n_p - k]));
            assert(tb[4 * (m - 1) + 1] == c1.s_mul(buf1@[n_p - k - 1]));
            assert(tb[4 * (m - 1) + 2] == c2.s_mul(buf1@[n_p - k - 2]));
            assert(tb[4 * (m - 1) + 3] == c3.s_mul(buf1@[n_p - k - 3]));
        }
        k += 4;
    }
    assert(m == ta.len() as int / 4);
    let ghost lanes_a = a0.s_add(a1).s_add(a2).s_add(a3);
    let ghost lanes_b = b0.s_add(b1).s_add(b2).s_add(b3);
    let mut acc_a: T = a0.plus(a1).plus(a2).plus(a3);
    let mut acc_b: T = b0.plus(b1).plus(b2).plus(b3);
    while k < k_end
        invariant
            k_start + 4 * m <= k <= k_end <= coeffs@.len(),
            m >= 0,
            k_end <= n_p + 1,
            n_p + 1 <= k_start + buf0@.len(),
            n_p + 1 <= k_start + buf1@.len(),
            ta == backward_terms(coeffs@, buf0@, n_p as int, k_start as int, k_end as int),
            tb == backward_terms(coeffs@, buf1@, n_p as int, k_start as int, k_end as int),
            acc_a == tail_sum(ta, 4 * m, k - k_start, lanes_a),
            acc_b == tail_sum(tb, 4 * m, k - k_start, lanes_b),
        decreases k_end - k,
    {
        let c: T = coeffs[k];
        acc_a = acc_a.plus(c.times(buf0[n_p - k]));
        acc_b = acc_b.plus(c.times(buf1[n_p - k]));
        k += 1;
    }
    (acc_a, acc_b)
}

/// [`convolve_forward`] for two channels against the same coefficients.
pub fn convolve_forward2<T: PrcFmt>(coeffs: &[T], samples0: &[T], samples1: &[T]) -> (r: (T, T))
    requires
        coeffs@.len() == samples0@.len(),
        coeffs@.len() == samples1@.len(),
    ensures
        r.0 == four_lane_sum(forward_terms(coeffs@, samples0@)),
        r.1 == four_lane_sum(forward_terms(coeffs@, samples1@)),
{
    let ghost ta = forward_terms(coeffs@, samples0@);
    let ghost tb = forward_terms(coeffs@, samples1@);
    let len: usize = coeffs.len();
    let mut i: usize = 0;
    let mut a0: T = T::of_int(0);
    let mut a1: T = T::of_int(0);
    let mut a2: T = T::of_int(0);
    let mut a3: T = T::of_int(0);
    let mut b0: T = T::of_int(0);
    let mut b1: T = T::of_int(0);
    let mut b2: T = T::of_int(0);
    let mut b3: T = T::of_int(0);
    let ghost mut m: int = 0;
    while len - i > 3
        invariant
            i <= len,
            len == coeffs@.len(),
            len == samples0@.len(),
            len == samples1@.len(),
            ta == forward_terms(coeffs@, samples0@),
            tb == forward_terms(coeffs@, samples1@),
            i == 4 * m,
            m >= 0,
            a0 == lane_sum(ta, 0, m),
            a1 == lane_sum(ta, 1, m),
            a2 == lane_sum(ta, 2, m),
            a3 == lane_sum(ta, 3, m),
            b0 == lane_sum(tb, 0, m),
            b1 == lane_sum(tb, 1, m),
            b2 == lane_sum(tb, 2, m),
            b3 == lane_sum(tb, 3, m),
        decreases len - i,
    {
        let c0: T = coeffs[i];
        let c1: T = coeffs[i + 1];
        let c2: T = coeffs[i + 2];
        let c3: T = coeffs[i + 3];
        a0 = a0.plus(c0.times(samples0[i]));
        a1 = a1.plus(c1.times(samples0[i + 1]));
        a2 = a2.plus(c2.times(samples0[i + 2]));
        a3 = a3.plus(c3.times(samples0[i + 3]));
        b0 = b0.plus(c0.times(samples1[i]));
        b1 = b1.plus(c1.times(samples1[i + 1]));
        b2 = b2.plus(c2.times(samples1[i + 2]));
        b3 = b3.plus(c3.times(samples1[i + 3]));
        proof {
            m = m + 1;
            assert(ta[4 * (m - 1) + 0] == c0.s_mul(samples0@[i as int]));
            assert(ta[4 * (m - 1) + 1] == c1.s_mul(samples0@[i + 1]));
            assert(ta[4 * (m - 1) + 2] == c2.s_mul(samples0@[i + 2]));
            assert(ta[4 * (m - 1) + 3] == c3.s_mul(samples0@[i + 3]));
            assert(tb[4 * (m - 1) + 0] == c0.s_mul(samples1@[i as int]));
            assert(tb[4 * (m - 1) + 1] == c1.s_mul(samples1@[i + 1]));
            assert(tb[4 * (m - 1) + 2] == c2.s_mul(samples1@[i + 2]));
            assert(tb[4 * (m - 1) + 3] == c3.s_mul(samples1@[i + 3]));
        }
        i += 4;
    }
    assert(m == ta.len() as int / 4);
    let ghost lanes_a = a0.s_add(a1).s_add(a2).s_add(a3);
    let ghost lanes_b = b0.s_add(b1).s_add(b2).s_add(b3);
    let mut acc_a: T = a0.plus(a1).plus(a2).plus(a3);
    let mut acc_b: T = b0.plus(b1).plus(b2).plus(b3);
    while i < len
        invariant
            4 * m <= i <= len,
            m >= 0,
            len == coeffs@.len(),
            len == samples0@.len(),
            len == samples1@.len(),
            ta == forward_terms(coeffs@, samples0@),
            tb == forward_terms(coeffs@, samples1@),
            acc_a == tail_sum(ta, 4 * m, i as int, lanes_a),
            acc_b == tail_sum(tb, 4 * m, i as int, lanes_b),
        decreases len - i,
    {
        let c: T = coeffs[i];
        acc_a = acc_a.plus(c.times(samples0[i]));
        acc_b = acc_b.plus(c.times(samples1[i]));
        i += 1;
    }
    (acc_a, acc_b)
}

} // verus!
