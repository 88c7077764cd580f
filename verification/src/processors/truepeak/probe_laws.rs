//! What the probe measures: on which samples, and how closely.

use crate::arith::{copies, pushed, s_zero};
use crate::fixed::{magnitude, Fixed, LIMIT, ONE};
use crate::prcfmt::PrcFmt;
use crate::processors::truepeak::branches::{
    in_range, lemma_doubled_in_range, lemma_odd_phase_passes, lemma_peak_of_covers,
    lemma_weight_is_not_negative, stage_gain, weight, ODD_DELAY,
};
use crate::processors::truepeak::probe::{
    dot, doubled, line2_after, peak_of, peak_with, probe_branch,
};
use vstd::prelude::*;

verus! {

/// The delay lines of one channel after a sequence of samples.
pub open spec fn lines_after<T: PrcFmt>(lines: (Seq<T>, Seq<T>), samples: Seq<T>) -> (
    Seq<T>,
    Seq<T>,
)
    decreases samples.len(),
{
    if samples.len() == 0 {
        lines
    } else {
        let before = lines_after(lines, samples.drop_last());
        let line1 = pushed(before.0, samples.last());
        (line1, line2_after(line1, before.1))
    }
}

/// What the probe measures with the last of a sequence of samples on one channel.
pub open spec fn last_peak<T: PrcFmt>(lines: (Seq<T>, Seq<T>), samples: Seq<T>) -> T {
    let before = lines_after(lines, samples.drop_last());
    peak_of(pushed(before.0, samples.last()), before.1)
}

// ------------------------------- Channels -------------------------------

/// The delay lines of all channels after a sequence of samples, each for one of the channels.
pub open spec fn channels_after<T: PrcFmt>(
    lines: Seq<(Seq<T>, Seq<T>)>,
    samples: Seq<(int, T)>,
) -> Seq<(Seq<T>, Seq<T>)>
    decreases samples.len(),
{
    if samples.len() == 0 {
        lines
    } else {
        let before = channels_after(lines, samples.drop_last());
        let ch = samples.last().0;
        let line1 = pushed(before[ch].0, samples.last().1);
        before.update(ch, (line1, line2_after(line1, before[ch].1)))
    }
}

/// The samples for one of the channels.
pub open spec fn for_channel<T>(samples: Seq<(int, T)>, ch: int) -> Seq<T>
    decreases samples.len(),
{
    if samples.len() == 0 {
        Seq::empty()
    } else if samples.last().0 == ch {
        for_channel(samples.drop_last(), ch).push(samples.last().1)
    } else {
        for_channel(samples.drop_last(), ch)
    }
}

/// The channels are measured apart: what the probe holds for a channel, and so what it measures on
/// it, depends on the samples of that channel alone.
pub proof fn lemma_channels_are_independent<T: PrcFmt>(
    lines: Seq<(Seq<T>, Seq<T>)>,
    samples: Seq<(int, T)>,
    ch: int,
)
    requires
        0 <= ch < lines.len(),
        forall|i: int| 0 <= i < samples.len() ==> 0 <= (#[trigger] samples[i]).0 < lines.len(),
    ensures
        channels_after(lines, samples).len() == lines.len(),
        channels_after(lines, samples)[ch] == lines_after(lines[ch], for_channel(samples, ch)),
    decreases samples.len(),
{
    if samples.len() > 0 {
        let first = samples.drop_last();
        assert forall|i: int| 0 <= i < first.len() implies 0 <= (#[trigger] first[i]).0
            < lines.len() by {
            assert(first[i] == samples[i]);
        }
        lemma_channels_are_independent(lines, first, ch);
        let own = for_channel(first, ch);
        assert(0 <= samples[samples.len() - 1].0 < lines.len());
        if samples.last().0 == ch {
            assert(own.push(samples.last().1).drop_last() =~= own);
        }
    }
}

// ------------------------------- Sign -------------------------------

/// A line with every sample negated.
pub open spec fn flipped(line: Seq<Fixed>) -> Seq<Fixed> {
    Seq::new(line.len(), |k: int| line[k].s_neg())
}

proof fn lemma_dot_flips(coeffs: Seq<Fixed>, line: Seq<Fixed>, n: int)
    requires
        0 <= n <= line.len(),
        in_range(line),
    ensures
        dot(coeffs, flipped(line), n) == dot(coeffs, line, n).s_neg(),
        -LIMIT <= dot(coeffs, line, n).raw,
    decreases n,
{
    if n > 0 {
        lemma_dot_flips(coeffs, line, n - 1);
        let c = coeffs[n - 1];
        let v = line[n - 1];
        assert(-LIMIT <= v.raw);
        assert(flipped(line)[n - 1] == v.s_neg());
        let m = magnitude(c.raw as int);
        assert(m * 0 == 0) by (nonlinear_arith);
        assert(c.s_mul(v.s_neg()) == c.s_mul(v).s_neg());
    }
}

proof fn lemma_doubled_flips(line: Seq<Fixed>)
    requires
        line.len() == 16,
        in_range(line),
    ensures
        doubled(flipped(line)).0 == doubled(line).0.s_neg(),
        doubled(flipped(line)).1 == doubled(line).1.s_neg(),
{
    lemma_dot_flips(probe_branch::<Fixed>(0), line, 16);
    lemma_dot_flips(probe_branch::<Fixed>(1), line, 16);
}

proof fn lemma_pushed_flips(line: Seq<Fixed>, v: Fixed)
    requires
        in_range(line),
        -LIMIT <= v.raw,
    ensures
        pushed(flipped(line), v.s_neg()) == flipped(pushed(line, v)),
        in_range(pushed(line, v)),
{
    assert(pushed(flipped(line), v.s_neg()) =~= flipped(pushed(line, v)));
    let next = pushed(line, v);
    assert forall|k: int| 0 <= k < next.len() implies -LIMIT <= (#[trigger] next[k]).raw by {
        if k > 0 {
            assert(next[k] == line[k - 1]);
        }
    }
}

/// The magnitude of a negated value.
proof fn lemma_peak_with_flips(peak: Fixed, v: Fixed)
    requires
        -LIMIT <= v.raw,
    ensures
        peak_with(peak, v.s_neg()) == peak_with(peak, v),
{
}

/// One step of the probe on negated lines: the second line is negated, the peak is the same.
#[verifier::rlimit(30)]
proof fn lemma_probe_flips(line1: Seq<Fixed>, line2: Seq<Fixed>)
    requires
        line1.len() == 16,
        line2.len() == 16,
        in_range(line1),
        in_range(line2),
    ensures
        line2_after(flipped(line1), flipped(line2)) == flipped(line2_after(line1, line2)),
        in_range(line2_after(line1, line2)),
        peak_of(flipped(line1), flipped(line2)) == peak_of(line1, line2),
{
    lemma_doubled_flips(line1);
    lemma_doubled_in_range(line1);
    let mid = pushed(line2, doubled(line1).0);
    lemma_pushed_flips(line2, doubled(line1).0);
    lemma_pushed_flips(mid, doubled(line1).1);
    let l2 = line2_after(line1, line2);
    assert(line2_after(flipped(line1), flipped(line2)) == flipped(l2));
    lemma_doubled_flips(mid);
    lemma_doubled_flips(l2);
    lemma_doubled_in_range(mid);
    lemma_doubled_in_range(l2);
    let first = doubled(mid);
    let second = doubled(l2);
    let p0 = peak_with(s_zero(), first.0);
    let p1 = peak_with(p0, first.1);
    let p2 = peak_with(p1, second.0);
    lemma_peak_with_flips(s_zero(), first.0);
    lemma_peak_with_flips(p0, first.1);
    lemma_peak_with_flips(p1, second.0);
    lemma_peak_with_flips(p2, second.1);
    assert(peak_of(line1, line2) == peak_with(p2, second.1));
}

proof fn lemma_lines_flip(lines: (Seq<Fixed>, Seq<Fixed>), samples: Seq<Fixed>)
    requires
        lines.0.len() == 16,
        lines.1.len() == 16,
        in_range(lines.0),
        in_range(lines.1),
        in_range(samples),
    ensures
        ({
            let after = lines_after(lines, samples);
            &&& after.0.len() == 16 && after.1.len() == 16
            &&& in_range(after.0) && in_range(after.1)
            &&& lines_after((flipped(lines.0), flipped(lines.1)), flipped(samples)) == (
                flipped(after.0),
                flipped(after.1),
            )
        }),
    decreases samples.len(),
{
    if samples.len() > 0 {
        let first = samples.drop_last();
        assert forall|k: int| 0 <= k < first.len() implies -LIMIT <= (#[trigger] first[k]).raw by {
            assert(first[k] == samples[k]);
        }
        lemma_lines_flip(lines, first);
        assert(flipped(samples).drop_last() =~= flipped(first));
        let before = lines_after(lines, first);
        assert(-LIMIT <= samples[samples.len() - 1].raw);
        lemma_pushed_flips(before.0, samples.last());
        lemma_probe_flips(pushed(before.0, samples.last()), before.1);
    }
}

/// The peak does not depend on the sign: negating everything that a channel is given changes none
/// of the peaks that are measured on it.
pub proof fn lemma_sign_does_not_matter(
    lines: (Seq<Fixed>, Seq<Fixed>),
    samples: Seq<Fixed>,
)
    requires
        lines.0.len() == 16,
        lines.1.len() == 16,
        in_range(lines.0),
        in_range(lines.1),
        in_range(samples),
        samples.len() > 0,
    ensures
        last_peak((flipped(lines.0), flipped(lines.1)), flipped(samples)) == last_peak(
            lines,
            samples,
        ),
        0 <= last_peak(lines, samples).raw,
{
    let first = samples.drop_last();
    assert forall|k: int| 0 <= k < first.len() implies -LIMIT <= (#[trigger] first[k]).raw by {
        assert(first[k] == samples[k]);
    }
    lemma_lines_flip(lines, first);
    assert(flipped(samples).drop_last() =~= flipped(first));
    let before = lines_after(lines, first);
    assert(-LIMIT <= samples[samples.len() - 1].raw);
    lemma_pushed_flips(before.0, samples.last());
    lemma_probe_flips(pushed(before.0, samples.last()), before.1);
    lemma_peak_of_covers(pushed(before.0, samples.last()), before.1);
}

// ------------------------------- Unity gain -------------------------------

/// The first `n` coefficients added up, in units of the last place.
pub open spec fn total(coeffs: Seq<Fixed>, n: int) -> int
    decreases n,
{
    if n <= 0 {
        0
    } else {
        total(coeffs, n - 1) + coeffs[n - 1].raw
    }
}

/// How far the gain of the even branch at zero frequency is from one.
pub open spec fn even_error() -> int {
    magnitude(total(probe_branch::<Fixed>(0), 16) - ONE)
}

/// How far an interpolation stage can be from the value of samples that are within `e` of it.
pub open spec fn stage_error(v: Fixed, e: int) -> int {
    (stage_gain() * e + magnitude(v.raw as int) * even_error()) / (ONE as int) + 17
}

/// How far the probe can be from the magnitude of a constant.
pub open spec fn probe_error(v: Fixed) -> int {
    stage_error(v, stage_error(v, 0))
}

/// Whether every sample of `line` is within `e` of `v`.
pub open spec fn all_near(line: Seq<Fixed>, v: Fixed, e: int) -> bool {
    forall|k: int| 0 <= k < line.len() ==> magnitude((#[trigger] line[k]).raw - v.raw) <= e
}

/// A product is that of the magnitudes, with the sign of both.
proof fn lemma_signed_product(a: int, b: int)
    ensures
        0 <= magnitude(a) * magnitude(b),
        a * b == if (a < 0) != (b < 0) {
            -(magnitude(a) * magnitude(b))
        } else {
            magnitude(a) * magnitude(b)
        },
{
    let m = magnitude(a);
    let n = magnitude(b);
    assert(0 <= m * n) by (nonlinear_arith)
        requires
            0 <= m,
            0 <= n,
    ;
    assert((-a) * b == -(a * b)) by (nonlinear_arith);
    assert(a * (-b) == -(a * b)) by (nonlinear_arith);
    assert((-a) * (-b) == a * b) by (nonlinear_arith);
}

/// Products with values that lie within `e` of each other.
proof fn lemma_scaled_gap(a: int, x: int, v: int, e: int)
    requires
        magnitude(x - v) <= e,
    ensures
        -(magnitude(a) * e) <= a * x - a * v <= magnitude(a) * e,
{
    let m = magnitude(a);
    let d = x - v;
    lemma_signed_product(a, d);
    assert(a * d == a * x - a * v) by (nonlinear_arith)
        requires
            d == x - v,
    ;
    let n = magnitude(d);
    assert(m * n <= m * e) by (nonlinear_arith)
        requires
            0 <= m,
            n <= e,
    ;
}

/// The product of a coefficient and a sample near `v`.
proof fn lemma_product_near(c: Fixed, x: Fixed, v: Fixed, e: int)
    requires
        magnitude(x.raw - v.raw) <= e,
        magnitude(c.raw as int) * magnitude(x.raw as int) <= LIMIT * ONE,
    ensures
        magnitude(c.s_mul(x).raw * ONE - c.raw * v.raw) <= ONE + magnitude(c.raw as int) * e,
        magnitude(c.s_mul(x).raw as int) * ONE <= magnitude(c.raw as int) * magnitude(
            x.raw as int,
        ),
{
    let cm = magnitude(c.raw as int);
    let xm = magnitude(x.raw as int);
    lemma_signed_product(c.raw as int, x.raw as int);
    let m = cm * xm;
    let q = m / (ONE as int);
    assert(0 <= q && q * ONE <= m < q * ONE + ONE && q <= LIMIT);
    let product = c.raw * x.raw;
    assert(magnitude(c.s_mul(x).raw * ONE - product) <= ONE);
    lemma_scaled_gap(c.raw as int, x.raw as int, v.raw as int, e);
}

/// The inner product with samples near `v` is near the sum of the coefficients times `v`.
proof fn lemma_dot_near(
    coeffs: Seq<Fixed>,
    line: Seq<Fixed>,
    n: int,
    v: Fixed,
    e: int,
    bound: int,
)
    requires
        0 <= n <= line.len(),
        0 <= e,
        0 <= bound,
        all_near(line, v, e),
        forall|k: int|
            0 <= k < line.len() ==> magnitude((#[trigger] line[k]).raw as int) <= bound,
        weight(coeffs, n) * bound <= LIMIT * ONE,
    ensures
        magnitude(dot(coeffs, line, n).raw * ONE - total(coeffs, n) * v.raw) <= n * ONE + weight(
            coeffs,
            n,
        ) * e,
        magnitude(dot(coeffs, line, n).raw as int) * ONE <= weight(coeffs, n) * bound,
        0 <= weight(coeffs, n),
    decreases n,
{
    if n > 0 {
        let c = coeffs[n - 1];
        let cm = magnitude(c.raw as int);
        let x = line[n - 1];
        let xm = magnitude(x.raw as int);
        let w = weight(coeffs, n - 1);
        lemma_weight_is_not_negative(coeffs, n - 1);
        assert(w * bound + cm * bound == (w + cm) * bound) by (nonlinear_arith);
        assert(0 <= cm * bound && 0 <= w * bound && cm * xm <= cm * bound) by (nonlinear_arith)
            requires
                0 <= cm,
                0 <= w,
                0 <= xm <= bound,
        ;
        lemma_dot_near(coeffs, line, n - 1, v, e, bound);
        lemma_product_near(c, x, v, e);
        let before = dot(coeffs, line, n - 1);
        let p = c.s_mul(x);
        assert(magnitude(before.raw + p.raw) <= LIMIT) by {
            assert(magnitude(before.raw as int) * ONE + magnitude(p.raw as int) * ONE <= LIMIT
                * ONE);
        }
        assert(dot(coeffs, line, n).raw == before.raw + p.raw);
        let t = total(coeffs, n - 1);
        assert((t + c.raw) * v.raw == t * v.raw + c.raw * v.raw) by (nonlinear_arith);
        assert((w + cm) * e == w * e + cm * e) by (nonlinear_arith);
        assert((before.raw + p.raw) * ONE == before.raw * ONE + p.raw * ONE);
    } else {
        assert(0 * v.raw == 0) by (nonlinear_arith);
    }
}

/// The even phase of an interpolation stage on samples near `v`.
proof fn lemma_even_phase_near(line: Seq<Fixed>, v: Fixed, e: int)
    requires
        line.len() == 16,
        0 <= e,
        all_near(line, v, e),
        stage_gain() * (magnitude(v.raw as int) + e) <= LIMIT * ONE,
    ensures
        magnitude(doubled(line).0.raw - v.raw) <= stage_error(v, e),
{
    let a = probe_branch::<Fixed>(0);
    assert(a.len() == 16);
    let vm = magnitude(v.raw as int);
    let g = stage_gain();
    let w = weight(a, 16);
    let bound = vm + e;
    assert forall|k: int| 0 <= k < line.len() implies magnitude((#[trigger] line[k]).raw as int)
        <= bound by {
        assert(magnitude(line[k].raw - v.raw) <= e);
    }
    lemma_weight_is_not_negative(a, 16);
    assert(w * bound <= g * bound && w * e <= g * e) by (nonlinear_arith)
        requires
            w <= g,
            0 <= bound,
            0 <= e,
    ;
    lemma_dot_near(a, line, 16, v, e, bound);
    let d = dot(a, line, 16).raw as int;
    let t = total(a, 16);
    let gap = t * v.raw - ONE * v.raw;
    let err = even_error();
    lemma_scaled_gap(v.raw as int, t, ONE as int, err);
    assert(t * v.raw == v.raw * t) by (nonlinear_arith);
    assert(-(vm * err) <= gap <= vm * err);
    let top = g * e + vm * err;
    assert(magnitude((d - v.raw) * ONE) <= 16 * ONE + top);
    assert(0 <= top) by (nonlinear_arith)
        requires
            top == g * e + vm * err,
            0 <= g,
            0 <= e,
            0 <= vm,
            0 <= err,
    ;
    assert(magnitude(d - v.raw) <= top / (ONE as int) + 17);
}

/// The lines settle within 24 samples.
proof fn lemma_lines_settle(
    lines: (Seq<Fixed>, Seq<Fixed>),
    before: Seq<Fixed>,
    v: Fixed,
    n: nat,
)
    requires
        lines.0.len() == 16,
        lines.1.len() == 16,
    ensures
        ({
            let after = lines_after(lines, before + copies(n, v));
            let two = doubled(copies(16, v));
            &&& after.0.len() == 16
            &&& after.1.len() == 16
            &&& forall|k: int| 0 <= k < 16 && k < n ==> #[trigger] after.0[k] == v
            &&& forall|k: int|
                0 <= k < 16 && k < 2 * (n - 15) ==> #[trigger] after.1[k] == if k % 2 == 0 {
                    two.1
                } else {
                    two.0
                }
        }),
    decreases before.len() + n,
{
    let samples = before + copies(n, v);
    if n > 0 {
        let less = (n - 1) as nat;
        assert(samples.drop_last() =~= before + copies(less, v));
        lemma_lines_settle(lines, before, v, less);
        let was = lines_after(lines, samples.drop_last());
        let line1 = pushed(was.0, v);
        assert forall|k: int| 0 <= k < 16 && k < n implies #[trigger] line1[k] == v by {
            if k > 0 {
                assert(was.0[k - 1] == v);
            }
        }
        if n >= 16 {
            assert(line1 =~= copies(16, v));
        }
        let after = lines_after(lines, samples);
        let two = doubled(copies(16, v));
        assert forall|k: int| 0 <= k < 16 && k < 2 * (n - 15) implies #[trigger] after.1[k]
            == if k % 2 == 0 {
            two.1
        } else {
            two.0
        } by {
            if k >= 2 {
                assert(after.1[k] == was.1[k - 2]);
            }
        }
    } else if before.len() > 0 {
        assert(samples.drop_last() =~= before.drop_last() + copies(0, v));
        lemma_lines_settle(lines, before.drop_last(), v, 0);
    }
}

/// On a constant the probe measures its magnitude, but for rounding: once 25 samples have had the
/// same value, the peak is not below the magnitude of that value, and above it by at most
/// `probe_error`.
pub proof fn lemma_constant_is_measured(
    lines: (Seq<Fixed>, Seq<Fixed>),
    before: Seq<Fixed>,
    v: Fixed,
    n: nat,
)
    requires
        lines.0.len() == 16,
        lines.1.len() == 16,
        25 <= n,
        -LIMIT <= v.raw,
        stage_gain() * (magnitude(v.raw as int) + probe_error(v)) <= LIMIT * ONE,
    ensures
        magnitude(v.raw as int) <= last_peak(lines, before + copies(n, v)).raw,
        last_peak(lines, before + copies(n, v)).raw <= magnitude(v.raw as int) + probe_error(v),
{
    let samples = before + copies(n, v);
    let less = (n - 1) as nat;
    assert(samples.drop_last() =~= before + copies(less, v));
    lemma_lines_settle(lines, before, v, less);
    lemma_lines_settle(lines, before, v, n);
    let was = lines_after(lines, samples.drop_last());
    let after = lines_after(lines, samples);
    let line1 = pushed(was.0, v);
    let flat = copies(16, v);
    assert(line1 =~= flat);
    let two = doubled(flat);
    assert(in_range(flat));
    lemma_odd_phase_passes(flat);
    lemma_doubled_in_range(flat);
    let g = stage_gain();
    let vm = magnitude(v.raw as int);
    let e1 = stage_error(v, 0);
    let e2 = probe_error(v);
    assert(0 <= e1 <= e2) by {
        let err = even_error();
        let s = vm * err;
        assert(0 <= s) by (nonlinear_arith)
            requires
                s == vm * err,
                0 <= vm,
                0 <= err,
        ;
        assert(g * 0 == 0) by (nonlinear_arith);
        let grown = g * e1;
        assert(ONE * e1 <= grown) by (nonlinear_arith)
            requires
                grown == g * e1,
                ONE <= g,
                0 <= e1,
        ;
        assert(e1 <= (grown + s) / (ONE as int));
    }
    assert(g * (vm + 0) <= g * (vm + e2) && g * (vm + e1) <= g * (vm + e2)) by (nonlinear_arith)
        requires
            0 <= g,
            0 <= e1 <= e2,
    ;
    lemma_even_phase_near(flat, v, 0);
    let mid = pushed(was.1, two.0);
    let l2 = after.1;
    assert(l2 == line2_after(line1, was.1));
    assert forall|k: int| 0 <= k < 16 implies magnitude((#[trigger] mid[k]).raw - v.raw) <= e1
        && -LIMIT <= mid[k].raw by {
        if k > 0 {
            assert(mid[k] == was.1[k - 1]);
        }
    }
    assert forall|k: int| 0 <= k < 16 implies magnitude((#[trigger] l2[k]).raw - v.raw) <= e1
        && -LIMIT <= l2[k].raw by {
    }
    lemma_even_phase_near(mid, v, e1);
    lemma_even_phase_near(l2, v, e1);
    assert(in_range(mid) && in_range(l2));
    lemma_odd_phase_passes(mid);
    lemma_odd_phase_passes(l2);
    assert(mid[ODD_DELAY as int] == was.1[6]);
    lemma_peak_of_covers(line1, was.1);
}

} // verus!
