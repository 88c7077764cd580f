//! What the halfband stages compute where arithmetic is exact: convolutions with the filter, of the
//! signal with zeros between its samples on the way up, and of every second sample on the way down.

use crate::arith::{pushed, s_zero};
use crate::exact::{equals_are_equal, is_exact, lemma_total_same, total};
use crate::filters::tubestage::halfband::{
    down_line, down_wave, fir, stage_coeffs, up_line, up_wave,
};
use crate::prcfmt::PrcFmt;
use crate::reals::{lemma_add_zero, lemma_mul_units};
use vstd::prelude::*;

verus! {

/// A filter that leaves out the products with coefficients that are zero computes the inner
/// product.
pub proof fn lemma_fir_is_an_inner_product<T: PrcFmt>(coeffs: Seq<T>, line: Seq<T>, n: int)
    requires
        is_exact::<T>(),
        0 <= n,
    ensures
        fir(coeffs, line, n) == total(|k: int| coeffs[k].s_mul(line[k]), 0, n),
    decreases n,
{
    if n > 0 {
        lemma_fir_is_an_inner_product(coeffs, line, n - 1);
        let c = coeffs[n - 1];
        assert(equals_are_equal(c, s_zero::<T>()));
        lemma_mul_units(line[n - 1]);
        lemma_add_zero(fir(coeffs, line, n - 1));
    }
}

/// Sample `i` of the signal at twice the rate: the input at even positions and zero between, behind
/// what the delay line holds.
pub open spec fn stuffed<T: PrcFmt>(line: Seq<T>, input: Seq<T>, i: int) -> T {
    if i < 0 {
        line[-1 - i]
    } else if i % 2 == 0 {
        input[i / 2]
    } else {
        s_zero()
    }
}

proof fn lemma_up_line_at<T: PrcFmt>(line: Seq<T>, input: Seq<T>, n: int, k: int)
    requires
        0 <= n <= input.len(),
        0 <= k < line.len(),
    ensures
        up_line(line, input, n).len() == line.len(),
        up_line(line, input, n)[k] == stuffed(line, input, 2 * n - 1 - k),
    decreases n,
{
    if n > 0 {
        lemma_up_line_at(line, input, n - 1, k);
        if k >= 2 {
            lemma_up_line_at(line, input, n - 1, k - 2);
            assert(2 * (n - 1) - 1 - (k - 2) == 2 * n - 1 - k);
        }
    }
}

/// On the way up, the output is twice the convolution of the filter with the signal that has a zero
/// behind every sample.
pub proof fn lemma_upsampling_is_a_convolution<T: PrcFmt>(line: Seq<T>, input: Seq<T>, j: int)
    requires
        is_exact::<T>(),
        line.len() == 31,
        0 <= j < 2 * input.len(),
    ensures
        up_wave(line, input)[j] == T::s_int(2).s_mul(
            total(|k: int| stage_coeffs::<T>()[k].s_mul(stuffed(line, input, j - k)), 0, 31),
        ),
{
    let c = stage_coeffs::<T>();
    let with = pushed(up_line(line, input, j / 2), input[j / 2]);
    let seen = if j % 2 == 0 {
        with
    } else {
        pushed(with, s_zero())
    };
    assert forall|k: int| 0 <= k < 31 implies #[trigger] seen[k] == stuffed(line, input, j - k) by {
        lemma_up_line_at(line, input, j / 2, k);
        if k >= 1 {
            lemma_up_line_at(line, input, j / 2, k - 1);
        }
        if k >= 2 {
            lemma_up_line_at(line, input, j / 2, k - 2);
        }
    }
    lemma_fir_is_an_inner_product(c, seen, 31);
    lemma_total_same(
        |k: int| c[k].s_mul(seen[k]),
        |k: int| c[k].s_mul(stuffed(line, input, j - k)),
        0,
        31,
    );
}

/// Sample `i` of the signal, behind what the delay line holds.
pub open spec fn continued<T>(line: Seq<T>, input: Seq<T>, i: int) -> T {
    if i < 0 {
        line[-1 - i]
    } else {
        input[i]
    }
}

proof fn lemma_down_line_at<T: PrcFmt>(line: Seq<T>, input: Seq<T>, n: int, k: int)
    requires
        0 <= n,
        2 * n <= input.len(),
        0 <= k < line.len(),
    ensures
        down_line(line, input, n).len() == line.len(),
        down_line(line, input, n)[k] == continued(line, input, 2 * n - 1 - k),
    decreases n,
{
    if n > 0 {
        lemma_down_line_at(line, input, n - 1, k);
        if k >= 2 {
            lemma_down_line_at(line, input, n - 1, k - 2);
        }
    }
}

/// On the way down, the output is the convolution of the filter with the signal, at the second
/// sample of every pair.
pub proof fn lemma_downsampling_is_a_convolution<T: PrcFmt>(line: Seq<T>, input: Seq<T>, i: int)
    requires
        is_exact::<T>(),
        line.len() == 31,
        0 <= i,
        2 * i + 1 < input.len(),
    ensures
        down_wave(line, input)[i] == total(
            |k: int| stage_coeffs::<T>()[k].s_mul(continued(line, input, 2 * i + 1 - k)),
            0,
            31,
        ),
{
    let c = stage_coeffs::<T>();
    let seen = down_line(line, input, i + 1);
    assert forall|k: int| 0 <= k < 31 implies #[trigger] seen[k] == continued(
        line,
        input,
        2 * i + 1 - k,
    ) by {
        lemma_down_line_at(line, input, i + 1, k);
    }
    lemma_fir_is_an_inner_product(c, seen, 31);
    lemma_total_same(
        |k: int| c[k].s_mul(seen[k]),
        |k: int| c[k].s_mul(continued(line, input, 2 * i + 1 - k)),
        0,
        31,
    );
}

} // verus!
