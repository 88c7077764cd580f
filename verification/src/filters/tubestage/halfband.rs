//! The 2x halfband stage that the FIR oversampler is a cascade of.

use crate::arith::{copies, fill, filled, push_front, pushed, s_one, s_zero};
use crate::prcfmt::PrcFmt;
use crate::utils::window::{sum, sum_of};
use vstd::prelude::*;

verus! {

/// The length of the halfband filter: odd, with the centre at an odd index.
pub const HALFBAND_LENGTH: usize = 31;

/// The shape of the Kaiser window, for about 80 dB of stopband attenuation.
pub const KAISER_BETA: i64 = 8;

/// The end of the power series for the Bessel function.
pub const BESSEL_TERMS: i64 = 60;

/// The power series of the Bessel function from its `k`-th term on, with half the argument, the
/// root of the term before it and the sum up to it given. The series ends where a term no longer
/// contributes.
pub open spec fn bessel_from<T: PrcFmt>(half: T, k: int, root: T, sum: T) -> T
    decreases BESSEL_TERMS - k,
{
    if k >= BESSEL_TERMS {
        sum
    } else {
        let next = root.s_mul(half.s_div(T::s_int(k)));
        let term = next.s_mul(next);
        let total = sum.s_add(term);
        if term.s_lt(T::s_dec(1, 30).s_mul(total)) {
            total
        } else {
            bessel_from(half, k + 1, next, total)
        }
    }
}

/// The modified Bessel function of the first kind, order zero, by its power series.
pub open spec fn s_bessel_i0<T: PrcFmt>(x: T) -> T {
    bessel_from(x.s_div(T::s_int(2)), 1, s_one(), s_one())
}

/// Modified Bessel function of the first kind, order zero.
pub fn bessel_i0<T: PrcFmt>(x: T) -> (r: T)
    ensures
        r == s_bessel_i0(x),
{
    let mut sum: T = T::of_int(1);
    let mut root: T = T::of_int(1);
    let half: T = x.over(T::of_int(2));
    let mut k: i64 = 1;
    while k < BESSEL_TERMS
        invariant
            1 <= k <= BESSEL_TERMS,
            s_bessel_i0(x) == bessel_from(half, k as int, root, sum),
        decreases BESSEL_TERMS - k,
    {
        root = root.times(half.over(T::of_int(k)));
        let term: T = root.times(root);
        sum = sum.plus(term);
        if term.lt(T::decimal(1, 30).times(sum)) {
            return sum;
        }
        k += 1;
    }
    sum
}

/// The Kaiser window of the given length and shape at index `n`.
pub open spec fn s_kaiser_window<T: PrcFmt>(n: int, length: int, beta: T) -> T {
    let center = T::s_int(length - 1).s_div(T::s_int(2));
    let arg = T::s_int(n).s_sub(center).s_div(center);
    let inside = s_one::<T>().s_sub(arg.s_mul(arg)).s_max(s_zero());
    s_bessel_i0(beta.s_mul(inside.s_sqrt())).s_div(s_bessel_i0(beta))
}

/// The Kaiser window of the given length and shape at index `n`.
pub fn kaiser_window<T: PrcFmt>(n: usize, length: usize, beta: T) -> (r: T)
    requires
        length >= 1,
    ensures
        r == s_kaiser_window(n as int, length as int, beta),
{
    let center: T = T::of_usize(length - 1).over(T::of_int(2));
    let arg: T = T::of_usize(n).minus(center).over(center);
    let inside: T = T::of_int(1).minus(arg.times(arg)).max(T::of_int(0));
    bessel_i0(beta.times(inside.sqrt())).over(bessel_i0(beta))
}

/// Coefficient `n` of the halfband lowpass before it is scaled: `sinc(m / 2) / 2` at `m` samples
/// from the centre, under the window.
pub open spec fn halfband_at<T: PrcFmt>(n: int, length: int, beta: T) -> T {
    let m = n - length / 2;
    let sinc = if m == 0 {
        T::s_dec(5, 1)
    } else {
        T::s_pi().s_mul(T::s_int(m)).s_div(T::s_int(2)).s_sin().s_div(
            T::s_pi().s_mul(T::s_int(m)),
        )
    };
    sinc.s_mul(s_kaiser_window(n, length, beta))
}

/// The halfband lowpass before it is scaled.
pub open spec fn unscaled_halfband<T: PrcFmt>(length: int, beta: T) -> Seq<T> {
    Seq::new(length as nat, |n: int| halfband_at(n, length, beta))
}

/// The halfband lowpass, scaled to a DC gain of one.
pub open spec fn halfband_coeffs<T: PrcFmt>(length: int, beta: T) -> Seq<T> {
    let h = unscaled_halfband(length, beta);
    Seq::new(h.len(), |n: int| h[n].s_div(sum_of(h, h.len() as int)))
}

/// The coefficients that every stage uses.
pub open spec fn stage_coeffs<T: PrcFmt>() -> Seq<T> {
    halfband_coeffs(HALFBAND_LENGTH as int, T::s_int(KAISER_BETA as int))
}

/// Build a length-N halfband prototype lowpass with its cutoff at a quarter of the rate and a DC
/// gain of one. The same coefficients serve for up- and downsampling (the upsampler scales its
/// output by two to compensate for zero stuffing).
pub fn make_halfband_coeffs<T: PrcFmt>(length: usize, beta: T) -> (r: Vec<T>)
    requires
        length % 2 == 1,
        length <= i64::MAX,
    ensures
        r@ == halfband_coeffs(length as int, beta),
{
    let center: i64 = (length / 2) as i64;
    let mut h: Vec<T> = Vec::new();
    let mut n: usize = 0;
    while n < length
        invariant
            n <= length,
            length % 2 == 1,
            length <= i64::MAX,
            center == length as int / 2,
            h@.len() == n,
            forall|j: int|
                0 <= j < n ==> #[trigger] h@[j] == halfband_at(j, length as int, beta),
        decreases length - n,
    {
        let m: i64 = n as i64 - center;
        let sinc: T = if m == 0 {
            T::decimal(5, 1)
        } else {
            T::pi().times(T::of_int(m)).over(T::of_int(2)).sin().over(
                T::pi().times(T::of_int(m)),
            )
        };
        h.push(sinc.times(kaiser_window(n, length, beta)));
        n += 1;
    }
    assert(h@ =~= unscaled_halfband(length as int, beta));
    let ghost raw = h@;
    let dc_gain: T = sum(&h);
    let mut k: usize = 0;
    while k < h.len()
        invariant
            k <= h@.len(),
            h@.len() == raw.len(),
            forall|j: int|
                0 <= j < h@.len() ==> #[trigger] h@[j] == if j < k {
                    raw[j].s_div(dc_gain)
                } else {
                    raw[j]
                },
        decreases h@.len() - k,
    {
        h[k] = h[k].over(dc_gain);
        k += 1;
    }
    assert(h@ =~= halfband_coeffs(length as int, beta));
    h
}

/// The inner product of the first `n` coefficients with a delay line, without those that are zero.
pub open spec fn fir<T: PrcFmt>(coeffs: Seq<T>, line: Seq<T>, n: int) -> T
    decreases n,
{
    if n <= 0 {
        s_zero()
    } else if coeffs[n - 1].s_eq(s_zero()) {
        fir(coeffs, line, n - 1)
    } else {
        fir(coeffs, line, n - 1).s_add(coeffs[n - 1].s_mul(line[n - 1]))
    }
}

/// The output of a stage's filter for a delay line.
pub open spec fn stage_fir<T: PrcFmt>(line: Seq<T>) -> T {
    fir(stage_coeffs::<T>(), line, HALFBAND_LENGTH as int)
}

// ------------------------------- A whole waveform -------------------------------

/// The delay line of the upsampler after the first `n` samples, each followed by a zero.
pub open spec fn up_line<T: PrcFmt>(line: Seq<T>, input: Seq<T>, n: int) -> Seq<T>
    decreases n,
{
    if n <= 0 {
        line
    } else {
        pushed(pushed(up_line(line, input, n - 1), input[n - 1]), s_zero())
    }
}

/// The waveform at twice the rate.
pub open spec fn up_wave<T: PrcFmt>(line: Seq<T>, input: Seq<T>) -> Seq<T> {
    Seq::new(
        2 * input.len(),
        |j: int|
            {
                let with = pushed(up_line(line, input, j / 2), input[j / 2]);
                T::s_int(2).s_mul(
                    if j % 2 == 0 {
                        stage_fir(with)
                    } else {
                        stage_fir(pushed(with, s_zero()))
                    },
                )
            },
    )
}

/// The delay line of the downsampler after the first `n` pairs of samples.
pub open spec fn down_line<T: PrcFmt>(line: Seq<T>, input: Seq<T>, n: int) -> Seq<T>
    decreases n,
{
    if n <= 0 {
        line
    } else {
        pushed(pushed(down_line(line, input, n - 1), input[2 * n - 2]), input[2 * n - 1])
    }
}

/// The waveform at half the rate.
pub open spec fn down_wave<T: PrcFmt>(line: Seq<T>, input: Seq<T>) -> Seq<T> {
    Seq::new(
        (input.len() as int / 2) as nat,
        |i: int| stage_fir(down_line(line, input, i + 1)),
    )
}

/// The delay line of the upsampler goes on from where the first waveform left it.
proof fn lemma_up_line_cut<T: PrcFmt>(line: Seq<T>, a: Seq<T>, b: Seq<T>, n: int)
    ensures
        0 <= n <= a.len() ==> up_line(line, a + b, n) == up_line(line, a, n),
        a.len() <= n <= a.len() + b.len() ==> up_line(line, a + b, n) == up_line(
            up_line(line, a, a.len() as int),
            b,
            n - a.len(),
        ),
    decreases n,
{
    if n > 0 {
        lemma_up_line_cut(line, a, b, n - 1);
    }
}

/// Upsampling does not depend on how the audio is cut: two waveforms one after the other give what
/// they give as one.
pub proof fn lemma_upsampling_ignores_cuts<T: PrcFmt>(line: Seq<T>, a: Seq<T>, b: Seq<T>)
    ensures
        up_wave(line, a + b) == up_wave(line, a) + up_wave(up_line(line, a, a.len() as int), b),
        up_line(line, a + b, (a + b).len() as int) == up_line(
            up_line(line, a, a.len() as int),
            b,
            b.len() as int,
        ),
{
    let whole = up_wave(line, a + b);
    let parts = up_wave(line, a) + up_wave(up_line(line, a, a.len() as int), b);
    lemma_up_line_cut(line, a, b, (a + b).len() as int);
    assert forall|j: int| 0 <= j < whole.len() implies whole[j] == parts[j] by {
        lemma_up_line_cut(line, a, b, j / 2);
        if j / 2 >= a.len() {
            let k = j - 2 * a.len();
            assert(k / 2 == j / 2 - a.len() && k % 2 == j % 2);
        }
    }
    assert(whole =~= parts);
}

/// The delay line of the downsampler goes on from where the first waveform left it.
proof fn lemma_down_line_cut<T: PrcFmt>(line: Seq<T>, a: Seq<T>, b: Seq<T>, n: int)
    requires
        a.len() % 2 == 0,
    ensures
        0 <= n <= a.len() as int / 2 ==> down_line(line, a + b, n) == down_line(line, a, n),
        a.len() as int / 2 <= n <= (a.len() + b.len()) as int / 2 ==> down_line(line, a + b, n)
            == down_line(down_line(line, a, a.len() as int / 2), b, n - a.len() as int / 2),
    decreases n,
{
    if n > 0 {
        lemma_down_line_cut(line, a, b, n - 1);
    }
}

/// Downsampling does not depend on how the audio is cut, as long as no pair of samples is.
pub proof fn lemma_downsampling_ignores_cuts<T: PrcFmt>(line: Seq<T>, a: Seq<T>, b: Seq<T>)
    requires
        a.len() % 2 == 0,
    ensures
        down_wave(line, a + b) == down_wave(line, a) + down_wave(
            down_line(line, a, a.len() as int / 2),
            b,
        ),
        down_line(line, a + b, (a + b).len() as int / 2) == down_line(
            down_line(line, a, a.len() as int / 2),
            b,
            b.len() as int / 2,
        ),
{
    let whole = down_wave(line, a + b);
    let parts = down_wave(line, a) + down_wave(down_line(line, a, a.len() as int / 2), b);
    lemma_down_line_cut(line, a, b, (a + b).len() as int / 2);
    assert forall|i: int| 0 <= i < whole.len() implies whole[i] == parts[i] by {
        lemma_down_line_cut(line, a, b, i + 1);
    }
    assert(whole =~= parts);
}

/// Single 2x halfband stage. Holds independent up- and down-sampling state.
pub struct HalfbandStage<T> {
    pub coeffs: Vec<T>,
    /// Delay lines, indexed at the high rate.
    pub up_dl: Vec<T>,
    pub down_dl: Vec<T>,
}

impl<T: PrcFmt> HalfbandStage<T> {
    /// What holds of a stage between calls.
    pub open spec fn wf(self) -> bool {
        &&& self.coeffs@ == stage_coeffs::<T>()
        &&& self.up_dl@.len() == HALFBAND_LENGTH
        &&& self.down_dl@.len() == HALFBAND_LENGTH
    }

    /// Whether no audio has been seen yet.
    pub open spec fn is_fresh(self) -> bool {
        &&& self.up_dl@ == copies(HALFBAND_LENGTH as nat, s_zero::<T>())
        &&& self.down_dl@ == copies(HALFBAND_LENGTH as nat, s_zero::<T>())
    }

    pub fn new() -> (r: Self)
        ensures
            r.wf(),
            r.is_fresh(),
    {
        let coeffs: Vec<T> = make_halfband_coeffs(HALFBAND_LENGTH, T::of_int(KAISER_BETA));
        HalfbandStage {
            coeffs,
            up_dl: filled(HALFBAND_LENGTH, T::of_int(0)),
            down_dl: filled(HALFBAND_LENGTH, T::of_int(0)),
        }
    }

    pub fn reset(&mut self)
        requires
            old(self).wf(),
        ensures
            final(self).wf(),
            final(self).is_fresh(),
    {
        fill(&mut self.up_dl, T::of_int(0));
        fill(&mut self.down_dl, T::of_int(0));
    }

    /// Upsample one input sample to two output samples: zero-stuff and convolve at the high rate.
    /// The output is scaled by two to compensate for the zero-stuffing energy loss.
    pub fn upsample_one(&mut self, x: T) -> (r: (T, T))
        requires
            old(self).wf(),
        ensures
            final(self).wf(),
            final(self).down_dl == old(self).down_dl,
            final(self).up_dl@ == pushed(pushed(old(self).up_dl@, x), s_zero()),
            r.0 == T::s_int(2).s_mul(stage_fir(pushed(old(self).up_dl@, x))),
            r.1 == T::s_int(2).s_mul(stage_fir(pushed(pushed(old(self).up_dl@, x), s_zero()))),
    {
        push_front(&mut self.up_dl, x);
        let y0: T = self.fir_eval(&self.up_dl);
        push_front(&mut self.up_dl, T::of_int(0));
        let y1: T = self.fir_eval(&self.up_dl);
        (T::of_int(2).times(y0), T::of_int(2).times(y1))
    }

    /// Downsample two input samples to one output sample. The two inputs are consumed in order,
    /// the second producing the output.
    pub fn downsample_pair(&mut self, x_first: T, x_second: T) -> (r: T)
        requires
            old(self).wf(),
        ensures
            final(self).wf(),
            final(self).up_dl == old(self).up_dl,
            final(self).down_dl@ == pushed(pushed(old(self).down_dl@, x_first), x_second),
            r == stage_fir(pushed(pushed(old(self).down_dl@, x_first), x_second)),
    {
        push_front(&mut self.down_dl, x_first);
        push_front(&mut self.down_dl, x_second);
        self.fir_eval(&self.down_dl)
    }

    fn fir_eval(&self, dl: &Vec<T>) -> (r: T)
        requires
            self.coeffs@ == stage_coeffs::<T>(),
            dl@.len() == HALFBAND_LENGTH,
        ensures
            r == stage_fir(dl@),
    {
        let zero: T = T::of_int(0);
        let mut sum: T = zero;
        let mut k: usize = 0;
        while k < HALFBAND_LENGTH
            invariant
                k <= HALFBAND_LENGTH,
                self.coeffs@ == stage_coeffs::<T>(),
                dl@.len() == HALFBAND_LENGTH,
                zero == s_zero::<T>(),
                sum == fir(stage_coeffs::<T>(), dl@, k as int),
            decreases HALFBAND_LENGTH - k,
        {
            let c: T = self.coeffs[k];
            if !c.same(zero) {
                sum = sum.plus(c.times(dl[k]));
            }
            k += 1;
        }
        sum
    }

    /// Upsamples a whole waveform.
    pub fn upsample_wave(&mut self, src: &Vec<T>, dst: &mut Vec<T>)
        requires
            old(self).wf(),
            2 * src@.len() <= usize::MAX,
        ensures
            final(self).wf(),
            final(self).down_dl == old(self).down_dl,
            final(self).up_dl@ == up_line(old(self).up_dl@, src@, src@.len() as int),
            final(dst)@ == up_wave(old(self).up_dl@, src@),
    {
        let ghost line = self.up_dl@;
        dst.clear();
        let mut i: usize = 0;
        while i < src.len()
            invariant
                i <= src@.len(),
                line == old(self).up_dl@,
                self.wf(),
                self.down_dl == old(self).down_dl,
                self.up_dl@ == up_line(line, src@, i as int),
                dst@.len() == 2 * i,
                forall|j: int|
                    0 <= j < 2 * i ==> #[trigger] dst@[j] == up_wave(line, src@)[j],
            decreases src@.len() - i,
        {
            let (y0, y1): (T, T) = self.upsample_one(src[i]);
            dst.push(y0);
            dst.push(y1);
            assert((2 * i) / 2 == i && (2 * i + 1) / 2 == i);
            i += 1;
        }
        assert(dst@ =~= up_wave(line, src@));
    }

    /// Downsamples a whole waveform.
    pub fn downsample_wave(&mut self, src: &Vec<T>, dst: &mut Vec<T>)
        requires
            old(self).wf(),
        ensures
            final(self).wf(),
            final(self).up_dl == old(self).up_dl,
            final(self).down_dl@ == down_line(old(self).down_dl@, src@, src@.len() as int / 2),
            final(dst)@ == down_wave(old(self).down_dl@, src@),
    {
        let ghost line = self.down_dl@;
        let n: usize = src.len() / 2;
        dst.clear();
        let mut i: usize = 0;
        while i < n
            invariant
                i <= n,
                n == src.len() / 2,
                line == old(self).down_dl@,
                self.wf(),
                self.up_dl == old(self).up_dl,
                self.down_dl@ == down_line(line, src@, i as int),
                dst@.len() == i,
                forall|j: int| 0 <= j < i ==> #[trigger] dst@[j] == down_wave(line, src@)[j],
            decreases n - i,
        {
            let y: T = self.downsample_pair(src[2 * i], src[2 * i + 1]);
            dst.push(y);
            i += 1;
        }
        assert(dst@ =~= down_wave(line, src@));
    }
}

} // verus!
