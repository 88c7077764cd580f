//! Small numeric building blocks that the filters share.

use crate::prcfmt::PrcFmt;
use vstd::prelude::*;

verus! {

/// The value zero.
pub open spec fn s_zero<T: PrcFmt>() -> T {
    T::s_int(0)
}

/// The value one.
pub open spec fn s_one<T: PrcFmt>() -> T {
    T::s_int(1)
}

/// The amplitude factor of a level in decibels: `10^(db / 20)`.
pub open spec fn s_db_to_linear<T: PrcFmt>(db: T) -> T {
    T::s_int(10).s_pow(db.s_div(T::s_int(20)))
}

/// `x` held between `lo` and `hi`.
pub open spec fn s_clamp<T: PrcFmt>(x: T, lo: T, hi: T) -> T {
    if x.s_lt(lo) {
        lo
    } else if hi.s_lt(x) {
        hi
    } else {
        x
    }
}

/// `n` copies of `v`.
pub open spec fn copies<T>(n: nat, v: T) -> Seq<T> {
    Seq::new(n, |i: int| v)
}

/// The smaller of two integers.
pub open spec fn min_int(a: int, b: int) -> int {
    if a <= b {
        a
    } else {
        b
    }
}

/// The larger of two integers.
pub open spec fn max_int(a: int, b: int) -> int {
    if a <= b {
        b
    } else {
        a
    }
}

/// `a - b`, or zero where `b` is the larger.
pub open spec fn monus(a: int, b: int) -> int {
    if a <= b {
        0
    } else {
        a - b
    }
}

/// Converts a level in decibels to an amplitude factor.
pub fn db_to_linear<T: PrcFmt>(db: T) -> (r: T)
    ensures
        r == s_db_to_linear(db),
{
    T::of_int(10).powf(db.over(T::of_int(20)))
}

/// Holds `x` between `lo` and `hi`.
pub fn clamp<T: PrcFmt>(x: T, lo: T, hi: T) -> (r: T)
    ensures
        r == s_clamp(x, lo, hi),
{
    if x.lt(lo) {
        lo
    } else if hi.lt(x) {
        hi
    } else {
        x
    }
}

/// A value that is held between two bounds lies neither below the lower nor above the upper.
pub proof fn lemma_clamp_within<T: PrcFmt>(x: T, lo: T, hi: T)
    requires
        lo.s_le(hi),
    ensures
        !s_clamp(x, lo, hi).s_lt(lo),
        !hi.s_lt(s_clamp(x, lo, hi)),
{
    lo.lt_irreflexive();
    hi.lt_irreflexive();
    lo.le_excludes_gt(hi);
}

/// A vector of `n` copies of `v`.
pub fn filled<T: Copy>(n: usize, v: T) -> (r: Vec<T>)
    ensures
        r@ == copies(n as nat, v),
{
    let mut r: Vec<T> = Vec::new();
    let mut i: usize = 0;
    while i < n
        invariant
            i <= n,
            r@.len() == i,
            forall|j: int| 0 <= j < i ==> r@[j] == v,
        decreases n - i,
    {
        r.push(v);
        i += 1;
    }
    assert(r@ =~= copies(n as nat, v));
    r
}

/// Overwrites every element of `buf` with `v`.
pub fn fill<T: Copy>(buf: &mut Vec<T>, v: T)
    ensures
        final(buf)@ == copies(old(buf)@.len(), v),
{
    let n: usize = buf.len();
    let mut i: usize = 0;
    while i < n
        invariant
            i <= n,
            n == buf@.len(),
            n == old(buf)@.len(),
            forall|j: int| 0 <= j < i ==> buf@[j] == v,
        decreases n - i,
    {
        buf[i] = v;
        i += 1;
    }
    assert(buf@ =~= copies(old(buf)@.len(), v));
}

/// A copy of the elements of `src`.
pub fn copied<T: Copy>(src: &[T]) -> (r: Vec<T>)
    ensures
        r@ == src@,
{
    let mut r: Vec<T> = Vec::new();
    let mut i: usize = 0;
    while i < src.len()
        invariant
            i <= src@.len(),
            r@ == src@.take(i as int),
        decreases src@.len() - i,
    {
        r.push(src[i]);
        i += 1;
    }
    assert(src@.take(i as int) =~= src@);
    r
}

/// Appends the elements of `tail` to `buf`.
pub fn append<T: Copy>(buf: &mut Vec<T>, tail: &[T])
    ensures
        final(buf)@ == old(buf)@ + tail@,
{
    let mut i: usize = 0;
    while i < tail.len()
        invariant
            i <= tail@.len(),
            buf@ == old(buf)@ + tail@.take(i as int),
        decreases tail@.len() - i,
    {
        buf.push(tail[i]);
        assert(tail@.take(i as int).push(tail@[i as int]) =~= tail@.take(i + 1));
        i += 1;
    }
    assert(tail@.take(i as int) =~= tail@);
}

/// Drops the first `n` elements of `buf`.
pub fn drop_front<T: Copy>(buf: &mut Vec<T>, n: usize)
    requires
        n <= old(buf)@.len(),
    ensures
        final(buf)@ == old(buf)@.skip(n as int),
{
    let keep: usize = buf.len() - n;
    let mut i: usize = 0;
    while i < keep
        invariant
            i <= keep,
            keep + n == buf@.len(),
            keep + n == buf.len(),
            buf@.len() == old(buf)@.len(),
            forall|j: int| 0 <= j < i ==> buf@[j] == old(buf)@[j + n],
            forall|j: int| i <= j < buf@.len() ==> buf@[j] == old(buf)@[j],
        decreases keep - i,
    {
        buf[i] = buf[i + n];
        i += 1;
    }
    buf.truncate(keep);
    assert(buf@ =~= old(buf)@.skip(n as int));
}

/// A delay line after `v` has been pushed in at its front.
pub open spec fn pushed<T>(line: Seq<T>, v: T) -> Seq<T> {
    Seq::new(
        line.len(),
        |i: int|
            if i == 0 {
                v
            } else {
                line[i - 1]
            },
    )
}

/// Pushes `v` in at the front of a delay line.
pub fn push_front<T: Copy>(line: &mut Vec<T>, v: T)
    requires
        old(line)@.len() > 0,
    ensures
        final(line)@ == pushed(old(line)@, v),
{
    let mut i: usize = line.len() - 1;
    while i > 0
        invariant
            i < line@.len(),
            line@.len() == old(line)@.len(),
            forall|j: int|
                0 <= j < line@.len() ==> #[trigger] line@[j] == if j <= i {
                    old(line)@[j]
                } else {
                    old(line)@[j - 1]
                },
        decreases i,
    {
        line[i] = line[i - 1];
        i -= 1;
    }
    line[0] = v;
    assert(line@ =~= pushed(old(line)@, v));
}

} // verus!
