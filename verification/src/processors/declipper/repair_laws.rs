//! What a repair puts in the place of a clip, and what the makeup gain does to the output.

use crate::arith::{s_one, s_zero};
use crate::config::DeclipperParameters;
use crate::exact::{sums_associate, sums_commute};
use crate::prcfmt::PrcFmt;
use crate::processors::declipper::gap::cubic_at;
use crate::processors::declipper::{emitted, Declipper};
use crate::reals::{
    is_real, lemma_add_zero, lemma_div_mul, lemma_integers, lemma_mul_moves, lemma_mul_neg,
    lemma_mul_spreads, lemma_mul_units, lemma_negatives, lemma_pairs, lemma_sub_is,
    lemma_sub_is_add_neg, lemma_twenty_decibels, lemma_zero_decibels,
};
use vstd::prelude::*;

verus! {

/// The parts of the cubic in terms of `d = 2 t^3 - 3 t^2`.
proof fn lemma_cubic_parts<T: PrcFmt>(t: T)
    requires
        is_real::<T>(),
    ensures
        ({
            let t2 = t.s_mul(t);
            let t3 = t2.s_mul(t);
            let d = T::s_int(2).s_mul(t3).s_sub(T::s_int(3).s_mul(t2));
            let h10 = t3.s_sub(T::s_int(2).s_mul(t2)).s_add(t);
            let h11 = t3.s_sub(t2);
            &&& T::s_int(-2).s_mul(t3).s_add(T::s_int(3).s_mul(t2)) == d.s_neg()
            &&& h10.s_add(h11) == d.s_add(t)
            &&& h10.s_sub(h11) == t.s_sub(t2)
        }),
{
    let t2 = t.s_mul(t);
    let t3 = t2.s_mul(t);
    let (a, b) = (T::s_int(2).s_mul(t3), T::s_int(3).s_mul(t2));
    let c = T::s_int(2).s_mul(t2);
    let d = a.s_sub(b);
    lemma_integers::<T>(2, 2);
    lemma_integers::<T>(1, 1);
    lemma_integers::<T>(2, 1);
    lemma_mul_neg(T::s_int(2), t3);
    lemma_negatives(a, b);
    lemma_sub_is_add_neg(b, a);
    assert(sums_commute(a.s_neg(), b));
    // 2 t^3 = t^3 + t^3, and 3 t^2 = 2 t^2 + t^2.
    lemma_mul_spreads(t3, s_one(), s_one());
    lemma_mul_units(t3);
    assert(a == t3.s_add(t3));
    lemma_mul_spreads(t2, T::s_int(2), s_one());
    lemma_mul_units(t2);
    assert(b == c.s_add(t2));
    let u = t3.s_sub(c);
    let h10 = u.s_add(t);
    let h11 = t3.s_sub(t2);
    lemma_sub_is_add_neg(t3, c);
    lemma_sub_is_add_neg(t3, t2);
    lemma_sub_is_add_neg(a, b);
    lemma_negatives(c, t2);
    lemma_pairs(t3, c.s_neg(), t3, t2.s_neg());
    assert(u.s_add(h11) == d);
    assert(sums_associate(u, t, h11) && sums_commute(t, h11) && sums_associate(u, h11, t));
    // h10 = h11 + (t - t^2).
    let v = t.s_sub(t2);
    lemma_sub_is_add_neg(t, t2);
    lemma_pairs(t3, t2.s_neg(), t, t2.s_neg());
    assert(h11.s_add(v) == t3.s_add(t).s_add(t2.s_neg().s_add(t2.s_neg())));
    assert(c == t2.s_add(t2)) by {
        lemma_mul_spreads(t2, s_one(), s_one());
    }
    lemma_negatives(t2, t2);
    assert(sums_associate(t3, c.s_neg(), t) && sums_commute(c.s_neg(), t) && sums_associate(
        t3,
        t,
        c.s_neg(),
    ));
    assert(h10 == h11.s_add(v));
    lemma_sub_is(h10, h11, v);
}

/// The position of sample `j` in the gap, as a part of its span.
proof fn lemma_position<T: PrcFmt>(s: int, e: int, j: int)
    requires
        is_real::<T>(),
        s <= e,
    ensures
        ({
            let span = T::s_int(e - s).s_add(s_one());
            let t = T::s_int(j - s).s_add(s_one()).s_div(span);
            &&& span == T::s_int(e - s + 1)
            &&& span != s_zero::<T>()
            &&& t.s_mul(span) == T::s_int(j - s + 1)
        }),
{
    lemma_integers::<T>(e - s, 1);
    lemma_integers::<T>(j - s, 1);
    lemma_integers::<T>(e - s + 1, 0);
    lemma_div_mul(T::s_int(j - s).s_add(s_one()), T::s_int(e - s).s_add(s_one()));
}

/// A straight line is carried on: where the samples around the gap lie on one, so do those that the
/// cubic puts into it.
pub proof fn lemma_cubic_carries_lines_on<T: PrcFmt>(buf: Seq<T>, s: int, e: int, j: int, d: T)
    requires
        is_real::<T>(),
        s <= j < e,
        buf[s - 1] == buf[s - 2].s_add(d),
        buf[e] == buf[s - 1].s_add(d.s_mul(T::s_int(e - s + 1))),
        buf[e + 1] == buf[e].s_add(d),
    ensures
        cubic_at(buf, s, e, j) == buf[s - 1].s_add(d.s_mul(T::s_int(j - s + 1))),
{
    let one = s_one::<T>();
    let span = T::s_int(e - s).s_add(one);
    let t = T::s_int(j - s).s_add(one).s_div(span);
    lemma_position::<T>(s, e, j);
    lemma_sub_is(buf[s - 1], buf[s - 2], d);
    lemma_sub_is(buf[e + 1], buf[e], d);
    let p = buf[s - 1];
    let m = d.s_mul(span);
    let t2 = t.s_mul(t);
    let t3 = t2.s_mul(t);
    let q = T::s_int(2).s_mul(t3).s_sub(T::s_int(3).s_mul(t2));
    let h00 = q.s_add(one);
    let h10 = t3.s_sub(T::s_int(2).s_mul(t2)).s_add(t);
    let h01 = T::s_int(-2).s_mul(t3).s_add(T::s_int(3).s_mul(t2));
    let h11 = t3.s_sub(t2);
    lemma_cubic_parts(t);
    // The shares of the two ends make up one, and those of the tangents and the far end make t.
    lemma_sub_is_add_neg(q, q);
    assert(h00.s_add(h01) == one) by {
        assert(sums_commute(q, one) && sums_associate(one, q, h01));
        lemma_add_zero(one);
    }
    assert(h10.s_add(h01).s_add(h11) == t) by {
        assert(sums_associate(h10, h01, h11) && sums_commute(h01, h11) && sums_associate(
            h10,
            h11,
            h01,
        ));
        assert(sums_commute(q, t) && sums_associate(t, q, h01));
        lemma_add_zero(t);
    }
    let (a, b) = (h00.s_mul(p), h10.s_mul(m));
    let (c, f) = (h01.s_mul(p), h01.s_mul(m));
    let g = h11.s_mul(m);
    lemma_mul_spreads(h01, p, m);
    lemma_pairs(a, b, c, f);
    assert(sums_associate(a.s_add(c), b.s_add(f), g));
    lemma_mul_spreads(p, h00, h01);
    lemma_mul_units(p);
    lemma_mul_spreads(m, h10, h01);
    lemma_mul_spreads(m, h10.s_add(h01), h11);
    assert(cubic_at(buf, s, e, j) == p.s_add(t.s_mul(m)));
    lemma_mul_moves(t, d, span);
    lemma_mul_moves(d, t, span);
}

/// A peak is restored: between ends of the same height, with a slope of `d` into the gap and of
/// `-d` out of it, the cubic is a parabola above them. At `u` samples from the one end and `v` from
/// the other it lies `d u v / (u + v)` above the ends.
pub proof fn lemma_cubic_restores_peaks<T: PrcFmt>(buf: Seq<T>, s: int, e: int, j: int, d: T)
    requires
        is_real::<T>(),
        s <= j < e,
        buf[s - 1] == buf[s - 2].s_add(d),
        buf[e] == buf[s - 1],
        buf[e + 1] == buf[e].s_add(d.s_neg()),
    ensures
        cubic_at(buf, s, e, j).s_sub(buf[s - 1]).s_mul(T::s_int(e - s + 1)) == d.s_mul(
            T::s_int((j - s + 1) * (e - j)),
        ),
{
    let one = s_one::<T>();
    let span = T::s_int(e - s).s_add(one);
    let t = T::s_int(j - s).s_add(one).s_div(span);
    lemma_position::<T>(s, e, j);
    lemma_sub_is(buf[s - 1], buf[s - 2], d);
    lemma_sub_is(buf[e + 1], buf[e], d.s_neg());
    let p = buf[s - 1];
    let m = d.s_mul(span);
    let t2 = t.s_mul(t);
    let t3 = t2.s_mul(t);
    let q = T::s_int(2).s_mul(t3).s_sub(T::s_int(3).s_mul(t2));
    let h00 = q.s_add(one);
    let h10 = t3.s_sub(T::s_int(2).s_mul(t2)).s_add(t);
    let h01 = T::s_int(-2).s_mul(t3).s_add(T::s_int(3).s_mul(t2));
    let h11 = t3.s_sub(t2);
    lemma_cubic_parts(t);
    lemma_sub_is_add_neg(q, q);
    assert(h00.s_add(h01) == one) by {
        assert(sums_commute(q, one) && sums_associate(one, q, h01));
        lemma_add_zero(one);
    }
    let (a, b) = (h00.s_mul(p), h10.s_mul(m));
    let c = h01.s_mul(p);
    lemma_mul_neg(d, span);
    lemma_mul_neg(m, h11);
    let g = h11.s_mul(m);
    assert(d.s_neg().s_mul(span) == m.s_neg());
    assert(h11.s_mul(m.s_neg()) == g.s_neg());
    assert(sums_associate(a, b, c) && sums_commute(b, c) && sums_associate(a, c, b));
    lemma_mul_spreads(p, h00, h01);
    lemma_mul_units(p);
    assert(a.s_add(b).s_add(c) == p.s_add(b));
    assert(sums_associate(p, b, g.s_neg()));
    lemma_sub_is_add_neg(b, g);
    lemma_mul_spreads(m, h10, h11);
    let y = cubic_at(buf, s, e, j);
    let rise = t.s_sub(t2).s_mul(m);
    assert(y == p.s_add(rise));
    lemma_sub_is(y, p, rise);
    // (t - t^2) span^2 = u (span - u).
    let u = T::s_int(j - s + 1);
    let rest = T::s_int(e - j);
    lemma_integers::<T>(e - s + 1, j - s + 1);
    assert(span.s_sub(u) == rest);
    assert(t.s_sub(t2).s_mul(span).s_mul(span) == u.s_mul(rest)) by {
        lemma_mul_spreads(span, t, t2);
        lemma_mul_moves(t, t, span);
        assert(t.s_sub(t2).s_mul(span) == u.s_sub(t.s_mul(u)));
        lemma_mul_spreads(span, u, t.s_mul(u));
        lemma_mul_moves(t, u, span);
        lemma_mul_moves(t, span, u);
        lemma_mul_spreads(u, span, u);
    }
    let w = t.s_sub(t2);
    lemma_mul_moves(w, d, span);
    lemma_mul_moves(d, w.s_mul(span), span);
    lemma_integers::<T>(j - s + 1, e - j);
}

/// The makeup gain is in decibels: 20 dB more put out ten times as much, and without a makeup gain
/// the delay line is put out as it is.
pub proof fn lemma_makeup_in_decibels<T: PrcFmt>(
    a: Declipper<T>,
    b: Declipper<T>,
    p: DeclipperParameters<T>,
    q: DeclipperParameters<T>,
    g: T,
    line: Seq<T>,
    frames: nat,
    k: int,
)
    requires
        is_real::<T>(),
        a.follows(p),
        b.follows(q),
        0 <= k < frames,
    ensures
        p.makeup_gain_db == Some(g) && q.makeup_gain_db == Some(g.s_add(T::s_int(20))) ==> emitted(
            line,
            b.ctx as int,
            frames,
            b.makeup,
        )[k] == line[b.ctx + k].s_mul(a.makeup).s_mul(T::s_int(10)),
        p.makeup_gain_db is None ==> emitted(line, a.ctx as int, frames, a.makeup)[k]
            == line[a.ctx + k],
{
    lemma_twenty_decibels(g);
    lemma_zero_decibels::<T>();
    lemma_mul_moves(line[b.ctx + k], T::s_int(10), a.makeup);
    lemma_mul_moves(line[b.ctx + k], a.makeup, T::s_int(10));
    lemma_mul_units(line[a.ctx + k]);
}

} // verus!
