//! A fixed-point processing format, for targets without floating-point hardware.
//!
//! A value is a 64-bit integer in units of `2^-32`. Results that lie out of range saturate, at the
//! same magnitude for both signs; products and quotients are rounded toward zero. The elementary
//! functions are series over these operations.

use crate::prcfmt::{Metered, PrcFmt};
use vstd::arithmetic::div_mod::{lemma_fundamental_div_mod, lemma_fundamental_div_mod_converse};
use vstd::prelude::*;

verus! {

/// The number of units in one: `2^32`.
pub const ONE: i64 = 0x1_0000_0000;

/// The largest magnitude.
pub const LIMIT: i64 = 0x7fff_ffff_ffff_ffff;

/// The circle constant.
pub const PI_RAW: i64 = 13493037705;

/// Twice the circle constant.
pub const TAU_RAW: i64 = 26986075409;

/// Half the circle constant.
pub const HALF_PI_RAW: i64 = 6746518852;

/// The natural logarithm of two.
pub const LN_2_RAW: i64 = 2977044472;

/// The natural logarithm of ten.
pub const LN_10_RAW: i64 = 9889527671;

/// The number of terms in the series of the exponential.
pub const EXP_TERMS: i64 = 12;

/// The exponent below which the exponential is less than the last place: thirty-two times the
/// logarithm of one half.
pub const EXP_FLOOR: i64 = -95265423104;

/// The number of times that the exponential is squared.
pub const EXP_SQUARINGS: u32 = 8;

/// The number of terms in the series of the logarithm.
pub const LN_TERMS: i64 = 16;

/// The number of terms in the series of the sine.
pub const SIN_TERMS: i64 = 14;

/// A fixed-point number.
#[derive(Clone, Copy, Debug, PartialEq, Eq, Structural)]
pub struct Fixed {
    pub raw: i64,
}

/// The magnitude of an integer.
pub open spec fn magnitude(x: int) -> int {
    if x < 0 {
        -x
    } else {
        x
    }
}

/// An integer, or the limit on its side where it lies out of range.
pub open spec fn saturated(x: int) -> Fixed {
    Fixed {
        raw: if x > LIMIT {
            LIMIT
        } else if x < -LIMIT {
            (-LIMIT) as i64
        } else {
            x as i64
        },
    }
}

/// A magnitude with a sign.
pub open spec fn signed(negative: bool, m: int) -> Fixed {
    saturated(
        if negative {
            -m
        } else {
            m
        },
    )
}

/// A magnitude divided by ten, `places` times.
pub open spec fn tenths(m: int, places: nat) -> int
    decreases places,
{
    if places == 0 {
        m
    } else {
        tenths(m / 10, (places - 1) as nat)
    }
}

/// The integer square root.
pub open spec fn isqrt(n: int) -> int
    decreases n,
{
    if n <= 0 {
        0
    } else {
        let r = 2 * isqrt(n / 4);
        if (r + 1) * (r + 1) <= n {
            r + 1
        } else {
            r
        }
    }
}

/// The integer square root is the largest number whose square does not exceed `n`.
pub proof fn lemma_isqrt(n: int)
    requires
        0 <= n,
    ensures
        0 <= isqrt(n),
        isqrt(n) * isqrt(n) <= n,
        n < (isqrt(n) + 1) * (isqrt(n) + 1),
    decreases n,
{
    if n > 0 {
        lemma_isqrt(n / 4);
        let q = isqrt(n / 4);
        let r = 2 * q;
        assert(r * r <= n && n < (r + 2) * (r + 2)) by (nonlinear_arith)
            requires
                r == 2 * q,
                q * q <= n / 4,
                n / 4 < (q + 1) * (q + 1),
                0 <= n,
                0 <= q,
        ;
    }
}

fn isqrt_u128(n: u128) -> (r: u128)
    requires
        n < 0x1_0000_0000_0000_0000_0000_0000,
    ensures
        r == isqrt(n as int),
    decreases n,
{
    if n == 0 {
        return 0;
    }
    let q: u128 = isqrt_u128(n / 4);
    proof {
        lemma_isqrt(n as int / 4);
    }
    assert(q < 0x1_0000_0000_0000) by (nonlinear_arith)
        requires
            q * q <= n as int / 4,
            n < 0x1_0000_0000_0000_0000_0000_0000,
            0 <= q,
    ;
    let r: u128 = 2 * q;
    assert((r + 1) * (r + 1) <= 0x4_0000_0000_0000_0000_0000_0000) by (nonlinear_arith)
        requires
            r == 2 * q,
            0 <= q < 0x1_0000_0000_0000,
    ;
    if (r + 1) * (r + 1) <= n {
        r + 1
    } else {
        r
    }
}

fn saturate(x: i128) -> (r: Fixed)
    ensures
        r == saturated(x as int),
{
    if x > LIMIT as i128 {
        Fixed { raw: LIMIT }
    } else if x < -(LIMIT as i128) {
        Fixed { raw: -LIMIT }
    } else {
        Fixed { raw: x as i64 }
    }
}

fn with_sign(negative: bool, m: i128) -> (r: Fixed)
    requires
        0 <= m,
    ensures
        r == signed(negative, m as int),
{
    if negative {
        saturate(-m)
    } else {
        saturate(m)
    }
}

fn mag(x: i64) -> (r: u128)
    ensures
        r == magnitude(x as int),
        r <= 0x8000_0000_0000_0000,
{
    if x < 0 {
        (-(x as i128)) as u128
    } else {
        x as u128
    }
}

// ------------------------------- Series -------------------------------

/// The series of the exponential from its `k`-th term on.
pub open spec fn exp_series(y: Fixed, k: int, term: Fixed, sum: Fixed) -> Fixed
    decreases EXP_TERMS + 1 - k,
{
    if k > EXP_TERMS {
        sum
    } else {
        let next = term.s_mul(y).s_div(Fixed::s_int(k));
        exp_series(y, k + 1, next, sum.s_add(next))
    }
}

/// A value squared `n` times.
pub open spec fn squared(v: Fixed, n: nat) -> Fixed
    decreases n,
{
    if n == 0 {
        v
    } else {
        squared(v.s_mul(v), (n - 1) as nat)
    }
}

/// The exponential of a number that is not negative: a series for a small fraction of the exponent,
/// squared back up.
pub open spec fn grown(x: Fixed) -> Fixed {
    squared(
        exp_series(x.s_div(Fixed::s_int(256)), 1, Fixed::s_int(1), Fixed::s_int(1)),
        EXP_SQUARINGS as nat,
    )
}

/// A positive number halved until it lies below two, and how often.
pub open spec fn halved(raw: int, n: int) -> (int, int)
    decreases raw,
{
    if raw >= 2 * ONE {
        halved(raw / 2, n + 1)
    } else {
        (raw, n)
    }
}

/// A positive number doubled until it lies at or above one, and the count taken down as often.
pub open spec fn doubled(raw: int, n: int) -> (int, int)
    decreases 2 * ONE - raw,
{
    if 0 < raw < ONE {
        doubled(2 * raw, n - 1)
    } else {
        (raw, n)
    }
}

/// The series of the inverse hyperbolic tangent from its `k`-th odd power on.
pub open spec fn atanh_series(z2: Fixed, k: int, power: Fixed, sum: Fixed) -> Fixed
    decreases LN_TERMS + 1 - k,
{
    if k > LN_TERMS {
        sum
    } else {
        let next = power.s_mul(z2);
        atanh_series(z2, k + 1, next, sum.s_add(next.s_div(Fixed::s_int(2 * k + 1))))
    }
}

/// The logarithm of a positive number: that of its mantissa, and as many logarithms of two as it
/// was halved or doubled.
pub open spec fn ln_of(raw: int) -> Fixed {
    let down = halved(raw, 0);
    let (m, n) = doubled(down.0, down.1);
    let mantissa = saturated(m);
    let z = mantissa.s_sub(Fixed::s_int(1)).s_div(mantissa.s_add(Fixed::s_int(1)));
    saturated(2 * atanh_series(z.s_mul(z), 1, z, z).raw + n * LN_2_RAW)
}

/// An angle brought to within half a turn.
pub open spec fn reduced(raw: int) -> int {
    let r = raw % TAU_RAW as int;
    if r > PI_RAW {
        r - TAU_RAW
    } else {
        r
    }
}

/// An angle within half a turn brought to within a quarter of a turn, where it has the same sine.
pub open spec fn folded(r: int) -> int {
    if r > HALF_PI_RAW {
        PI_RAW - r
    } else if r < -HALF_PI_RAW {
        -PI_RAW - r
    } else {
        r
    }
}

/// The series of the sine from its `k`-th odd power on, with the term before it.
pub open spec fn sin_series(z2: Fixed, k: int, term: Fixed, sum: Fixed) -> Fixed
    decreases SIN_TERMS + 1 - k,
{
    if k > SIN_TERMS {
        sum
    } else {
        let next = term.s_mul(z2).s_div(Fixed::s_int(2 * k * (2 * k + 1))).s_neg();
        sin_series(z2, k + 1, next, sum.s_add(next))
    }
}

/// The sine of an angle.
pub open spec fn sin_of(raw: int) -> Fixed {
    let x = saturated(folded(reduced(raw)));
    sin_series(x.s_mul(x), 1, x, x)
}

/// The sine of an angle of a few units is the angle.
pub proof fn lemma_sine_of_small(raw: int)
    requires
        magnitude(folded(reduced(raw))) <= 60000,
    ensures
        sin_of(raw) == saturated(folded(reduced(raw))),
{
    let x = saturated(folded(reduced(raw)));
    let m = magnitude(x.raw as int);
    assert(m * m <= 3600000000) by (nonlinear_arith)
        requires
            0 <= m <= 60000,
    ;
    assert(0 <= m * m) by (nonlinear_arith);
    assert(x.s_mul(x).raw == 0);
    lemma_sin_series_ends(x.s_mul(x), 1, x, x);
}

/// The series of the sine ends where the square of the angle vanishes.
proof fn lemma_sin_series_ends(z2: Fixed, k: int, term: Fixed, sum: Fixed)
    requires
        1 <= k,
        z2.raw == 0,
        -LIMIT <= sum.raw,
    ensures
        sin_series(z2, k, term, sum) == sum,
    decreases SIN_TERMS + 1 - k,
{
    if k <= SIN_TERMS {
        let m = magnitude(term.raw as int);
        assert(m * 0 == 0) by (nonlinear_arith);
        let product = term.s_mul(z2);
        assert(product.raw == 0);
        let d = 2 * k * (2 * k + 1);
        assert(0 < d <= 1000) by (nonlinear_arith)
            requires
                1 <= k <= 14,
                d == 2 * k * (2 * k + 1),
        ;
        assert(Fixed::s_int(d).raw == d * ONE);
        assert(0int / (d * ONE) == 0) by (nonlinear_arith)
            requires
                0 < d,
        ;
        assert(product.s_div(Fixed::s_int(d)).raw == 0);
        lemma_sin_series_ends(z2, k + 1, product.s_div(Fixed::s_int(d)).s_neg(), sum);
    }
}

fn ln_parts(raw: i64) -> (r: (i64, i64))
    requires
        0 < raw,
    ensures
        r.0 == doubled(halved(raw as int, 0).0, halved(raw as int, 0).1).0,
        r.1 == doubled(halved(raw as int, 0).0, halved(raw as int, 0).1).1,
        0 < r.0 < 2 * ONE,
{
    let mut m: i64 = raw;
    let mut n: i64 = 0;
    while m >= 2 * ONE
        invariant
            0 < m,
            0 <= n,
            n + m <= raw,
            halved(raw as int, 0) == halved(m as int, n as int),
        decreases m,
    {
        m = m / 2;
        n += 1;
    }
    let ghost m0 = m as int;
    let ghost n0 = n as int;
    while m < ONE
        invariant
            0 < m < 2 * ONE,
            n0 - m <= n <= n0,
            0 <= n0,
            doubled(m0, n0) == doubled(m as int, n as int),
        decreases 2 * ONE - m,
    {
        m = 2 * m;
        n -= 1;
    }
    (m, n)
}

fn sin_raw(raw: i64) -> (r: Fixed)
    ensures
        r == sin_of(raw as int),
{
    let rest: u128 = mag(raw) % (TAU_RAW as u128);
    let turned: i64 = if raw < 0 && rest > 0 {
        TAU_RAW - rest as i64
    } else {
        rest as i64
    };
    proof {
        let m = magnitude(raw as int);
        let t = TAU_RAW as int;
        lemma_fundamental_div_mod(m, t);
        if raw < 0 {
            let q = m / t;
            let up = if rest > 0 {
                -q - 1
            } else {
                -q
            };
            assert(-m == up * t + turned) by (nonlinear_arith)
                requires
                    m == t * q + rest,
                    turned == (if rest > 0 {
                        t - rest
                    } else {
                        rest as int
                    }),
                    up == (if rest > 0 {
                        -q - 1
                    } else {
                        -q
                    }),
            ;
            lemma_fundamental_div_mod_converse(-m, t, up, turned as int);
        }
    }
    let angle: i64 = if turned > PI_RAW {
        turned - TAU_RAW
    } else {
        turned
    };
    let fold: i64 = if angle > HALF_PI_RAW {
        PI_RAW - angle
    } else if angle < -HALF_PI_RAW {
        -PI_RAW - angle
    } else {
        angle
    };
    let x: Fixed = saturate(fold as i128);
    let z2: Fixed = x.times(x);
    let mut term: Fixed = x;
    let mut sum: Fixed = x;
    let mut k: i64 = 1;
    while k <= SIN_TERMS
        invariant
            1 <= k <= SIN_TERMS + 1,
            sin_of(raw as int) == sin_series(z2, k as int, term, sum),
        decreases SIN_TERMS + 1 - k,
    {
        assert(0 < 2 * k * (2 * k + 1) <= 1000) by (nonlinear_arith)
            requires
                1 <= k <= 14,
        ;
        term = term.times(z2).over(Fixed::of_int(2 * k * (2 * k + 1))).negated();
        sum = sum.plus(term);
        k += 1;
    }
    sum
}

impl PrcFmt for Fixed {
    open spec fn s_int(n: int) -> Self {
        saturated(n * ONE)
    }

    open spec fn s_dec(digits: int, places: nat) -> Self {
        signed(digits < 0, tenths(magnitude(digits) * ONE, places))
    }

    open spec fn s_pi() -> Self {
        Fixed { raw: PI_RAW }
    }

    open spec fn s_add(self, rhs: Self) -> Self {
        saturated(self.raw + rhs.raw)
    }

    open spec fn s_sub(self, rhs: Self) -> Self {
        saturated(self.raw - rhs.raw)
    }

    open spec fn s_mul(self, rhs: Self) -> Self {
        signed(
            (self.raw < 0) != (rhs.raw < 0),
            magnitude(self.raw as int) * magnitude(rhs.raw as int) / (ONE as int),
        )
    }

    /// The quotient. Division by zero gives the limit on the side of the dividend.
    open spec fn s_div(self, rhs: Self) -> Self {
        if rhs.raw == 0 {
            signed(self.raw < 0, LIMIT as int)
        } else {
            signed(
                (self.raw < 0) != (rhs.raw < 0),
                magnitude(self.raw as int) * ONE / magnitude(rhs.raw as int),
            )
        }
    }

    open spec fn s_neg(self) -> Self {
        saturated(-(self.raw as int))
    }

    open spec fn s_abs(self) -> Self {
        saturated(magnitude(self.raw as int))
    }

    open spec fn s_max(self, rhs: Self) -> Self {
        if self.raw < rhs.raw {
            rhs
        } else {
            self
        }
    }

    open spec fn s_min(self, rhs: Self) -> Self {
        if rhs.raw < self.raw {
            rhs
        } else {
            self
        }
    }

    /// The square root. There is none below zero, where the result is zero.
    open spec fn s_sqrt(self) -> Self {
        saturated(isqrt(self.raw * ONE))
    }

    /// The exponential. That of a negative number is one over that of its magnitude, or zero where
    /// it is less than the last place.
    open spec fn s_exp(self) -> Self {
        if self.raw < EXP_FLOOR {
            saturated(0)
        } else if self.raw < 0 {
            Self::s_int(1).s_div(grown(self.s_abs()))
        } else {
            grown(self)
        }
    }

    /// The logarithm. At and below zero the result is the lower limit.
    open spec fn s_ln(self) -> Self {
        if self.raw <= 0 {
            saturated(-LIMIT)
        } else {
            ln_of(self.raw as int)
        }
    }

    open spec fn s_log10(self) -> Self {
        self.s_ln().s_div(Fixed { raw: LN_10_RAW })
    }

    /// A power: the exponential of the exponent times the logarithm. Of a base at or below zero it
    /// is zero.
    open spec fn s_pow(self, exponent: Self) -> Self {
        if self.raw <= 0 {
            saturated(0)
        } else {
            exponent.s_mul(self.s_ln()).s_exp()
        }
    }

    open spec fn s_sin(self) -> Self {
        sin_of(self.raw as int)
    }

    /// The tangent: the sine over the sine a quarter of a turn ahead.
    open spec fn s_tan(self) -> Self {
        sin_of(self.raw as int).s_div(sin_of(self.s_add(Fixed { raw: HALF_PI_RAW }).raw as int))
    }

    open spec fn s_lt(self, rhs: Self) -> bool {
        self.raw < rhs.raw
    }

    open spec fn s_le(self, rhs: Self) -> bool {
        self.raw <= rhs.raw
    }

    open spec fn s_eq(self, rhs: Self) -> bool {
        self.raw == rhs.raw
    }

    open spec fn s_finite(self) -> bool {
        true
    }

    proof fn lt_irreflexive(self) {
    }

    proof fn lt_transitive(self, b: Self, c: Self) {
    }

    proof fn le_excludes_gt(self, b: Self) {
    }

    proof fn max_not_below(self, b: Self) {
    }

    fn of_int(n: i64) -> (r: Self) {
        assert(-0x8000_0000_0000_0000_0000_0000 <= n * ONE <= 0x8000_0000_0000_0000_0000_0000);
        saturate(n as i128 * ONE as i128)
    }

    fn of_usize(n: usize) -> (r: Self) {
        let wide: u64 = n as u64;
        saturate(wide as i128 * ONE as i128)
    }

    fn decimal(digits: i64, places: u32) -> (r: Self) {
        let mut m: u128 = mag(digits) * (ONE as u128);
        let mut left: u32 = places;
        while left > 0
            invariant
                m <= 0x8000_0000_0000_0000_0000_0000,
                tenths(magnitude(digits as int) * ONE, places as nat) == tenths(
                    m as int,
                    left as nat,
                ),
            decreases left,
        {
            m = m / 10;
            left -= 1;
        }
        with_sign(digits < 0, m as i128)
    }

    fn pi() -> (r: Self) {
        Fixed { raw: PI_RAW }
    }

    fn plus(self, rhs: Self) -> (r: Self) {
        saturate(self.raw as i128 + rhs.raw as i128)
    }

    fn minus(self, rhs: Self) -> (r: Self) {
        saturate(self.raw as i128 - rhs.raw as i128)
    }

    fn times(self, rhs: Self) -> (r: Self) {
        let a: u128 = mag(self.raw);
        let b: u128 = mag(rhs.raw);
        assert(0 <= a * b <= 0x4000_0000_0000_0000_0000_0000_0000_0000) by (nonlinear_arith)
            requires
                0 <= a <= 0x8000_0000_0000_0000,
                0 <= b <= 0x8000_0000_0000_0000,
        ;
        let m: u128 = a * b / (ONE as u128);
        with_sign((self.raw < 0) != (rhs.raw < 0), m as i128)
    }

    fn over(self, rhs: Self) -> (r: Self) {
        if rhs.raw == 0 {
            with_sign(self.raw < 0, LIMIT as i128)
        } else {
            let top: u128 = mag(self.raw);
            assert(top * ONE <= 0x8000_0000_0000_0000_0000_0000);
            let a: u128 = top * (ONE as u128);
            let b: u128 = mag(rhs.raw);
            let m: u128 = a / b;
            assert(m <= a) by (nonlinear_arith)
                requires
                    m == a / b,
                    b >= 1,
                    a >= 0,
            ;
            with_sign((self.raw < 0) != (rhs.raw < 0), m as i128)
        }
    }

    fn negated(self) -> (r: Self) {
        saturate(-(self.raw as i128))
    }

    fn abs(self) -> (r: Self) {
        saturate(mag(self.raw) as i128)
    }

    fn max(self, rhs: Self) -> (r: Self) {
        if self.raw < rhs.raw {
            rhs
        } else {
            self
        }
    }

    fn min(self, rhs: Self) -> (r: Self) {
        if rhs.raw < self.raw {
            rhs
        } else {
            self
        }
    }

    fn sqrt(self) -> (r: Self) {
        if self.raw <= 0 {
            return Fixed { raw: 0 };
        }
        let n: u128 = self.raw as u128 * (ONE as u128);
        let r: u128 = isqrt_u128(n);
        proof {
            lemma_isqrt(n as int);
            assert(r <= n) by (nonlinear_arith)
                requires
                    0 <= r,
                    r * r <= n,
            ;
        }
        saturate(r as i128)
    }

    fn exp(self) -> (r: Self) {
        if self.raw < EXP_FLOOR {
            return saturate(0);
        }
        let one: Fixed = Fixed::of_int(1);
        let x: Fixed = if self.raw < 0 {
            self.abs()
        } else {
            self
        };
        let y: Fixed = x.over(Fixed::of_int(256));
        let mut term: Fixed = one;
        let mut sum: Fixed = one;
        let mut k: i64 = 1;
        while k <= EXP_TERMS
            invariant
                1 <= k <= EXP_TERMS + 1,
                exp_series(y, 1, Self::s_int(1), Self::s_int(1)) == exp_series(
                    y,
                    k as int,
                    term,
                    sum,
                ),
            decreases EXP_TERMS + 1 - k,
        {
            term = term.times(y).over(Fixed::of_int(k));
            sum = sum.plus(term);
            k += 1;
        }
        let ghost base = sum;
        let mut left: u32 = EXP_SQUARINGS;
        while left > 0
            invariant
                squared(base, EXP_SQUARINGS as nat) == squared(sum, left as nat),
            decreases left,
        {
            sum = sum.times(sum);
            left -= 1;
        }
        if self.raw < 0 {
            one.over(sum)
        } else {
            sum
        }
    }

    fn ln(self) -> (r: Self) {
        if self.raw <= 0 {
            return saturate(-(LIMIT as i128));
        }
        let (m, n): (i64, i64) = ln_parts(self.raw);
        let mantissa: Fixed = saturate(m as i128);
        let z: Fixed = mantissa.minus(Fixed::of_int(1)).over(mantissa.plus(Fixed::of_int(1)));
        let z2: Fixed = z.times(z);
        let mut power: Fixed = z;
        let mut sum: Fixed = z;
        let mut k: i64 = 1;
        while k <= LN_TERMS
            invariant
                1 <= k <= LN_TERMS + 1,
                atanh_series(z2, 1, z, z) == atanh_series(z2, k as int, power, sum),
            decreases LN_TERMS + 1 - k,
        {
            power = power.times(z2);
            sum = sum.plus(power.over(Fixed::of_int(2 * k + 1)));
            k += 1;
        }
        saturate(2 * (sum.raw as i128) + n as i128 * LN_2_RAW as i128)
    }

    fn log10(self) -> (r: Self) {
        self.ln().over(Fixed { raw: LN_10_RAW })
    }

    fn powf(self, exponent: Self) -> (r: Self) {
        if self.raw <= 0 {
            saturate(0)
        } else {
            exponent.times(self.ln()).exp()
        }
    }

    fn sin(self) -> (r: Self) {
        sin_raw(self.raw)
    }

    fn tan(self) -> (r: Self) {
        sin_raw(self.raw).over(sin_raw(self.plus(Fixed { raw: HALF_PI_RAW }).raw))
    }

    fn lt(self, rhs: Self) -> (r: bool) {
        self.raw < rhs.raw
    }

    fn le(self, rhs: Self) -> (r: bool) {
        self.raw <= rhs.raw
    }

    fn same(self, rhs: Self) -> (r: bool) {
        self.raw == rhs.raw
    }

    fn is_finite(self) -> (r: bool) {
        true
    }
}

/// A level is reported as it is.
impl Metered for Fixed {
    type Level = Fixed;

    open spec fn s_metered(self) -> Fixed {
        self
    }

    fn metered(self) -> (r: Fixed) {
        self
    }
}

} // verus!
