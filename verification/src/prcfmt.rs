//! The processing format: the number type that every filter computes in.

use vstd::prelude::*;

verus! {

/// A number type that audio samples, coefficients and levels are held in.
///
/// Every operation comes twice: as a specification function (`s_..`) that names its result, and
/// as an executable method that returns the named value. Nothing is asked of the arithmetic but
/// that it is a function of its operands, so a format that rounds (fixed point, binary floating
/// point) serves as well as an exact one, and what is proved of a filter holds of the very values
/// that it computes. Of the order a few laws are asked that hold even where some values cannot be
/// compared.
///
/// The specification functions are for formats whose methods are verified; a format outside the
/// reach of the verifier leaves them at their defaults, of which nothing is known.
pub trait PrcFmt: Copy + Sized {
    /// The value that stands for the integer `n`.
    closed spec fn s_int(n: int) -> Self {
        arbitrary()
    }

    /// The value that stands for `digits / 10^places`.
    closed spec fn s_dec(digits: int, places: nat) -> Self {
        arbitrary()
    }

    /// The value that stands for the circle constant.
    closed spec fn s_pi() -> Self {
        arbitrary()
    }

    /// The sum.
    closed spec fn s_add(self, rhs: Self) -> Self {
        arbitrary()
    }

    /// The difference.
    closed spec fn s_sub(self, rhs: Self) -> Self {
        arbitrary()
    }

    /// The product.
    closed spec fn s_mul(self, rhs: Self) -> Self {
        arbitrary()
    }

    /// The quotient.
    closed spec fn s_div(self, rhs: Self) -> Self {
        arbitrary()
    }

    /// The negated value.
    closed spec fn s_neg(self) -> Self {
        arbitrary()
    }

    /// The magnitude.
    closed spec fn s_abs(self) -> Self {
        arbitrary()
    }

    /// The larger of the two.
    closed spec fn s_max(self, rhs: Self) -> Self {
        arbitrary()
    }

    /// The smaller of the two.
    closed spec fn s_min(self, rhs: Self) -> Self {
        arbitrary()
    }

    /// The square root.
    closed spec fn s_sqrt(self) -> Self {
        arbitrary()
    }

    /// The natural exponential.
    closed spec fn s_exp(self) -> Self {
        arbitrary()
    }

    /// The natural logarithm.
    closed spec fn s_ln(self) -> Self {
        arbitrary()
    }

    /// The logarithm to base ten.
    closed spec fn s_log10(self) -> Self {
        arbitrary()
    }

    /// `self` raised to `exponent`.
    closed spec fn s_pow(self, exponent: Self) -> Self {
        arbitrary()
    }

    /// The sine of an angle in radians.
    closed spec fn s_sin(self) -> Self {
        arbitrary()
    }

    /// The tangent of an angle in radians.
    closed spec fn s_tan(self) -> Self {
        arbitrary()
    }

    /// Whether `self` lies below `rhs`.
    closed spec fn s_lt(self, rhs: Self) -> bool {
        arbitrary()
    }

    /// Whether `self` lies at or below `rhs`.
    closed spec fn s_le(self, rhs: Self) -> bool {
        arbitrary()
    }

    /// Whether the two compare equal.
    closed spec fn s_eq(self, rhs: Self) -> bool {
        arbitrary()
    }

    /// Whether the value is a number, neither an infinity nor undefined.
    closed spec fn s_finite(self) -> bool {
        arbitrary()
    }

    /// No value lies below itself.
    proof fn lt_irreflexive(self)
        ensures
            !self.s_lt(self),
    ;

    /// What lies below a value that lies below a third one lies below that one too.
    proof fn lt_transitive(self, b: Self, c: Self)
        requires
            self.s_lt(b),
            b.s_lt(c),
        ensures
            self.s_lt(c),
    ;

    /// What lies at or below a value does not lie above it.
    proof fn le_excludes_gt(self, b: Self)
        requires
            self.s_le(b),
        ensures
            !b.s_lt(self),
    ;

    /// The larger of two values does not lie below the first.
    proof fn max_not_below(self, b: Self)
        ensures
            !self.s_max(b).s_lt(self),
    ;

    fn of_int(n: i64) -> (r: Self)
        ensures
            r == Self::s_int(n as int),
    ;

    fn of_usize(n: usize) -> (r: Self)
        ensures
            r == Self::s_int(n as int),
    ;

    fn decimal(digits: i64, places: u32) -> (r: Self)
        ensures
            r == Self::s_dec(digits as int, places as nat),
    ;

    fn pi() -> (r: Self)
        ensures
            r == Self::s_pi(),
    ;

    fn plus(self, rhs: Self) -> (r: Self)
        ensures
            r == self.s_add(rhs),
    ;

    fn minus(self, rhs: Self) -> (r: Self)
        ensures
            r == self.s_sub(rhs),
    ;

    fn times(self, rhs: Self) -> (r: Self)
        ensures
            r == self.s_mul(rhs),
    ;

    fn over(self, rhs: Self) -> (r: Self)
        ensures
            r == self.s_div(rhs),
    ;

    fn negated(self) -> (r: Self)
        ensures
            r == self.s_neg(),
    ;

    fn abs(self) -> (r: Self)
        ensures
            r == self.s_abs(),
    ;

    fn max(self, rhs: Self) -> (r: Self)
        ensures
            r == self.s_max(rhs),
    ;

    fn min(self, rhs: Self) -> (r: Self)
        ensures
            r == self.s_min(rhs),
    ;

    fn sqrt(self) -> (r: Self)
        ensures
            r == self.s_sqrt(),
    ;

    fn exp(self) -> (r: Self)
        ensures
            r == self.s_exp(),
    ;

    fn ln(self) -> (r: Self)
        ensures
            r == self.s_ln(),
    ;

    fn log10(self) -> (r: Self)
        ensures
            r == self.s_log10(),
    ;

    fn powf(self, exponent: Self) -> (r: Self)
        ensures
            r == self.s_pow(exponent),
    ;

    fn sin(self) -> (r: Self)
        ensures
            r == self.s_sin(),
    ;

    fn tan(self) -> (r: Self)
        ensures
            r == self.s_tan(),
    ;

    fn lt(self, rhs: Self) -> (r: bool)
        ensures
            r == self.s_lt(rhs),
    ;

    fn le(self, rhs: Self) -> (r: bool)
        ensures
            r == self.s_le(rhs),
    ;

    fn same(self, rhs: Self) -> (r: bool)
        ensures
            r == self.s_eq(rhs),
    ;

    fn is_finite(self) -> (r: bool)
        ensures
            r == self.s_finite(),
    ;
}

/// A number type whose values are reported as levels.
///
/// Levels are for a display, so they are computed in a format of their own, which may be coarser
/// than the one that audio is processed in.
pub trait Metered: PrcFmt {
    /// The format of a level.
    type Level: PrcFmt;

    /// The value in the format of a level.
    closed spec fn s_metered(self) -> Self::Level {
        arbitrary()
    }

    fn metered(self) -> (r: Self::Level)
        ensures
            r == self.s_metered(),
    ;
}

} // verus!
