//! Exact rational conversion rates.
//!
//! A rate is kept as an unreduced fraction of two `u64` values, so the
//! compounded rate of a path is exactly the product of its edge fractions.
//! All comparisons cross-multiply in `u128`, which never overflows and is
//! independent of the representation: `14/10` and `7/5` compare equal.

use vstd::prelude::*;

verus! {

/// An exact positive rational conversion rate `num / den`.
#[derive(Clone, Copy, Debug, PartialEq, Eq, Structural)]
pub struct Rate {
    pub num: u64,
    pub den: u64,
}

/// `a <= b` as rationals, by cross-multiplication; sound because valid
/// denominators are positive.
pub open spec fn rat_le(a: Rate, b: Rate) -> bool {
    a.num * b.den <= b.num * a.den
}

/// `a < b` as rationals.
pub open spec fn rat_lt(a: Rate, b: Rate) -> bool {
    a.num * b.den < b.num * a.den
}

/// `a == b` as rationals: true of `14/10` and `7/5`.
pub open spec fn rat_eq(a: Rate, b: Rate) -> bool {
    a.num * b.den == b.num * a.den
}

impl Rate {
    /// A rate is meaningful only when both parts are non-zero: a zero
    /// numerator would be a zero rate, a zero denominator no number at all.
    pub open spec fn valid(self) -> bool {
        self.num >= 1 && self.den >= 1
    }

    /// The reciprocal rate `den / num`, the rate of the implicit reverse
    /// edge.
    pub open spec fn spec_inv(self) -> Rate {
        Rate { num: self.den, den: self.num }
    }

    pub fn new(num: u64, den: u64) -> (r: Rate)
        requires
            num >= 1,
            den >= 1,
        ensures
            r == (Rate { num, den }),
            r.valid(),
    {
        Rate { num, den }
    }

    /// The reciprocal rate.
    pub fn inv(&self) -> (r: Rate)
        ensures
            r == self.spec_inv(),
    {
        Rate { num: self.den, den: self.num }
    }

    /// Rational comparison `self <= other`.
    pub fn le(&self, other: &Rate) -> (r: bool)
        ensures
            r == rat_le(*self, *other),
    {
        proof {
            lemma_u64_mul_fits(self.num, other.den);
            lemma_u64_mul_fits(other.num, self.den);
        }
        (self.num as u128) * (other.den as u128) <= (other.num as u128) * (self.den as u128)
    }

    /// Rational comparison `self < other`.
    pub fn lt(&self, other: &Rate) -> (r: bool)
        ensures
            r == rat_lt(*self, *other),
    {
        proof {
            lemma_u64_mul_fits(self.num, other.den);
            lemma_u64_mul_fits(other.num, self.den);
        }
        (self.num as u128) * (other.den as u128) < (other.num as u128) * (self.den as u128)
    }

    /// Rational equality, independent of the representation.
    pub fn eq_rate(&self, other: &Rate) -> (r: bool)
        ensures
            r == rat_eq(*self, *other),
    {
        proof {
            lemma_u64_mul_fits(self.num, other.den);
            lemma_u64_mul_fits(other.num, self.den);
        }
        (self.num as u128) * (other.den as u128) == (other.num as u128) * (self.den as u128)
    }
}

/// The product of two `u64` values always fits in a `u128`.
pub proof fn lemma_u64_mul_fits(a: u64, b: u64) by (nonlinear_arith)
    ensures
        0 <= (a as int) * (b as int) <= u128::MAX,
{
}

/// Rational `<` with `<=` on its left composes to `<=`.
pub proof fn lemma_rat_le_lt_trans(a: Rate, b: Rate, c: Rate) by (nonlinear_arith)
    requires
        a.valid(),
        b.valid(),
        c.valid(),
        rat_le(a, b),
        rat_lt(b, c),
    ensures
        rat_le(a, c),
{
}

} // verus!
