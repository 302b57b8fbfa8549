//! Exact rational ray parameters.
//!
//! A ray parameter `t` is kept as an integer fraction with a positive
//! denominator.  Comparisons are decided exactly by cross-multiplication;
//! the bound `FRAC_LIMIT` on numerator and denominator keeps every
//! cross-product inside `i128`.

use vstd::prelude::*;

verus! {

/// Largest magnitude allowed for a numerator or denominator: 2^62, so that a
/// cross-product of two well-formed fractions stays below 2^124 < i128::MAX.
pub const FRAC_LIMIT: i128 = 0x4000_0000_0000_0000;

/// A rational number `num / den` with `den > 0`.
#[derive(Clone, Copy, Debug, PartialEq, Eq, Structural)]
pub struct Frac {
    pub num: i128,
    pub den: i128,
}

/// `a <= b` as rationals: `a.num / a.den <= b.num / b.den`.
pub open spec fn frac_le(a: Frac, b: Frac) -> bool {
    a.num * b.den <= b.num * a.den
}

/// `a < b` as rationals.
pub open spec fn frac_lt(a: Frac, b: Frac) -> bool {
    a.num * b.den < b.num * a.den
}

/// `a == b` as rationals (equal value, possibly different representation).
pub open spec fn frac_eqv(a: Frac, b: Frac) -> bool {
    a.num * b.den == b.num * a.den
}

/// `|x| <= b`.
pub open spec fn abs_le(x: int, b: int) -> bool {
    -b <= x <= b
}

/// Bound on a product from bounds on its factors.
pub proof fn lemma_mul_abs_bound(x: int, y: int, bx: int, by: int)
    by (nonlinear_arith)
    requires
        abs_le(x, bx),
        abs_le(y, by),
    ensures
        abs_le(x * y, bx * by),
{
}

impl Frac {
    /// Well-formed: positive denominator, both parts bounded by `FRAC_LIMIT`.
    pub open spec fn wf(self) -> bool {
        0 < self.den <= FRAC_LIMIT && -FRAC_LIMIT <= self.num <= FRAC_LIMIT
    }

    /// The rational `num / den`, brought to a positive denominator.
    pub fn new(num: i128, den: i128) -> (r: Frac)
        requires
            den != 0,
            abs_le(num as int, FRAC_LIMIT as int),
            abs_le(den as int, FRAC_LIMIT as int),
        ensures
            r.wf(),
            r.num * den == num * r.den,
    {
        if den > 0 {
            Frac { num, den }
        } else {
            proof {
                assert((-(num as int)) * (den as int) == (num as int) * (-(den as int)))
                    by (nonlinear_arith);
            }
            Frac { num: -num, den: -den }
        }
    }

    /// The integer `i` as a fraction.
    pub fn from_int(i: i64) -> (r: Frac)
        requires
            abs_le(i as int, FRAC_LIMIT as int),
        ensures
            r.wf(),
            r.num == i as int,
            r.den == 1,
    {
        Frac { num: i as i128, den: 1 }
    }

    /// Exact comparison `self <= other`.
    pub fn le(&self, other: &Frac) -> (r: bool)
        requires
            self.wf(),
            other.wf(),
        ensures
            r == frac_le(*self, *other),
    {
        proof {
            lemma_mul_abs_bound(self.num as int, other.den as int, FRAC_LIMIT as int, FRAC_LIMIT as int);
            lemma_mul_abs_bound(other.num as int, self.den as int, FRAC_LIMIT as int, FRAC_LIMIT as int);
        }
        self.num * other.den <= other.num * self.den
    }

    /// Exact comparison `self < other`.
    pub fn lt(&self, other: &Frac) -> (r: bool)
        requires
            self.wf(),
            other.wf(),
        ensures
            r == frac_lt(*self, *other),
    {
        proof {
            lemma_mul_abs_bound(self.num as int, other.den as int, FRAC_LIMIT as int, FRAC_LIMIT as int);
            lemma_mul_abs_bound(other.num as int, self.den as int, FRAC_LIMIT as int, FRAC_LIMIT as int);
        }
        self.num * other.den < other.num * self.den
    }

    /// Exact value equality `self == other` (as rationals).
    pub fn eqv(&self, other: &Frac) -> (r: bool)
        requires
            self.wf(),
            other.wf(),
        ensures
            r == frac_eqv(*self, *other),
    {
        proof {
            lemma_mul_abs_bound(self.num as int, other.den as int, FRAC_LIMIT as int, FRAC_LIMIT as int);
            lemma_mul_abs_bound(other.num as int, self.den as int, FRAC_LIMIT as int, FRAC_LIMIT as int);
        }
        self.num * other.den == other.num * self.den
    }

    /// The smaller of two fractions (the first on ties).
    pub fn min(self, other: Frac) -> (r: Frac)
        requires
            self.wf(),
            other.wf(),
        ensures
            r.wf(),
            r == self || r == other,
            frac_le(r, self),
            frac_le(r, other),
    {
        if self.le(&other) {
            self
        } else {
            proof {
                lemma_frac_total(self, other);
            }
            other
        }
    }

    /// The larger of two fractions (the first on ties).
    pub fn max(self, other: Frac) -> (r: Frac)
        requires
            self.wf(),
            other.wf(),
        ensures
            r.wf(),
            r == self || r == other,
            frac_le(self, r),
            frac_le(other, r),
    {
        if other.le(&self) {
            self
        } else {
            proof {
                lemma_frac_total(other, self);
            }
            other
        }
    }
}

/// The rational order is total.
pub proof fn lemma_frac_total(a: Frac, b: Frac)
    requires
        a.den > 0,
        b.den > 0,
    ensures
        frac_le(a, b) || frac_le(b, a),
        frac_le(a, b) <==> !frac_lt(b, a),
{
}

/// The rational order is transitive.
pub proof fn lemma_frac_le_trans(a: Frac, b: Frac, c: Frac)
    by (nonlinear_arith)
    requires
        a.den > 0,
        b.den > 0,
        c.den > 0,
        frac_le(a, b),
        frac_le(b, c),
    ensures
        frac_le(a, c),
{
}

/// Transitivity with one strict side stays strict.
pub proof fn lemma_frac_lt_le_trans(a: Frac, b: Frac, c: Frac)
    by (nonlinear_arith)
    requires
        a.den > 0,
        b.den > 0,
        c.den > 0,
        frac_lt(a, b),
        frac_le(b, c),
    ensures
        frac_lt(a, c),
{
}

/// Transitivity with one strict side stays strict.
pub proof fn lemma_frac_le_lt_trans(a: Frac, b: Frac, c: Frac)
    by (nonlinear_arith)
    requires
        a.den > 0,
        b.den > 0,
        c.den > 0,
        frac_le(a, b),
        frac_lt(b, c),
    ensures
        frac_lt(a, c),
{
}

} // verus!
