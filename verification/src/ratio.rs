//! Exact rational numbers with bounded parts, used as the numeric domain of
//! the distributions.

use vstd::prelude::*;

verus! {

/// Largest magnitude allowed for the numerator and denominator of a `Ratio`
/// built by `Ratio::new`. Keeping the parts this small lets the distribution
/// formulas be evaluated exactly in 64-bit arithmetic without reduction.
pub const PART_LIMIT: i64 = 1048576;

/// The mathematical value of a `Ratio`: a fraction of two unbounded integers.
/// A `Rat` is meaningful as a rational number when its denominator is
/// positive; all comparisons are stated by cross-multiplication, so they are
/// total functions of the two fractions.
pub ghost struct Rat {
    pub num: int,
    pub den: int,
}

impl Rat {
    /// The fraction denotes a rational number: its denominator is positive.
    pub open spec fn valid(self) -> bool {
        0 < self.den
    }

    /// The fraction is valid and both parts are within `PART_LIMIT`.
    pub open spec fn small(self) -> bool {
        &&& 0 < self.den <= PART_LIMIT
        &&& -PART_LIMIT <= self.num <= PART_LIMIT
    }

    /// The two fractions denote the same rational number.
    pub open spec fn eqv(self, other: Rat) -> bool {
        self.num * other.den == other.num * self.den
    }

    /// `self <= other`, as rational numbers (for valid fractions).
    pub open spec fn le(self, other: Rat) -> bool {
        self.num * other.den <= other.num * self.den
    }

    /// `self < other`, as rational numbers (for valid fractions).
    pub open spec fn lt(self, other: Rat) -> bool {
        self.num * other.den < other.num * self.den
    }

    pub open spec fn plus(self, other: Rat) -> Rat {
        Rat {
            num: self.num * other.den + other.num * self.den,
            den: self.den * other.den,
        }
    }

    pub open spec fn minus(self, other: Rat) -> Rat {
        Rat {
            num: self.num * other.den - other.num * self.den,
            den: self.den * other.den,
        }
    }

    pub open spec fn times(self, other: Rat) -> Rat {
        Rat {
            num: self.num * other.num,
            den: self.den * other.den,
        }
    }

    pub open spec fn divided_by(self, other: Rat) -> Rat {
        Rat {
            num: self.num * other.den,
            den: self.den * other.num,
        }
    }

    pub open spec fn zero() -> Rat {
        Rat { num: 0, den: 1 }
    }

    pub open spec fn one() -> Rat {
        Rat { num: 1, den: 1 }
    }

    /// The fraction lies in the unit interval [0, 1].
    pub open spec fn in_unit(self) -> bool {
        &&& Rat::zero().le(self)
        &&& self.le(Rat::one())
    }

    /// What a random source must deliver: a small fraction in [0, 1).
    pub open spec fn is_unit_variate(self) -> bool {
        &&& self.small()
        &&& Rat::zero().le(self)
        &&& self.lt(Rat::one())
    }
}

/// An exact rational number `num / den`. The distributions use `Ratio` in
/// place of an inexact machine-number type, so that every formula of the
/// library can be stated and checked exactly.
#[derive(Clone, Copy, Debug)]
pub struct Ratio {
    pub num: i64,
    pub den: i64,
}

impl View for Ratio {
    type V = Rat;

    open spec fn view(&self) -> Rat {
        Rat { num: self.num as int, den: self.den as int }
    }
}

impl Ratio {
    /// Creates the rational number `num / den`.
    pub fn new(num: i64, den: i64) -> (r: Ratio)
        requires
            0 < den <= PART_LIMIT,
            -PART_LIMIT <= num <= PART_LIMIT,
        ensures
            r@ == (Rat { num: num as int, den: den as int }),
            r@.small(),
    {
        Ratio { num, den }
    }

    /// Whether `self <= other`, as rational numbers.
    pub fn le(&self, other: &Ratio) -> (r: bool)
        ensures
            r == self@.le(other@),
    {
        proof {
            lemma_i64_mul_fits_i128(self.num as int, other.den as int);
            lemma_i64_mul_fits_i128(other.num as int, self.den as int);
        }
        (self.num as i128) * (other.den as i128) <= (other.num as i128) * (self.den as i128)
    }

    /// Whether `self` and `other` denote the same rational number.
    pub fn eq_to(&self, other: &Ratio) -> (r: bool)
        ensures
            r == self@.eqv(other@),
    {
        proof {
            lemma_i64_mul_fits_i128(self.num as int, other.den as int);
            lemma_i64_mul_fits_i128(other.num as int, self.den as int);
        }
        (self.num as i128) * (other.den as i128) == (other.num as i128) * (self.den as i128)
    }
}

/// The magnitude of a product is bounded by the product of the bounds.
pub proof fn lemma_mul_bound(a: int, b: int, m: int, n: int)
    by (nonlinear_arith)
    requires
        -m <= a <= m,
        -n <= b <= n,
    ensures
        -(m * n) <= a * b <= m * n,
{
}

/// A product of two positive factors is positive.
pub proof fn lemma_mul_pos(a: int, b: int)
    by (nonlinear_arith)
    requires
        0 < a,
        0 < b,
    ensures
        0 < a * b,
{
}

/// Strict order of fractions, written by cross-multiplication, is carried
/// through a middle fraction (all denominators positive).
pub proof fn lemma_frac_lt_trans(n1: int, d1: int, n2: int, d2: int, n3: int, d3: int)
    by (nonlinear_arith)
    requires
        0 < d1,
        0 < d2,
        0 < d3,
        n1 * d2 < n2 * d1,
        n2 * d3 < n3 * d2,
    ensures
        n1 * d3 < n3 * d1,
{
}

/// Non-strict order of fractions is carried through a middle fraction (all
/// denominators positive).
pub proof fn lemma_frac_le_trans(n1: int, d1: int, n2: int, d2: int, n3: int, d3: int)
    by (nonlinear_arith)
    requires
        0 < d1,
        0 < d2,
        0 < d3,
        n1 * d2 <= n2 * d1,
        n2 * d3 <= n3 * d2,
    ensures
        n1 * d3 <= n3 * d1,
{
}

/// A strict step followed by a non-strict one keeps the strict order (all
/// denominators positive).
pub proof fn lemma_frac_lt_le_trans(n1: int, d1: int, n2: int, d2: int, n3: int, d3: int)
    by (nonlinear_arith)
    requires
        0 < d1,
        0 < d2,
        0 < d3,
        n1 * d2 < n2 * d1,
        n2 * d3 <= n3 * d2,
    ensures
        n1 * d3 < n3 * d1,
{
}

/// Two fractions that denote the same rational number compare the same way
/// against any third fraction (all denominators positive).
pub proof fn lemma_frac_le_subst(xn: int, xd: int, yn: int, yd: int, zn: int, zd: int)
    by (nonlinear_arith)
    requires
        0 < xd,
        0 < yd,
        0 < zd,
        xn * yd == yn * xd,
    ensures
        (zn * xd <= xn * zd) == (zn * yd <= yn * zd),
        (xn * zd <= zn * xd) == (yn * zd <= zn * yd),
{
}

/// Scaling both parts of a fraction by one factor keeps its value: the
/// plain and the scaled fraction cross-multiply equally.
pub proof fn lemma_frac_scale(n: int, d: int, k: int)
    by (nonlinear_arith)
    ensures
        n * (k * d) == (k * n) * d,
{
}

/// The product of two values in `i64` range fits in an `i128`.
proof fn lemma_i64_mul_fits_i128(a: int, b: int)
    by (nonlinear_arith)
    requires
        -0x8000_0000_0000_0000 <= a < 0x8000_0000_0000_0000,
        -0x8000_0000_0000_0000 <= b < 0x8000_0000_0000_0000,
    ensures
        -0x4000_0000_0000_0000_0000_0000_0000_0000 <= a * b
            <= 0x4000_0000_0000_0000_0000_0000_0000_0000,
{
}

} // verus!
