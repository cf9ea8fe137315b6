//! Exact rational scalars used as blade coefficients.
//!
//! A `Rational` is a signed numerator over a positive denominator. No
//! reduction is performed: the arithmetic contracts state the exact numerator
//! and denominator of each result, and equality compares by cross
//! multiplication, so `4/4` and `1/1` are equal values.

use vstd::prelude::*;

verus! {

/// The product of two values in the `i64` range stays inside the `i128` range.
pub proof fn lemma_i64_mul_in_i128(a: int, b: int)
    by (nonlinear_arith)
    requires
        i64::MIN as int <= a <= i64::MAX as int,
        i64::MIN as int <= b <= i64::MAX as int,
    ensures
        -85070591730234615865843651857942052864 <= a * b
            <= 85070591730234615865843651857942052864,
{
}

/// A sharper bound when both factors avoid `i64::MIN`: the product stays
/// within `i64::MAX` squared, so two such products can be added in `i128`.
pub proof fn lemma_i64_mul_bound(a: int, b: int)
    by (nonlinear_arith)
    requires
        -(i64::MAX as int) <= a <= i64::MAX as int,
        -(i64::MAX as int) <= b <= i64::MAX as int,
    ensures
        -85070591730234615847396907784232501249 <= a * b
            <= 85070591730234615847396907784232501249,
{
}

/// Negation distributes over multiplication.
proof fn lemma_mul_neg(a: int, b: int)
    by (nonlinear_arith)
    ensures
        a * (-b) == -(a * b),
{
}

/// The product of two positive values is positive.
proof fn lemma_mul_pos(a: int, b: int)
    by (nonlinear_arith)
    requires
        a >= 1,
        b >= 1,
    ensures
        a * b >= 1,
{
}

/// An exact scalar `num / den` with `den > 0`.
#[derive(Debug, Clone, Copy)]
pub struct Rational {
    pub num: i64,
    pub den: i64,
}

impl Rational {
    /// Well-formed: positive denominator, and the numerator leaves room for
    /// exact negation.
    pub open spec fn wf(self) -> bool {
        &&& self.den > 0
        &&& self.num > i64::MIN
    }

    /// The value of `self` is exactly the ratio `n / d`.
    pub open spec fn is_ratio(self, n: int, d: int) -> bool {
        self.num * d == n * self.den
    }

    /// Two rationals denote the same value.
    pub open spec fn eqv(self, other: Rational) -> bool {
        self.num * other.den == other.num * self.den
    }

    pub fn new(num: i64, den: i64) -> (r: Rational)
        requires
            den > 0,
            num > i64::MIN,
        ensures
            r.num == num,
            r.den == den,
            r.wf(),
    {
        Rational { num, den }
    }

    pub fn from_int(n: i64) -> (r: Rational)
        requires
            n > i64::MIN,
        ensures
            r.num == n,
            r.den == 1,
            r.wf(),
    {
        Rational { num: n, den: 1 }
    }

    pub fn zero() -> (r: Rational)
        ensures
            r.num == 0,
            r.den == 1,
            r.wf(),
    {
        Rational { num: 0, den: 1 }
    }

    pub fn one() -> (r: Rational)
        ensures
            r.num == 1,
            r.den == 1,
            r.wf(),
    {
        Rational { num: 1, den: 1 }
    }

    /// Whether the value is exactly zero.
    pub fn is_zero(&self) -> (r: bool)
        ensures
            r == (self.num == 0),
    {
        self.num == 0
    }

    /// Exact negation.
    pub fn neg(&self) -> (r: Rational)
        requires
            self.wf(),
        ensures
            r.num == -self.num,
            r.den == self.den,
            r.wf(),
    {
        Rational { num: -self.num, den: self.den }
    }

    /// Exact multiplication by a factor drawn from {-1, 0, +1}, as produced
    /// by basis canonicalization.
    pub fn scale_sign(&self, f: i64) -> (r: Rational)
        requires
            self.wf(),
            -1 <= f <= 1,
        ensures
            r.num == self.num * f,
            r.den == self.den,
            r.wf(),
    {
        if f == 0 {
            proof {
                assert(self.num * 0 == 0) by (nonlinear_arith);
            }
            Rational { num: 0, den: self.den }
        } else if f == 1 {
            proof {
                assert(self.num * 1 == self.num) by (nonlinear_arith);
            }
            Rational { num: self.num, den: self.den }
        } else {
            proof {
                assert(self.num * -1 == -self.num) by (nonlinear_arith);
            }
            Rational { num: -self.num, den: self.den }
        }
    }

    /// Whether the product of two rationals fits the representation.
    pub open spec fn mul_fits(self, rhs: Rational) -> bool {
        &&& -(i64::MAX as int) <= self.num * rhs.num <= i64::MAX as int
        &&& self.den * rhs.den <= i64::MAX as int
    }

    /// Exact multiplication.
    pub fn mul(&self, rhs: &Rational) -> (r: Rational)
        requires
            self.wf(),
            rhs.wf(),
            self.mul_fits(*rhs),
        ensures
            r.num == self.num * rhs.num,
            r.den == self.den * rhs.den,
            r.wf(),
    {
        proof {
            lemma_i64_mul_in_i128(self.num as int, rhs.num as int);
            lemma_i64_mul_in_i128(self.den as int, rhs.den as int);
            lemma_mul_pos(self.den as int, rhs.den as int);
        }
        let n: i128 = (self.num as i128) * (rhs.num as i128);
        let d: i128 = (self.den as i128) * (rhs.den as i128);
        Rational { num: n as i64, den: d as i64 }
    }

    /// Whether the sum of two rationals fits the representation.
    pub open spec fn add_fits(self, rhs: Rational) -> bool {
        &&& -(i64::MAX as int) <= self.num * rhs.den + rhs.num * self.den <= i64::MAX as int
        &&& self.den * rhs.den <= i64::MAX as int
    }

    /// Exact addition over the product denominator.
    pub fn add(&self, rhs: &Rational) -> (r: Rational)
        requires
            self.wf(),
            rhs.wf(),
            self.add_fits(*rhs),
        ensures
            r.num == self.num * rhs.den + rhs.num * self.den,
            r.den == self.den * rhs.den,
            r.wf(),
    {
        proof {
            lemma_i64_mul_bound(self.num as int, rhs.den as int);
            lemma_i64_mul_bound(rhs.num as int, self.den as int);
            lemma_i64_mul_in_i128(self.den as int, rhs.den as int);
            lemma_mul_pos(self.den as int, rhs.den as int);
        }
        let n: i128 = (self.num as i128) * (rhs.den as i128) + (rhs.num as i128)
            * (self.den as i128);
        let d: i128 = (self.den as i128) * (rhs.den as i128);
        Rational { num: n as i64, den: d as i64 }
    }

    /// Whether the quotient of two rationals fits the representation.
    pub open spec fn div_fits(self, rhs: Rational) -> bool {
        &&& -(i64::MAX as int) <= self.num * rhs.den <= i64::MAX as int
        &&& -(i64::MAX as int) <= self.den * rhs.num <= i64::MAX as int
    }

    /// Exact division; the divisor must be nonzero.
    pub fn div(&self, rhs: &Rational) -> (r: Rational)
        requires
            self.wf(),
            rhs.wf(),
            rhs.num != 0,
            self.div_fits(*rhs),
        ensures
            rhs.num > 0 ==> r.num == self.num * rhs.den && r.den == self.den * rhs.num,
            rhs.num < 0 ==> r.num == -(self.num * rhs.den) && r.den == self.den * (-rhs.num),
            r.wf(),
    {
        proof {
            lemma_i64_mul_in_i128(self.num as int, rhs.den as int);
            lemma_i64_mul_in_i128(self.den as int, rhs.num as int);
            if rhs.num > 0 {
                lemma_mul_pos(self.den as int, rhs.num as int);
            } else {
                lemma_mul_pos(self.den as int, -(rhs.num as int));
                lemma_mul_neg(self.den as int, rhs.num as int);
            }
        }
        let n: i128 = (self.num as i128) * (rhs.den as i128);
        let d: i128 = (self.den as i128) * (rhs.num as i128);
        if rhs.num > 0 {
            Rational { num: n as i64, den: d as i64 }
        } else {
            Rational { num: (-n) as i64, den: (-d) as i64 }
        }
    }
}

impl PartialEq for Rational {
    /// Value equality by cross multiplication: `2/4 == 1/2`.
    fn eq(&self, other: &Rational) -> (r: bool) {
        proof {
            lemma_i64_mul_in_i128(self.num as int, other.den as int);
            lemma_i64_mul_in_i128(other.num as int, self.den as int);
        }
        (self.num as i128) * (other.den as i128) == (other.num as i128) * (self.den as i128)
    }
}

impl vstd::std_specs::cmp::PartialEqSpecImpl for Rational {
    open spec fn obeys_eq_spec() -> bool {
        true
    }

    open spec fn eq_spec(&self, other: &Rational) -> bool {
        self.eqv(*other)
    }
}

} // verus!
