//! A `Component` is a single canonical blade: an exact rational coefficient
//! times an ascending, duplicate-free sequence of basis vectors.

use vstd::prelude::*;

use crate::basis::ONBasis;
use crate::canon::{canon_bases, canon_factor, canonicalize, rev_sign, sorted_ids, sq_prod};
use crate::rational::Rational;

verus! {

/// A canonical blade: `mag` times the wedge of `bases`.
///
/// Build values with `new`, which canonicalizes; the algebra operations
/// always return canonical results.
#[derive(Debug, Clone)]
pub struct Component {
    /// The magnitude of the component.
    pub mag: Rational,
    /// The bases of the component, ascending by id and duplicate-free.
    pub bases: Vec<ONBasis>,
}

/// The sign that grade involution applies to a blade of grade `g`.
pub open spec fn inv_sign(g: nat) -> int {
    if g % 2 == 0 {
        1
    } else {
        -1
    }
}

/// The mathematical content of a component: the exact coefficient and the
/// basis sequence. Multivector contracts quantify over these views.
pub ghost struct CompView {
    pub num: int,
    pub den: int,
    pub bases: Seq<ONBasis>,
}

impl CompView {
    pub open spec fn grade(self) -> nat {
        self.bases.len()
    }

    /// The view of the zero component.
    pub open spec fn zero_cv() -> CompView {
        CompView { num: 0, den: 1, bases: Seq::empty() }
    }

    pub open spec fn wf(self) -> bool {
        &&& self.den > 0
        &&& self.num > i64::MIN as int
        &&& -(i64::MAX as int) <= self.num <= i64::MAX as int
        &&& self.den <= i64::MAX as int
        &&& sorted_ids(self.bases)
        &&& (self.num == 0 ==> self.bases.len() == 0 && self.den == 1)
    }
}

/// Some id occurs in both basis sequences.
pub open spec fn ids_overlap(a: Seq<ONBasis>, b: Seq<ONBasis>) -> bool {
    exists|i: int, j: int| 0 <= i < a.len() && 0 <= j < b.len() && a[i].id() == b[j].id()
}

/// Copies a basis vector list.
fn copy_bases(v: &Vec<ONBasis>) -> (r: Vec<ONBasis>)
    ensures
        r@ == v@,
{
    let mut r: Vec<ONBasis> = Vec::new();
    let mut i: usize = 0;
    while i < v.len()
        invariant
            i <= v@.len(),
            r@ == v@.take(i as int),
        decreases v@.len() - i,
    {
        r.push(v[i]);
        proof {
            assert(r@ =~= v@.take(i as int + 1));
        }
        i = i + 1;
    }
    proof {
        assert(v@.take(v@.len() as int) =~= v@);
    }
    r
}

/// Concatenates two basis vector lists.
fn concat_bases(a: &Vec<ONBasis>, b: &Vec<ONBasis>) -> (r: Vec<ONBasis>)
    ensures
        r@ == a@ + b@,
{
    let mut r = copy_bases(a);
    let mut i: usize = 0;
    while i < b.len()
        invariant
            i <= b@.len(),
            r@ == a@ + b@.take(i as int),
        decreases b@.len() - i,
    {
        r.push(b[i]);
        proof {
            assert(r@ =~= a@ + b@.take(i as int + 1));
        }
        i = i + 1;
    }
    proof {
        assert(a@ + b@.take(b@.len() as int) =~= a@ + b@);
    }
    r
}

/// `r` is exactly the geometric product of components `a` and `b`:
/// coefficients multiply and the concatenated bases canonicalize.
pub open spec fn is_geo_of(r: Component, a: Component, b: Component) -> bool {
    r.is_canon_of(
        a.mag.num * b.mag.num,
        a.mag.den * b.mag.den,
        a.bases@ + b.bases@,
    )
}

/// `r` is exactly the left contraction of `a` onto `b`: the geometric
/// product kept only when its grade is the grade of `b` minus the grade of
/// `a`, zero otherwise.
pub open spec fn is_left_cont_of(r: Component, a: Component, b: Component) -> bool {
    &&& (a.bases@.len() > b.bases@.len() ==> r.is_zero_comp())
    &&& (a.bases@.len() <= b.bases@.len() ==> {
        if canon_bases(a.bases@ + b.bases@).len() == b.bases@.len() - a.bases@.len() {
            is_geo_of(r, a, b)
        } else {
            r.is_zero_comp()
        }
    })
}

/// The exact numerator of the inverse of a blade with magnitude `m` and
/// bases `s`: reversion sign times square product times `m` flipped.
pub open spec fn inv_num(m: Rational, s: Seq<ONBasis>) -> int {
    rev_sign(s.len()) * sq_prod(s) * m.num * (m.den * m.den)
}

/// The exact denominator of the inverse of a blade with magnitude `m`.
pub open spec fn inv_den(m: Rational, s: Seq<ONBasis>) -> int {
    m.den * (m.num * m.num)
}

/// `c` is exactly the inverse blade of `a`: the same bases, scaled so that
/// the geometric product of `a` and `c` is the scalar one.
pub open spec fn is_inverse_of(c: Component, a: Component) -> bool {
    &&& c.bases@ == a.bases@
    &&& c.mag.num == inv_num(a.mag, a.bases@)
    &&& c.mag.den == inv_den(a.mag, a.bases@)
}

/// A blade is invertible when its coefficient is nonzero and no basis in it
/// squares to zero.
pub open spec fn invertible(a: Component) -> bool {
    a.mag.num != 0 && sq_prod(a.bases@) != 0
}

/// `c` is the `i`-th reciprocal vector of the blade `a`: the alternating
/// sign times `a` with its `i`-th basis factor removed, contracted onto the
/// inverse of `a`.
pub open spec fn is_reciprocal_of(c: Component, a: Component, i: int) -> bool {
    exists|ic: Component, m: Component|
        #![trigger is_inverse_of(ic, a), is_left_cont_of(c, m, ic)]
        is_inverse_of(ic, a) && m.bases@ == a.bases@.remove(i) && m.mag.num == crate::canon::pow_neg1(
            i,
        ) * a.mag.num && m.mag.den == a.mag.den && is_left_cont_of(c, m, ic)
}

impl Component {
    /// Canonical form: well-formed magnitude, strictly ascending basis ids,
    /// and the zero coefficient only in the distinguished zero shape.
    pub open spec fn wf(self) -> bool {
        &&& self.mag.wf()
        &&& sorted_ids(self.bases@)
        &&& (self.mag.num == 0 ==> self.bases@.len() == 0 && self.mag.den == 1)
    }

    /// The mathematical view of the component.
    pub open spec fn cv(self) -> CompView {
        CompView { num: self.mag.num as int, den: self.mag.den as int, bases: self.bases@ }
    }

    /// Builds a fresh component with the same view.
    pub fn duplicate(&self) -> (r: Component)
        ensures
            r.cv() == self.cv(),
            r.mag == self.mag,
            r.bases@ == self.bases@,
    {
        Component { mag: self.mag, bases: copy_bases(&self.bases) }
    }

    /// The negation of the component.
    pub fn negate(&self) -> (r: Component)
        requires
            self.wf(),
        ensures
            r.wf(),
            r.bases@ == self.bases@,
            r.mag.num == -self.mag.num,
            r.mag.den == self.mag.den,
    {
        Component { mag: self.mag.neg(), bases: copy_bases(&self.bases) }
    }

    /// The distinguished zero component: coefficient 0/1 and no bases.
    pub open spec fn is_zero_comp(self) -> bool {
        &&& self.mag.num == 0
        &&& self.mag.den == 1
        &&& self.bases@.len() == 0
    }

    /// `self` is exactly the canonicalization of coefficient `n / d` times
    /// the raw basis sequence `s`.
    pub open spec fn is_canon_of(self, n: int, d: int, s: Seq<ONBasis>) -> bool {
        if n * canon_factor(s) == 0 {
            self.is_zero_comp()
        } else {
            &&& self.bases@ == canon_bases(s)
            &&& self.mag.num == n * canon_factor(s)
            &&& self.mag.den == d
        }
    }

    /// The zero component.
    pub fn zero() -> (c: Component)
        ensures
            c.is_zero_comp(),
            c.wf(),
    {
        Component { mag: Rational::zero(), bases: Vec::new() }
    }

    /// Returns a default (zero) component.
    pub fn default() -> (c: Component)
        ensures
            c.is_zero_comp(),
            c.wf(),
    {
        Component::zero()
    }

    /// The grade of the component: how many bases it has.
    pub fn grade(&self) -> (g: usize)
        ensures
            g == self.bases@.len(),
    {
        self.bases.len()
    }

    /// A reference to the component's bases.
    pub fn bases(&self) -> (r: &Vec<ONBasis>)
        ensures
            r@ == self.bases@,
    {
        &self.bases
    }

    /// Creates a new component from a magnitude and a raw basis sequence,
    /// reordering and fusing duplicate bases into the canonical form.
    pub fn new(mag: Rational, bases: Vec<ONBasis>) -> (c: Component)
        requires
            mag.wf(),
        ensures
            c.is_canon_of(mag.num as int, mag.den as int, bases@),
            c.wf(),
    {
        let (f, bs) = canonicalize(&bases);
        let m = mag.scale_sign(f);
        if m.is_zero() {
            Component::zero()
        } else {
            Component { mag: m, bases: bs }
        }
    }

    /// Creates a grade-zero component from a scalar.
    pub fn from_scalar(rhs: Rational) -> (c: Component)
        requires
            rhs.wf(),
        ensures
            c.wf(),
            rhs.num == 0 ==> c.is_zero_comp(),
            rhs.num != 0 ==> c.mag == rhs && c.bases@.len() == 0,
    {
        if rhs.is_zero() {
            Component::zero()
        } else {
            Component { mag: rhs, bases: Vec::new() }
        }
    }

    /// Multiplies two components via the geometric product: coefficients
    /// multiply, the basis sequences concatenate and canonicalize.
    pub fn geo_product(&self, rhs: &Component) -> (r: Component)
        requires
            self.wf(),
            rhs.wf(),
            self.mag.mul_fits(rhs.mag),
        ensures
            is_geo_of(r, *self, *rhs),
            r.wf(),
    {
        let m = self.mag.mul(&rhs.mag);
        if m.is_zero() {
            proof {
                lemma_zero_mul(canon_factor(self.bases@ + rhs.bases@));
            }
            Component::zero()
        } else {
            let bs = concat_bases(&self.bases, &rhs.bases);
            Component::new(m, bs)
        }
    }

    /// The outer product: zero when the two components share a basis id,
    /// otherwise equal to the geometric product.
    pub fn outer_product(&self, rhs: &Component) -> (r: Component)
        requires
            self.wf(),
            rhs.wf(),
            self.mag.mul_fits(rhs.mag),
        ensures
            r.wf(),
            ids_overlap(self.bases@, rhs.bases@) ==> r.is_zero_comp(),
            !ids_overlap(self.bases@, rhs.bases@) ==> is_geo_of(r, *self, *rhs),
    {
        if bases_overlap(&self.bases, &rhs.bases) {
            Component::zero()
        } else {
            self.geo_product(rhs)
        }
    }

    /// The reverse of the blade: the coefficient picks up the grade pattern
    /// `+ + - -`.
    pub fn reversion(&self) -> (r: Component)
        requires
            self.wf(),
        ensures
            r.wf(),
            r.bases@ == self.bases@,
            r.mag.den == self.mag.den,
            r.mag.num == rev_sign(self.bases@.len()) * self.mag.num,
    {
        let f: i64 = if (self.bases.len() / 2) % 2 == 0 {
            1
        } else {
            -1
        };
        let m = self.mag.scale_sign(f);
        proof {
            lemma_sign_commute(self.mag.num as int, f as int);
        }
        Component { mag: m, bases: copy_bases(&self.bases) }
    }

    /// Grade involution: the coefficient is multiplied by `(-1)^grade`.
    pub fn involution(&self) -> (r: Component)
        requires
            self.wf(),
        ensures
            r.wf(),
            r.bases@ == self.bases@,
            r.mag.den == self.mag.den,
            r.mag.num == inv_sign(self.bases@.len()) * self.mag.num,
    {
        let f: i64 = if self.bases.len() % 2 == 0 {
            1
        } else {
            -1
        };
        let m = self.mag.scale_sign(f);
        proof {
            lemma_sign_commute(self.mag.num as int, f as int);
        }
        Component { mag: m, bases: copy_bases(&self.bases) }
    }

    /// Multiplies the component by a scalar.
    pub fn scalar_mult(&self, rhs: Rational) -> (r: Component)
        requires
            self.wf(),
            rhs.wf(),
            self.mag.mul_fits(rhs),
        ensures
            r.wf(),
            self.mag.num * rhs.num == 0 ==> r.is_zero_comp(),
            self.mag.num * rhs.num != 0 ==> {
                &&& r.bases@ == self.bases@
                &&& r.mag.num == self.mag.num * rhs.num
                &&& r.mag.den == self.mag.den * rhs.den
            },
    {
        let m = self.mag.mul(&rhs);
        if m.is_zero() {
            Component::zero()
        } else {
            Component { mag: m, bases: copy_bases(&self.bases) }
        }
    }

    /// Adds two components that share the same basis sequence; `None` when
    /// the bases differ. A sum that reaches zero collapses to the zero
    /// component.
    pub fn force_comp_add(&self, rhs: &Component) -> (r: Option<Component>)
        requires
            self.wf(),
            rhs.wf(),
            self.mag.add_fits(rhs.mag),
        ensures
            r is Some <==> self.bases@ == rhs.bases@,
            match r {
                Some(c) => {
                    &&& c.wf()
                    &&& if self.mag.num * rhs.mag.den + rhs.mag.num * self.mag.den == 0 {
                        c.is_zero_comp()
                    } else {
                        &&& c.bases@ == self.bases@
                        &&& c.mag.num == self.mag.num * rhs.mag.den + rhs.mag.num * self.mag.den
                        &&& c.mag.den == self.mag.den * rhs.mag.den
                    }
                },
                None => true,
            },
    {
        if !bases_equal(&self.bases, &rhs.bases) {
            return None;
        }
        let m = self.mag.add(&rhs.mag);
        if m.is_zero() {
            Some(Component::zero())
        } else {
            Some(Component { mag: m, bases: copy_bases(&self.bases) })
        }
    }

    /// Checks whether two components carry exactly the same bases.
    pub fn same_bases(&self, other: &Component) -> (r: bool)
        ensures
            r == (self.bases@ == other.bases@),
    {
        bases_equal(&self.bases, &other.bases)
    }

    /// Left contraction: the geometric product kept only when its grade is
    /// exactly the right grade minus the left grade, zero otherwise.
    pub fn left_cont(&self, rhs: &Component) -> (r: Component)
        requires
            self.wf(),
            rhs.wf(),
            self.mag.mul_fits(rhs.mag),
        ensures
            r.wf(),
            is_left_cont_of(r, *self, *rhs),
    {
        if self.bases.len() > rhs.bases.len() {
            return Component::zero();
        }
        let result = self.geo_product(rhs);
        if result.grade() == rhs.bases.len() - self.bases.len() {
            result
        } else {
            Component::zero()
        }
    }

    /// Right contraction: the mirror image of left contraction.
    pub fn right_cont(&self, rhs: &Component) -> (r: Component)
        requires
            self.wf(),
            rhs.wf(),
            self.mag.mul_fits(rhs.mag),
        ensures
            r.wf(),
            self.bases@.len() < rhs.bases@.len() ==> r.is_zero_comp(),
            self.bases@.len() >= rhs.bases@.len() ==> {
                if canon_bases(self.bases@ + rhs.bases@).len() == self.bases@.len()
                    - rhs.bases@.len() {
                    is_geo_of(r, *self, *rhs)
                } else {
                    r.is_zero_comp()
                }
            },
    {
        if self.bases.len() < rhs.bases.len() {
            return Component::zero();
        }
        let result = self.geo_product(rhs);
        if result.grade() == self.bases.len() - rhs.bases.len() {
            result
        } else {
            Component::zero()
        }
    }

    /// The inner product as a component: the geometric product when its
    /// grade is zero, the zero component otherwise.
    pub fn inner_product(&self, rhs: &Component) -> (r: Component)
        requires
            self.wf(),
            rhs.wf(),
            self.mag.mul_fits(rhs.mag),
        ensures
            r.wf(),
            canon_bases(self.bases@ + rhs.bases@).len() == 0 ==> is_geo_of(r, *self, *rhs),
            canon_bases(self.bases@ + rhs.bases@).len() != 0 ==> r.is_zero_comp(),
    {
        let result = self.geo_product(rhs);
        if result.grade() > 0 {
            Component::zero()
        } else {
            result
        }
    }

    /// The inner product as a scalar: the coefficient of the grade-zero
    /// part of the geometric product.
    pub fn inner_product_scalar(&self, rhs: &Component) -> (r: Rational)
        requires
            self.wf(),
            rhs.wf(),
            self.mag.mul_fits(rhs.mag),
        ensures
            r.wf(),
            canon_bases(self.bases@ + rhs.bases@).len() == 0 ==> {
                &&& r.num == self.mag.num * rhs.mag.num * canon_factor(self.bases@ + rhs.bases@)
                &&& r.num != 0 ==> r.den == self.mag.den * rhs.mag.den
            },
            canon_bases(self.bases@ + rhs.bases@).len() != 0 ==> r.num == 0,
    {
        let result = self.geo_product(rhs);
        if result.grade() > 0 {
            Rational::zero()
        } else {
            proof {
                if self.mag.num * rhs.mag.num * canon_factor(self.bases@ + rhs.bases@) == 0 {
                } else {
                    lemma_mul_assoc3(
                        self.mag.num as int,
                        rhs.mag.num as int,
                        canon_factor(self.bases@ + rhs.bases@),
                    );
                }
            }
            result.mag
        }
    }

    /// The scalar product of two blades: the same grade-zero selection as
    /// the scalar inner product.
    pub fn scalar_product(&self, rhs: &Component) -> (r: Rational)
        requires
            self.wf(),
            rhs.wf(),
            self.mag.mul_fits(rhs.mag),
        ensures
            r.wf(),
            canon_bases(self.bases@ + rhs.bases@).len() == 0 ==> {
                &&& r.num == self.mag.num * rhs.mag.num * canon_factor(self.bases@ + rhs.bases@)
                &&& r.num != 0 ==> r.den == self.mag.den * rhs.mag.den
            },
            canon_bases(self.bases@ + rhs.bases@).len() != 0 ==> r.num == 0,
    {
        self.inner_product_scalar(rhs)
    }

    /// The squared norm: the scalar part of the blade times its own
    /// reversion, which comes to the squared coefficient times the product
    /// of the basis squares.
    pub fn norm_sqrd(&self) -> (r: Rational)
        requires
            self.wf(),
            self.mag.mul_fits(self.mag),
        ensures
            r.wf(),
            r.num == self.mag.num * self.mag.num * sq_prod(self.bases@),
            r.num != 0 ==> r.den == self.mag.den * self.mag.den,
    {
        let rev = self.reversion();
        proof {
            let rs = rev_sign(self.bases@.len());
            assert(self.mag.mul_fits(rev.mag) && (-(i64::MAX as int) <= self.mag.num * rev.mag.num
                <= i64::MAX as int)) by (nonlinear_arith)
                requires
                    rs == 1 || rs == -1,
                    rev.mag.num == rs * self.mag.num,
                    rev.mag.den == self.mag.den,
                    self.mag.mul_fits(self.mag),
            ;
            crate::canon::lemma_canon_self(self.bases@);
            assert(self.bases@ + rev.bases@ == self.bases@ + self.bases@);
        }
        let r = self.inner_product_scalar(&rev);
        proof {
            let rs = rev_sign(self.bases@.len());
            let sq = sq_prod(self.bases@);
            assert(self.mag.num * (rs * self.mag.num) * (rs * sq) == self.mag.num * self.mag.num
                * sq) by (nonlinear_arith)
                requires
                    rs == 1 || rs == -1,
            ;
        }
        r
    }

    /// Whether the intermediate products of `inverse` fit the
    /// representation: a machine limit on the coefficient, not a property of
    /// the algebra.
    pub open spec fn inverse_fits(self) -> bool {
        &&& -(i64::MAX as int) <= self.mag.num * (self.mag.den * self.mag.den) <= i64::MAX as int
        &&& self.mag.den * (self.mag.num * self.mag.num) <= i64::MAX as int
        &&& self.mag.mul_fits(self.mag)
    }

    /// The inverse blade: the reversion divided by the squared norm. `None`
    /// exactly when the blade is degenerate (zero coefficient or a basis
    /// squaring to zero), where no inverse exists.
    pub fn inverse(&self) -> (r: Option<Component>)
        requires
            self.wf(),
            self.inverse_fits(),
        ensures
            r is Some <==> invertible(*self),
            match r {
                Some(c) => c.wf() && is_inverse_of(c, *self),
                None => true,
            },
    {
        let nsq = self.norm_sqrd();
        proof {
            assert(self.mag.num * self.mag.num * sq_prod(self.bases@) == 0 <==> (self.mag.num == 0
                || sq_prod(self.bases@) == 0)) by (nonlinear_arith);
        }
        if nsq.is_zero() {
            None
        } else {
            let rev = self.reversion();
            proof {
                let n = self.mag.num as int;
                let d = self.mag.den as int;
                let rs = rev_sign(self.bases@.len());
                let sq = sq_prod(self.bases@);
                crate::canon::lemma_sq_prod_range(self.bases@);
                assert(rev.mag.div_fits(nsq) && nsq.num != 0) by (nonlinear_arith)
                    requires
                        rs == 1 || rs == -1,
                        sq == 1 || sq == -1,
                        rev.mag.num == rs * n,
                        rev.mag.den == d,
                        nsq.num == n * n * sq,
                        nsq.den == d * d,
                        n != 0,
                        d > 0,
                        -(i64::MAX as int) <= n * (d * d) <= i64::MAX as int,
                        d * (n * n) <= i64::MAX as int,
                ;
            }
            let m = rev.mag.div(&nsq);
            proof {
                let n = self.mag.num as int;
                let d = self.mag.den as int;
                let rs = rev_sign(self.bases@.len());
                let sq = sq_prod(self.bases@);
                assert(m.num == rs * sq * n * (d * d) && m.den == d * (n * n) && m.num != 0)
                    by (nonlinear_arith)
                    requires
                        rs == 1 || rs == -1,
                        sq == 1 || sq == -1,
                        n != 0,
                        d > 0,
                        nsq.num == n * n * sq,
                        nsq.den == d * d,
                        rev.mag.num == rs * n,
                        rev.mag.den == d,
                        nsq.num > 0 ==> m.num == rev.mag.num * nsq.den && m.den == rev.mag.den
                            * nsq.num,
                        nsq.num < 0 ==> m.num == -(rev.mag.num * nsq.den) && m.den == rev.mag.den
                            * (-nsq.num),
                ;
            }
            Some(Component { mag: m, bases: rev.bases })
        }
    }

    /// Whether the coefficient products of a contraction by the inverse of
    /// `i` fit the representation.
    pub open spec fn by_inverse_fits(self, i: Component) -> bool {
        &&& -(i64::MAX as int) <= self.mag.num * inv_num(i.mag, i.bases@) <= i64::MAX as int
        &&& self.mag.den * inv_den(i.mag, i.bases@) <= i64::MAX as int
    }

    /// The dual of the component with respect to the pseudoscalar `i`: the
    /// left contraction onto the inverse of `i`. `None` exactly when `i` is
    /// degenerate.
    pub fn dual(&self, i: &Component) -> (r: Option<Component>)
        requires
            self.wf(),
            i.wf(),
            i.inverse_fits(),
            self.by_inverse_fits(*i),
        ensures
            r is Some <==> invertible(*i),
            match r {
                Some(c) => c.wf() && exists|ic: Component|
                    #[trigger] is_inverse_of(ic, *i) && is_left_cont_of(c, *self, ic),
                None => true,
            },
    {
        let iinv = match i.inverse() {
            Some(c) => c,
            None => {
                return None;
            },
        };
        let r = self.left_cont(&iinv);
        proof {
            let ghost ic = iinv;
            assert(is_inverse_of(ic, *i) && is_left_cont_of(r, *self, ic));
        }
        Some(r)
    }

    /// The undual: the left contraction onto the pseudoscalar itself, so
    /// that dualizing and undualizing by the same pseudoscalar returns the
    /// original blade.
    pub fn undual(&self, i: &Component) -> (r: Component)
        requires
            self.wf(),
            i.wf(),
            self.mag.mul_fits(i.mag),
        ensures
            r.wf(),
            is_left_cont_of(r, *self, *i),
    {
        self.left_cont(i)
    }

    /// Whether the chained coefficient products of `project_onto` fit the
    /// representation.
    pub open spec fn project_fits(self, b: Component) -> bool {
        &&& -(i64::MAX as int) <= (self.mag.num * inv_num(b.mag, b.bases@)) * b.mag.num
            <= i64::MAX as int
        &&& (self.mag.den * inv_den(b.mag, b.bases@)) * b.mag.den <= i64::MAX as int
    }

    /// Projects the blade onto another blade: contract by the inverse of
    /// `rhs`, then contract the result onto `rhs`. `None` exactly when `rhs`
    /// is degenerate.
    pub fn project_onto(&self, rhs: &Component) -> (r: Option<Component>)
        requires
            self.wf(),
            rhs.wf(),
            rhs.inverse_fits(),
            self.by_inverse_fits(*rhs),
            self.project_fits(*rhs),
        ensures
            r is Some <==> invertible(*rhs),
            match r {
                Some(c) => c.wf() && exists|binv: Component, t: Component|
                    #![trigger is_inverse_of(binv, *rhs), is_left_cont_of(t, *self, binv)]
                    is_inverse_of(binv, *rhs) && is_left_cont_of(t, *self, binv)
                        && is_left_cont_of(c, t, *rhs),
                None => true,
            },
    {
        let binv = match rhs.inverse() {
            Some(c) => c,
            None => {
                return None;
            },
        };
        let t = self.left_cont(&binv);
        proof {
            let x = self.mag.num * binv.mag.num;
            let y = self.mag.den * binv.mag.den;
            if t.is_zero_comp() && !(t.mag.num == x * canon_factor(self.bases@ + binv.bases@)
                && t.mag.den == y) {
                assert(t.mag.mul_fits(rhs.mag)) by (nonlinear_arith)
                    requires
                        t.mag.num == 0,
                        t.mag.den == 1,
                        rhs.mag.den <= i64::MAX as int,
                ;
            } else {
                let f = canon_factor(self.bases@ + binv.bases@);
                crate::canon::lemma_canon_sorted(self.bases@ + binv.bases@);
                assert(t.mag.mul_fits(rhs.mag)) by (nonlinear_arith)
                    requires
                        t.mag.num == x * f,
                        t.mag.den == y,
                        -1 <= f <= 1,
                        -(i64::MAX as int) <= x * rhs.mag.num <= i64::MAX as int,
                        y * rhs.mag.den <= i64::MAX as int,
                ;
            }
        }
        let r = t.left_cont(rhs);
        Some(r)
    }

    /// Treats the component as the pseudoscalar of a subspace and returns
    /// its `i`-th reciprocal vector: the alternating sign times the blade
    /// with its `i`-th basis removed, contracted onto the inverse. The zero
    /// component when `i` is out of range; `None` exactly when the blade is
    /// degenerate.
    pub fn reciprocal_frame(&self, i: usize) -> (r: Option<Component>)
        requires
            self.wf(),
            self.inverse_fits(),
            self.by_inverse_fits(*self),
        ensures
            i >= self.bases@.len() ==> match r {
                Some(c) => c.is_zero_comp(),
                None => false,
            },
            i < self.bases@.len() ==> (r is Some <==> invertible(*self)),
            i < self.bases@.len() ==> match r {
                Some(c) => c.wf() && is_reciprocal_of(c, *self, i as int),
                None => true,
            },
    {
        if i >= self.bases.len() {
            return Some(Component::zero());
        }
        let sinv = match self.inverse() {
            Some(c) => c,
            None => {
                return None;
            },
        };
        let mut rb = copy_bases(&self.bases);
        rb.remove(i);
        let f: i64 = if i % 2 == 0 {
            1
        } else {
            -1
        };
        let m = self.mag.scale_sign(f);
        proof {
            lemma_sign_commute(self.mag.num as int, f as int);
            assert forall|p: int, q: int| 0 <= p < q < rb@.len() implies rb@[p].id()
                < rb@[q].id() by {
                let sp: int = if p < i {
                    p
                } else {
                    p + 1
                };
                let sq: int = if q < i {
                    q
                } else {
                    q + 1
                };
                assert(rb@[p] == self.bases@[sp]);
                assert(rb@[q] == self.bases@[sq]);
            }
            assert(self.mag.num != 0);
            assert(m.num != 0) by (nonlinear_arith)
                requires
                    m.num == f * self.mag.num,
                    self.mag.num != 0,
                    f == 1 || f == -1,
            ;
        }
        let base_comp = Component { mag: m, bases: rb };
        proof {
            assert(base_comp.mag.mul_fits(sinv.mag)) by (nonlinear_arith)
                requires
                    base_comp.mag.num == f * self.mag.num,
                    base_comp.mag.den == self.mag.den,
                    f == 1 || f == -1,
                    sinv.mag.num == inv_num(self.mag, self.bases@),
                    sinv.mag.den == inv_den(self.mag, self.bases@),
                    -(i64::MAX as int) <= self.mag.num * inv_num(self.mag, self.bases@)
                        <= i64::MAX as int,
                    self.mag.den * inv_den(self.mag, self.bases@) <= i64::MAX as int,
            ;
        }
        let r = base_comp.left_cont(&sinv);
        proof {
            assert(is_reciprocal_of(r, *self, i as int)) by {
                assert(is_inverse_of(sinv, *self) && is_left_cont_of(r, base_comp, sinv));
                assert(base_comp.bases@ == self.bases@.remove(i as int));
                assert(base_comp.mag.num == crate::canon::pow_neg1(i as int) * self.mag.num);
            }
        }
        Some(r)
    }
}

impl PartialEq for Component {
    /// Components are equal when their coefficients denote the same value
    /// and their bases agree exactly.
    fn eq(&self, other: &Component) -> (r: bool) {
        self.mag == other.mag && bases_equal(&self.bases, &other.bases)
    }
}

impl vstd::std_specs::cmp::PartialEqSpecImpl for Component {
    open spec fn obeys_eq_spec() -> bool {
        true
    }

    open spec fn eq_spec(&self, other: &Component) -> bool {
        self.mag.eqv(other.mag) && self.bases@ == other.bases@
    }
}

/// Zero times anything is zero.
proof fn lemma_zero_mul(f: int)
    by (nonlinear_arith)
    ensures
        0 * f == 0,
{
}

/// A sign factor commutes with the value it scales.
pub proof fn lemma_sign_commute(n: int, f: int)
    by (nonlinear_arith)
    ensures
        n * f == f * n,
{
}

/// Three-way products associate.
proof fn lemma_mul_assoc3(a: int, b: int, c: int)
    by (nonlinear_arith)
    ensures
        a * b * c == (a * b) * c,
        a * b * c != 0 ==> a * b != 0,
{
}

/// Checks whether two basis lists hold exactly the same entries.
fn bases_equal(a: &Vec<ONBasis>, b: &Vec<ONBasis>) -> (r: bool)
    ensures
        r == (a@ == b@),
{
    if a.len() != b.len() {
        proof {
            assert(a@.len() != b@.len());
        }
        return false;
    }
    let mut i: usize = 0;
    while i < a.len()
        invariant
            i <= a@.len(),
            a@.len() == b@.len(),
            forall|k: int| 0 <= k < i ==> a@[k] == b@[k],
        decreases a@.len() - i,
    {
        if a[i].unwrap() != b[i].unwrap() {
            return false;
        }
        let same = match (a[i], b[i]) {
            (ONBasis::P(_), ONBasis::P(_)) => true,
            (ONBasis::Z(_), ONBasis::Z(_)) => true,
            (ONBasis::N(_), ONBasis::N(_)) => true,
            _ => false,
        };
        if !same {
            return false;
        }
        i = i + 1;
    }
    proof {
        assert(a@ =~= b@);
    }
    true
}

/// Checks whether two basis lists share an id.
fn bases_overlap(a: &Vec<ONBasis>, b: &Vec<ONBasis>) -> (r: bool)
    ensures
        r == ids_overlap(a@, b@),
{
    let mut i: usize = 0;
    while i < a.len()
        invariant
            i <= a@.len(),
            forall|p: int, q: int|
                0 <= p < i && 0 <= q < b@.len() ==> a@[p].id() != b@[q].id(),
        decreases a@.len() - i,
    {
        let mut j: usize = 0;
        while j < b.len()
            invariant
                i < a@.len(),
                j <= b@.len(),
                forall|q: int| 0 <= q < j ==> a@[i as int].id() != b@[q].id(),
            decreases b@.len() - j,
        {
            if a[i].unwrap() == b[j].unwrap() {
                return true;
            }
            j = j + 1;
        }
        i = i + 1;
    }
    false
}

} // verus!
