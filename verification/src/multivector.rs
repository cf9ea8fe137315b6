//! A `Multivector` is a sum of components kept sorted by ascending grade.

use vstd::prelude::*;

use crate::basis::ONBasis;
use crate::canon::{canon_bases, canon_factor};
use crate::component::{ids_overlap, is_geo_of, CompView, Component};
use crate::rational::Rational;

verus! {

/// The mathematical views of a component list.
pub open spec fn views(s: Seq<Component>) -> Seq<CompView> {
    s.map_values(|c: Component| c.cv())
}

pub proof fn lemma_views_push(x: Seq<Component>, c: Component)
    ensures
        views(x.push(c)) == views(x).push(c.cv()),
{
    assert(views(x.push(c)) =~= views(x).push(c.cv()));
}

pub proof fn lemma_views_insert(x: Seq<Component>, j: int, c: Component)
    requires
        0 <= j <= x.len(),
    ensures
        views(x.insert(j, c)) == views(x).insert(j, c.cv()),
{
    assert(views(x.insert(j, c)) =~= views(x).insert(j, c.cv()));
}

pub proof fn lemma_views_remove(x: Seq<Component>, j: int)
    requires
        0 <= j < x.len(),
    ensures
        views(x.remove(j)) == views(x).remove(j),
{
    assert(views(x.remove(j)) =~= views(x).remove(j));
}

/// Non-strictly ascending grades.
pub open spec fn grade_sorted(s: Seq<CompView>) -> bool {
    forall|i: int, j: int| 0 <= i < j < s.len() ==> s[i].grade() <= s[j].grade()
}

/// The first index holding a grade at least `g`, or the length.
pub open spec fn first_ge(g: nat, s: Seq<CompView>) -> int
    decreases s.len(),
{
    if s.len() == 0 {
        0
    } else if s[0].grade() >= g {
        0
    } else {
        1 + first_ge(g, s.skip(1))
    }
}

/// The first index holding a grade strictly above `g`, or the length.
pub open spec fn first_gt(g: nat, s: Seq<CompView>) -> int
    decreases s.len(),
{
    if s.len() == 0 {
        0
    } else if s[0].grade() > g {
        0
    } else {
        1 + first_gt(g, s.skip(1))
    }
}

/// Stable insertion before any component of equal grade.
pub open spec fn insert_sorted(c: CompView, s: Seq<CompView>) -> Seq<CompView> {
    s.insert(first_ge(c.grade(), s), c)
}

/// The stable sort of a component list by ascending grade.
pub open spec fn sort_by_grade(s: Seq<CompView>) -> Seq<CompView>
    decreases s.len(),
{
    if s.len() == 0 {
        s
    } else {
        insert_sorted(s[0], sort_by_grade(s.skip(1)))
    }
}

pub proof fn lemma_first_ge_bounds(g: nat, s: Seq<CompView>)
    ensures
        0 <= first_ge(g, s) <= s.len(),
        forall|k: int| 0 <= k < first_ge(g, s) ==> s[k].grade() < g,
        first_ge(g, s) < s.len() ==> s[first_ge(g, s)].grade() >= g,
    decreases s.len(),
{
    if s.len() > 0 && s[0].grade() < g {
        lemma_first_ge_bounds(g, s.skip(1));
        assert forall|k: int| 0 <= k < first_ge(g, s) implies s[k].grade() < g by {
            if k > 0 {
                assert(s.skip(1)[k - 1] == s[k]);
            }
        }
    }
}

pub proof fn lemma_first_ge_char(g: nat, s: Seq<CompView>, j: int)
    requires
        0 <= j <= s.len(),
        forall|k: int| 0 <= k < j ==> s[k].grade() < g,
        j < s.len() ==> s[j].grade() >= g,
    ensures
        first_ge(g, s) == j,
    decreases s.len(),
{
    if s.len() > 0 && s[0].grade() < g {
        lemma_first_ge_char(g, s.skip(1), j - 1);
    }
}

pub proof fn lemma_first_gt_bounds(g: nat, s: Seq<CompView>)
    ensures
        0 <= first_gt(g, s) <= s.len(),
        forall|k: int| 0 <= k < first_gt(g, s) ==> s[k].grade() <= g,
        first_gt(g, s) < s.len() ==> s[first_gt(g, s)].grade() > g,
    decreases s.len(),
{
    if s.len() > 0 && !(s[0].grade() > g) {
        lemma_first_gt_bounds(g, s.skip(1));
        assert forall|k: int| 0 <= k < first_gt(g, s) implies s[k].grade() <= g by {
            if k > 0 {
                assert(s.skip(1)[k - 1] == s[k]);
            }
        }
    }
}

pub proof fn lemma_first_gt_char(g: nat, s: Seq<CompView>, j: int)
    requires
        0 <= j <= s.len(),
        forall|k: int| 0 <= k < j ==> s[k].grade() <= g,
        j < s.len() ==> s[j].grade() > g,
    ensures
        first_gt(g, s) == j,
    decreases s.len(),
{
    if s.len() > 0 && !(s[0].grade() > g) {
        lemma_first_gt_char(g, s.skip(1), j - 1);
    }
}

/// Inserting at the first-at-least position keeps grades sorted.
pub proof fn lemma_insert_sorted(c: CompView, s: Seq<CompView>)
    requires
        grade_sorted(s),
    ensures
        grade_sorted(insert_sorted(c, s)),
{
    lemma_first_ge_bounds(c.grade(), s);
    let j = first_ge(c.grade(), s);
    let r = s.insert(j, c);
    assert forall|p: int, q: int| 0 <= p < q < r.len() implies r[p].grade() <= r[q].grade() by {
        if p < j && q == j {
            assert(r[p] == s[p]);
        } else if p == j && q > j {
            assert(r[q] == s[q - 1]);
        } else if p < j && q > j {
            assert(r[p] == s[p]);
            assert(r[q] == s[q - 1]);
        } else if p > j && q > j {
            assert(r[p] == s[p - 1]);
            assert(r[q] == s[q - 1]);
        } else {
            assert(r[p] == s[p]);
            assert(r[q] == s[q]);
        }
    }
}

/// The first index whose bases are exactly `b`, or the length.
pub open spec fn find_bases(s: Seq<CompView>, b: Seq<ONBasis>) -> int
    decreases s.len(),
{
    if s.len() == 0 {
        0
    } else if s[0].bases == b {
        0
    } else {
        1 + find_bases(s.skip(1), b)
    }
}

pub proof fn lemma_find_bases_bounds(s: Seq<CompView>, b: Seq<ONBasis>)
    ensures
        0 <= find_bases(s, b) <= s.len(),
        forall|k: int| 0 <= k < find_bases(s, b) ==> s[k].bases != b,
        find_bases(s, b) < s.len() ==> s[find_bases(s, b)].bases == b,
    decreases s.len(),
{
    if s.len() > 0 && s[0].bases != b {
        lemma_find_bases_bounds(s.skip(1), b);
        assert forall|k: int| 0 <= k < find_bases(s, b) implies s[k].bases != b by {
            if k > 0 {
                assert(s.skip(1)[k - 1] == s[k]);
            }
        }
    }
}

pub proof fn lemma_find_bases_char(s: Seq<CompView>, b: Seq<ONBasis>, j: int)
    requires
        0 <= j <= s.len(),
        forall|k: int| 0 <= k < j ==> s[k].bases != b,
        j < s.len() ==> s[j].bases == b,
    ensures
        find_bases(s, b) == j,
    decreases s.len(),
{
    if s.len() > 0 && s[0].bases != b {
        lemma_find_bases_char(s.skip(1), b, j - 1);
    }
}

/// Adding one component to a term list: merge into the term with the same
/// bases, dropping it when the coefficients cancel; otherwise place the new
/// term after every term of its grade.
pub open spec fn comp_add_spec(s: Seq<CompView>, c: CompView) -> Seq<CompView> {
    if c.num == 0 {
        s
    } else {
        let j = find_bases(s, c.bases);
        if j < s.len() {
            let n = s[j].num * c.den + c.num * s[j].den;
            if n == 0 {
                s.remove(j)
            } else {
                s.update(j, CompView { num: n, den: s[j].den * c.den, bases: c.bases })
            }
        } else {
            s.insert(first_gt(c.grade(), s), c)
        }
    }
}

/// The one coefficient addition that `comp_add_spec` performs fits the
/// representation: a machine limit, not algebra.
pub open spec fn comp_add_fits(s: Seq<CompView>, c: CompView) -> bool {
    (c.num != 0 && find_bases(s, c.bases) < s.len()) ==> {
        let j = find_bases(s, c.bases);
        &&& -(i64::MAX as int) <= s[j].num * c.den + c.num * s[j].den <= i64::MAX as int
        &&& s[j].den * c.den <= i64::MAX as int
    }
}

/// Folding `comp_add_spec` over the terms of a second list.
pub open spec fn mv_add_spec(s: Seq<CompView>, t: Seq<CompView>) -> Seq<CompView>
    decreases t.len(),
{
    if t.len() == 0 {
        s
    } else {
        mv_add_spec(comp_add_spec(s, t[0]), t.skip(1))
    }
}

/// Every coefficient addition in the fold fits the representation.
pub open spec fn mv_add_fits(s: Seq<CompView>, t: Seq<CompView>) -> bool
    decreases t.len(),
{
    if t.len() == 0 {
        true
    } else {
        comp_add_fits(s, t[0]) && mv_add_fits(comp_add_spec(s, t[0]), t.skip(1))
    }
}

/// The terms of grade `g`, in order.
pub open spec fn filter_grade(s: Seq<CompView>, g: nat) -> Seq<CompView>
    decreases s.len(),
{
    if s.len() == 0 {
        s
    } else {
        (if s[0].grade() == g {
            seq![s[0]]
        } else {
            Seq::empty()
        }) + filter_grade(s.skip(1), g)
    }
}

proof fn lemma_filter_grade_push(s: Seq<CompView>, g: nat, c: CompView)
    ensures
        filter_grade(s.push(c), g) == filter_grade(s, g) + (if c.grade() == g {
            seq![c]
        } else {
            Seq::<CompView>::empty()
        }),
    decreases s.len(),
{
    let tail = if c.grade() == g {
        seq![c]
    } else {
        Seq::<CompView>::empty()
    };
    if s.len() == 0 {
        let u = s.push(c);
        assert(u[0] == c);
        assert(u.skip(1) =~= Seq::<CompView>::empty());
        assert(filter_grade(u, g) == tail + filter_grade(u.skip(1), g));
        assert(filter_grade(s, g) == s);
        assert(tail + filter_grade(u.skip(1), g) =~= s + tail);
    } else {
        assert(s.push(c)[0] == s[0]);
        assert(s.push(c).skip(1) =~= s.skip(1).push(c));
        lemma_filter_grade_push(s.skip(1), g, c);
        let hd = if s[0].grade() == g {
            seq![s[0]]
        } else {
            Seq::<CompView>::empty()
        };
        assert(filter_grade(s.push(c), g) == hd + filter_grade(s.skip(1).push(c), g));
        assert(filter_grade(s.push(c), g) == hd + (filter_grade(s.skip(1), g) + tail));
        assert(hd + (filter_grade(s.skip(1), g) + tail) =~= (hd + filter_grade(s.skip(1), g))
            + tail);
    }
}

proof fn lemma_filter_grade_all(s: Seq<CompView>, g: nat)
    ensures
        forall|i: int|
            0 <= i < filter_grade(s, g).len() ==> #[trigger] filter_grade(s, g)[i].grade() == g,
    decreases s.len(),
{
    if s.len() > 0 {
        lemma_filter_grade_all(s.skip(1), g);
        let hd = if s[0].grade() == g {
            seq![s[0]]
        } else {
            Seq::<CompView>::empty()
        };
        assert forall|i: int| 0 <= i < filter_grade(s, g).len() implies #[trigger] filter_grade(
            s,
            g,
        )[i].grade() == g by {
            if i < hd.len() {
                assert(filter_grade(s, g)[i] == s[0]);
            } else {
                assert(filter_grade(s, g)[i] == filter_grade(s.skip(1), g)[i - hd.len()]);
            }
        }
    }
}

/// A sum of components, sorted by ascending grade.
///
/// The raw constructor `new` sorts but does not merge terms with equal
/// bases; the arithmetic operations keep the merged, zero-free form.
#[derive(Debug, Clone)]
pub struct Multivector {
    pub components: Vec<Component>,
}

impl Multivector {
    /// The mathematical views of the component terms.
    pub open spec fn cvs(self) -> Seq<CompView> {
        views(self.components@)
    }

    /// Well-formed: every term canonical, grades ascending.
    pub open spec fn wf(self) -> bool {
        &&& forall|i: int| 0 <= i < self.components@.len() ==> self.components@[i].wf()
        &&& grade_sorted(self.cvs())
    }

    /// The zero multivector: no components.
    pub fn zero() -> (r: Multivector)
        ensures
            r.cvs() =~= Seq::<CompView>::empty(),
            r.wf(),
    {
        Multivector { components: Vec::new() }
    }

    /// Generates a multivector from a list of components, sorted by grade.
    /// Terms with duplicate bases are not consolidated here.
    pub fn new(components: Vec<Component>) -> (r: Multivector)
        requires
            forall|i: int| 0 <= i < components@.len() ==> components@[i].wf(),
        ensures
            r.cvs() == sort_by_grade(views(components@)),
            r.wf(),
    {
        let mut out: Vec<Component> = Vec::new();
        let mut i = components.len();
        proof {
            assert(views(components@.skip(i as int)) =~= Seq::<CompView>::empty());
            assert(views(components@).skip(i as int) =~= views(components@.skip(i as int)));
        }
        while i > 0
            invariant
                i <= components@.len(),
                forall|k: int| 0 <= k < components@.len() ==> components@[k].wf(),
                views(out@) == sort_by_grade(views(components@).skip(i as int)),
                grade_sorted(views(out@)),
                forall|k: int| 0 <= k < out@.len() ==> out@[k].wf(),
            decreases i,
        {
            let ghost prevseq = views(components@).skip(i as int);
            i = i - 1;
            let c = components[i].duplicate();
            proof {
                assert(views(components@).skip(i as int) =~= seq![components@[i as int].cv()]
                    + prevseq);
                assert((seq![components@[i as int].cv()] + prevseq)[0] == c.cv());
                assert((seq![c.cv()] + prevseq).skip(1) =~= prevseq);
                lemma_first_ge_bounds(c.cv().grade(), views(out@));
            }
            let j = find_grade_ge(&out, c.grade());
            out.insert(j, c);
            proof {
                assert(views(out@) =~= insert_sorted(c.cv(), sort_by_grade(prevseq)));
                lemma_insert_sorted(c.cv(), sort_by_grade(prevseq));
            }
        }
        proof {
            assert(views(components@).skip(0) =~= views(components@));
        }
        Multivector { components: out }
    }

    /// How many component terms the multivector contains.
    pub fn len(&self) -> (n: usize)
        ensures
            n == self.components@.len(),
    {
        self.components.len()
    }

    /// A reference to the component terms.
    pub fn components(&self) -> (r: &Vec<Component>)
        ensures
            r@ == self.components@,
    {
        &self.components
    }

    /// Builds a fresh multivector with the same views.
    pub fn duplicate(&self) -> (r: Multivector)
        ensures
            r.cvs() == self.cvs(),
            r.components@.len() == self.components@.len(),
            forall|i: int|
                0 <= i < self.components@.len() ==> r.components@[i].cv()
                    == self.components@[i].cv() && r.components@[i].mag == self.components@[i].mag
                    && r.components@[i].bases@ == self.components@[i].bases@,
    {
        let mut out: Vec<Component> = Vec::new();
        let mut i: usize = 0;
        while i < self.components.len()
            invariant
                i <= self.components@.len(),
                out@.len() == i,
                forall|k: int|
                    0 <= k < i ==> out@[k].cv() == self.components@[k].cv() && out@[k].mag
                        == self.components@[k].mag && out@[k].bases@ == self.components@[k].bases@,
            decreases self.components@.len() - i,
        {
            out.push(self.components[i].duplicate());
            i = i + 1;
        }
        proof {
            assert(views(out@) =~= views(self.components@));
        }
        Multivector { components: out }
    }
}

/// The view of the geometric product of two component views.
pub open spec fn geo_cv(a: CompView, b: CompView) -> CompView {
    let f = canon_factor(a.bases + b.bases);
    if a.num * b.num * f == 0 {
        CompView::zero_cv()
    } else {
        CompView {
            num: a.num * b.num * f,
            den: a.den * b.den,
            bases: canon_bases(a.bases + b.bases),
        }
    }
}

/// The view of the outer product of two component views.
pub open spec fn outer_cv(a: CompView, b: CompView) -> CompView {
    if ids_overlap(a.bases, b.bases) {
        CompView::zero_cv()
    } else {
        geo_cv(a, b)
    }
}

/// The one coefficient product of a component product fits the
/// representation.
pub open spec fn geo_fits(a: CompView, b: CompView) -> bool {
    &&& -(i64::MAX as int) <= a.num * b.num <= i64::MAX as int
    &&& a.den * b.den <= i64::MAX as int
}

/// A component whose contract says it is the geometric product of `a` and
/// `b` has exactly the view `geo_cv` of their views.
pub proof fn lemma_geo_cv(r: Component, a: Component, b: Component)
    requires
        is_geo_of(r, a, b),
    ensures
        r.cv() == geo_cv(a.cv(), b.cv()),
{
    let s = a.bases@ + b.bases@;
    assert(a.cv().bases + b.cv().bases == s);
    if a.mag.num * b.mag.num * canon_factor(s) == 0 {
        assert(r.is_zero_comp());
        assert(r.bases@ =~= Seq::<ONBasis>::empty());
    }
}

/// A component whose contract says it is the outer product of `a` and `b`
/// has exactly the view `outer_cv` of their views.
pub proof fn lemma_outer_cv(r: Component, a: Component, b: Component)
    requires
        ids_overlap(a.bases@, b.bases@) ==> r.is_zero_comp(),
        !ids_overlap(a.bases@, b.bases@) ==> is_geo_of(r, a, b),
    ensures
        r.cv() == outer_cv(a.cv(), b.cv()),
{
    assert(a.cv().bases == a.bases@);
    assert(b.cv().bases == b.bases@);
    if ids_overlap(a.bases@, b.bases@) {
        assert(r.bases@ =~= Seq::<ONBasis>::empty());
    } else {
        lemma_geo_cv(r, a, b);
    }
}

/// Distributing the geometric product of each term of `s` with `c` over a
/// running sum.
pub open spec fn geo_prod_comp_spec(acc: Seq<CompView>, s: Seq<CompView>, c: CompView) -> Seq<
    CompView,
>
    decreases s.len(),
{
    if s.len() == 0 {
        acc
    } else {
        geo_prod_comp_spec(comp_add_spec(acc, geo_cv(s[0], c)), s.skip(1), c)
    }
}

/// Every coefficient operation of the distribution fits the representation.
pub open spec fn geo_prod_comp_fits(acc: Seq<CompView>, s: Seq<CompView>, c: CompView) -> bool
    decreases s.len(),
{
    if s.len() == 0 {
        true
    } else {
        &&& geo_fits(s[0], c)
        &&& comp_add_fits(acc, geo_cv(s[0], c))
        &&& geo_prod_comp_fits(comp_add_spec(acc, geo_cv(s[0], c)), s.skip(1), c)
    }
}

/// Distributing the geometric product of `c` on the left with each term of
/// `s` over a running sum.
pub open spec fn comp_geo_mv_spec(acc: Seq<CompView>, c: CompView, s: Seq<CompView>) -> Seq<
    CompView,
>
    decreases s.len(),
{
    if s.len() == 0 {
        acc
    } else {
        comp_geo_mv_spec(comp_add_spec(acc, geo_cv(c, s[0])), c, s.skip(1))
    }
}

pub open spec fn comp_geo_mv_fits(acc: Seq<CompView>, c: CompView, s: Seq<CompView>) -> bool
    decreases s.len(),
{
    if s.len() == 0 {
        true
    } else {
        &&& geo_fits(c, s[0])
        &&& comp_add_fits(acc, geo_cv(c, s[0]))
        &&& comp_geo_mv_fits(comp_add_spec(acc, geo_cv(c, s[0])), c, s.skip(1))
    }
}

/// The full bilinear distribution of the geometric product of two term
/// lists.
pub open spec fn geo_prod_mv_spec(acc: Seq<CompView>, lhs: Seq<CompView>, t: Seq<CompView>) -> Seq<
    CompView,
>
    decreases t.len(),
{
    if t.len() == 0 {
        acc
    } else {
        let p = geo_prod_comp_spec(Seq::empty(), lhs, t[0]);
        geo_prod_mv_spec(mv_add_spec(acc, p), lhs, t.skip(1))
    }
}

pub open spec fn geo_prod_mv_fits(acc: Seq<CompView>, lhs: Seq<CompView>, t: Seq<CompView>) -> bool
    decreases t.len(),
{
    if t.len() == 0 {
        true
    } else {
        let p = geo_prod_comp_spec(Seq::empty(), lhs, t[0]);
        &&& geo_prod_comp_fits(Seq::empty(), lhs, t[0])
        &&& mv_add_fits(acc, p)
        &&& geo_prod_mv_fits(mv_add_spec(acc, p), lhs, t.skip(1))
    }
}

/// Distributing the outer product of each term of `s` with `c` over a
/// running sum.
pub open spec fn outer_prod_comp_spec(acc: Seq<CompView>, s: Seq<CompView>, c: CompView) -> Seq<
    CompView,
>
    decreases s.len(),
{
    if s.len() == 0 {
        acc
    } else {
        outer_prod_comp_spec(comp_add_spec(acc, outer_cv(s[0], c)), s.skip(1), c)
    }
}

pub open spec fn outer_prod_comp_fits(acc: Seq<CompView>, s: Seq<CompView>, c: CompView) -> bool
    decreases s.len(),
{
    if s.len() == 0 {
        true
    } else {
        &&& geo_fits(s[0], c)
        &&& comp_add_fits(acc, outer_cv(s[0], c))
        &&& outer_prod_comp_fits(comp_add_spec(acc, outer_cv(s[0], c)), s.skip(1), c)
    }
}

/// The full bilinear distribution of the outer product of two term lists.
pub open spec fn outer_prod_mv_spec(acc: Seq<CompView>, lhs: Seq<CompView>, t: Seq<CompView>) -> Seq<
    CompView,
>
    decreases t.len(),
{
    if t.len() == 0 {
        acc
    } else {
        let p = outer_prod_comp_spec(Seq::empty(), lhs, t[0]);
        outer_prod_mv_spec(mv_add_spec(acc, p), lhs, t.skip(1))
    }
}

pub open spec fn outer_prod_mv_fits(acc: Seq<CompView>, lhs: Seq<CompView>, t: Seq<CompView>) -> bool
    decreases t.len(),
{
    if t.len() == 0 {
        true
    } else {
        let p = outer_prod_comp_spec(Seq::empty(), lhs, t[0]);
        &&& outer_prod_comp_fits(Seq::empty(), lhs, t[0])
        &&& mv_add_fits(acc, p)
        &&& outer_prod_mv_fits(mv_add_spec(acc, p), lhs, t.skip(1))
    }
}

/// The view of the inverse blade of one component view.
pub open spec fn inverse_cv(c: CompView) -> CompView {
    CompView {
        num: crate::canon::rev_sign(c.bases.len()) * crate::canon::sq_prod(c.bases) * c.num * (
        c.den * c.den),
        den: c.den * (c.num * c.num),
        bases: c.bases,
    }
}

/// The component view is an invertible blade.
pub open spec fn cv_invertible(c: CompView) -> bool {
    c.num != 0 && crate::canon::sq_prod(c.bases) != 0
}

/// The intermediate products of one blade inversion fit the
/// representation.
pub open spec fn cv_inverse_fits(c: CompView) -> bool {
    &&& -(i64::MAX as int) <= c.num * (c.den * c.den) <= i64::MAX as int
    &&& c.den * (c.num * c.num) <= i64::MAX as int
    &&& -(i64::MAX as int) <= c.num * c.num <= i64::MAX as int
    &&& c.den * c.den <= i64::MAX as int
}

/// Folding the per-term inverses into a running sum.
pub open spec fn mv_inverse_spec(acc: Seq<CompView>, t: Seq<CompView>) -> Seq<CompView>
    decreases t.len(),
{
    if t.len() == 0 {
        acc
    } else {
        mv_inverse_spec(comp_add_spec(acc, inverse_cv(t[0])), t.skip(1))
    }
}

pub open spec fn mv_inverse_fits(acc: Seq<CompView>, t: Seq<CompView>) -> bool
    decreases t.len(),
{
    if t.len() == 0 {
        true
    } else {
        &&& cv_inverse_fits(t[0])
        &&& comp_add_fits(acc, inverse_cv(t[0]))
        &&& mv_inverse_fits(comp_add_spec(acc, inverse_cv(t[0])), t.skip(1))
    }
}

/// Two basis lists share an entry.
pub open spec fn bases_intersect(a: Seq<ONBasis>, b: Seq<ONBasis>) -> bool {
    exists|i: int, j: int| 0 <= i < a.len() && 0 <= j < b.len() && a[i] == b[j]
}

/// One step of reachability in the graph whose vertices are term indices
/// and whose edges join terms sharing a basis.
pub open spec fn reach_ext(s: Seq<CompView>, rset: Set<int>) -> Set<int> {
    Set::new(
        |j: int|
            0 <= j < s.len() && (rset.contains(j) || exists|i: int|
                #[trigger] rset.contains(i) && 0 <= i < s.len() && bases_intersect(
                    s[i].bases,
                    s[j].bases,
                )),
    )
}

/// The indices reachable from term 0 in at most `k` steps.
pub open spec fn reach_n(s: Seq<CompView>, k: nat) -> Set<int>
    decreases k,
{
    if k == 0 {
        Set::new(|j: int| j == 0 && s.len() > 0)
    } else {
        reach_ext(s, reach_n(s, (k - 1) as nat))
    }
}

/// Every term index is reachable from term 0.
pub open spec fn connected(s: Seq<CompView>) -> bool {
    forall|j: int| 0 <= j < s.len() ==> reach_n(s, s.len()).contains(j)
}

/// Every term has the grade of the first one.
pub open spec fn single_grade(s: Seq<CompView>) -> bool {
    forall|i: int| 0 <= i < s.len() ==> #[trigger] s[i].grade() == s[0].grade()
}

/// The multivector decomposes as a wedge of vectors: a single grade, and
/// either trivially (grade below two, or at most one term) or because the
/// terms form one connected component under shared bases.
pub open spec fn is_blade_spec(s: Seq<CompView>) -> bool {
    if !single_grade(s) {
        false
    } else if s.len() == 0 {
        true
    } else if s[0].grade() < 2 {
        true
    } else if s.len() < 2 {
        true
    } else {
        connected(s)
    }
}

/// The coefficient views after negating every term.
pub open spec fn neg_spec(s: Seq<CompView>) -> Seq<CompView> {
    s.map_values(|c: CompView| CompView { num: -c.num, den: c.den, bases: c.bases })
}

/// The coefficient views after scaling every term by `rn / rd`, each
/// product collapsing to the zero view when it cancels.
pub open spec fn scalar_mult_spec(s: Seq<CompView>, rn: int, rd: int) -> Seq<CompView> {
    s.map_values(
        |c: CompView|
            if c.num * rn == 0 {
                CompView::zero_cv()
            } else {
                CompView { num: c.num * rn, den: c.den * rd, bases: c.bases }
            },
    )
}

/// Every per-term product of a scalar multiplication fits the
/// representation.
pub open spec fn scalar_mult_fits(s: Seq<CompView>, rn: int, rd: int) -> bool {
    forall|i: int|
        0 <= i < s.len() ==> -(i64::MAX as int) <= #[trigger] s[i].num * rn <= i64::MAX as int
            && s[i].den * rd <= i64::MAX as int
}

impl Multivector {
    /// Adds a component to the multivector, merging it into the term with
    /// the same bases and dropping a term whose coefficient cancels to zero.
    pub fn component_add(&self, rhs: &Component) -> (r: Multivector)
        requires
            self.wf(),
            rhs.wf(),
            comp_add_fits(self.cvs(), rhs.cv()),
        ensures
            r.wf(),
            r.cvs() == comp_add_spec(self.cvs(), rhs.cv()),
    {
        if rhs.mag.is_zero() {
            return self.duplicate();
        }
        let n = self.components.len();
        let mut j: usize = 0;
        while j < n && !self.components[j].same_bases(rhs)
            invariant
                0 <= j <= n,
                n == self.components@.len(),
                forall|k: int| 0 <= k < j ==> self.cvs()[k].bases != rhs.cv().bases,
            decreases n - j,
        {
            j = j + 1;
        }
        proof {
            lemma_find_bases_char(self.cvs(), rhs.bases@, j as int);
        }
        if j < n {
            let merged_opt = self.components[j].force_comp_add(rhs);
            let merged = match merged_opt {
                Some(c) => c,
                None => {
                    proof {
                        assert(false);
                    }
                    return Multivector::zero();
                },
            };
            let mut out = self.duplicate();
            proof {
                assert(views(out.components@) == self.cvs());
            }
            let ghost pre = out.components@;
            if merged.mag.is_zero() {
                out.components.remove(j);
                proof {
                    lemma_views_remove(pre, j as int);
                    assert(views(out.components@) == self.cvs().remove(j as int));
                    assert(grade_sorted(views(out.components@))) by {
                        assert forall|p: int, q: int|
                            0 <= p < q < views(out.components@).len() implies views(
                            out.components@,
                        )[p].grade() <= views(out.components@)[q].grade() by {
                            let sp: int = if p < j {
                                p
                            } else {
                                p + 1
                            };
                            let sq: int = if q < j {
                                q
                            } else {
                                q + 1
                            };
                            assert(views(out.components@)[p] == self.cvs()[sp]);
                            assert(views(out.components@)[q] == self.cvs()[sq]);
                        }
                    }
                }
                out
            } else {
                out.components.remove(j);
                let ghost mid = pre.remove(j as int);
                out.components.insert(j, merged);
                proof {
                    let mv = CompView {
                        num: self.cvs()[j as int].num * rhs.cv().den + rhs.cv().num
                            * self.cvs()[j as int].den,
                        den: self.cvs()[j as int].den * rhs.cv().den,
                        bases: rhs.cv().bases,
                    };
                    assert(merged.cv() == mv);
                    lemma_views_remove(pre, j as int);
                    lemma_views_insert(mid, j as int, merged);
                    assert(views(out.components@) == self.cvs().remove(j as int).insert(
                        j as int,
                        mv,
                    ));
                    assert(self.cvs().remove(j as int).insert(j as int, mv) =~= self.cvs().update(
                        j as int,
                        mv,
                    ));
                    assert(grade_sorted(views(out.components@))) by {
                        assert forall|p: int, q: int|
                            0 <= p < q < views(out.components@).len() implies views(
                            out.components@,
                        )[p].grade() <= views(out.components@)[q].grade() by {
                            assert(self.cvs()[p].grade() <= self.cvs()[q].grade());
                        }
                    }
                }
                out
            }
        } else {
            let mut out = self.duplicate();
            proof {
                assert(views(out.components@) == self.cvs());
            }
            let pos = find_grade_gt(&out.components, rhs.bases.len());
            proof {
                lemma_first_gt_bounds(rhs.cv().grade(), self.cvs());
            }
            let ghost pre = out.components@;
            let dup = rhs.duplicate();
            out.components.insert(pos, dup);
            proof {
                lemma_views_insert(pre, pos as int, dup);
                assert(views(out.components@) == self.cvs().insert(
                    first_gt(rhs.cv().grade(), self.cvs()),
                    rhs.cv(),
                ));
                let jj = first_gt(rhs.cv().grade(), self.cvs());
                let r2 = self.cvs().insert(jj, rhs.cv());
                assert(grade_sorted(r2)) by {
                    assert forall|p: int, q: int|
                        0 <= p < q < r2.len() implies r2[p].grade() <= r2[q].grade() by {
                        if p < jj && q == jj {
                            assert(r2[p] == self.cvs()[p]);
                        } else if p == jj && q > jj {
                            assert(r2[q] == self.cvs()[q - 1]);
                        } else if p < jj && q > jj {
                            assert(r2[p] == self.cvs()[p]);
                            assert(r2[q] == self.cvs()[q - 1]);
                        } else if p > jj && q > jj {
                            assert(r2[p] == self.cvs()[p - 1]);
                            assert(r2[q] == self.cvs()[q - 1]);
                        } else {
                            assert(r2[p] == self.cvs()[p]);
                            assert(r2[q] == self.cvs()[q]);
                        }
                    }
                }
            }
            out
        }
    }

    /// Adds two multivectors by folding in the right-hand terms one by one.
    pub fn multivector_add(&self, rhs: &Multivector) -> (r: Multivector)
        requires
            self.wf(),
            rhs.wf(),
            mv_add_fits(self.cvs(), rhs.cvs()),
        ensures
            r.wf(),
            r.cvs() == mv_add_spec(self.cvs(), rhs.cvs()),
    {
        let mut acc = self.duplicate();
        let mut i: usize = 0;
        proof {
            assert(rhs.cvs().skip(0) =~= rhs.cvs());
        }
        while i < rhs.components.len()
            invariant
                i <= rhs.components@.len(),
                acc.wf(),
                rhs.wf(),
                mv_add_spec(acc.cvs(), rhs.cvs().skip(i as int)) == mv_add_spec(
                    self.cvs(),
                    rhs.cvs(),
                ),
                mv_add_fits(acc.cvs(), rhs.cvs().skip(i as int)),
            decreases rhs.components@.len() - i,
        {
            let ghost t = rhs.cvs().skip(i as int);
            proof {
                assert(t[0] == rhs.cvs()[i as int]);
                assert(t.skip(1) =~= rhs.cvs().skip(i as int + 1));
            }
            acc = acc.component_add(&rhs.components[i]);
            i = i + 1;
        }
        proof {
            assert(rhs.cvs().skip(rhs.components@.len() as int) =~= Seq::<CompView>::empty());
        }
        acc
    }

    /// Adds a scalar, treated as a grade-zero component.
    pub fn scalar_add(&self, rhs: &Rational) -> (r: Multivector)
        requires
            self.wf(),
            rhs.wf(),
            comp_add_fits(
                self.cvs(),
                CompView { num: rhs.num as int, den: rhs.den as int, bases: Seq::empty() },
            ),
        ensures
            r.wf(),
            r.cvs() == comp_add_spec(
                self.cvs(),
                CompView { num: rhs.num as int, den: rhs.den as int, bases: Seq::empty() },
            ),
    {
        let c = Component { mag: *rhs, bases: Vec::new() };
        proof {
            assert(c.cv() == CompView {
                num: rhs.num as int,
                den: rhs.den as int,
                bases: Seq::<ONBasis>::empty(),
            }) by {
                assert(c.bases@ =~= Seq::<ONBasis>::empty());
            }
        }
        if c.mag.is_zero() {
            self.duplicate()
        } else {
            self.component_add(&c)
        }
    }

    /// The terms of one grade exactly.
    pub fn take_grade(&self, grade: usize) -> (r: Multivector)
        requires
            self.wf(),
        ensures
            r.wf(),
            r.cvs() == filter_grade(self.cvs(), grade as nat),
    {
        let mut out: Vec<Component> = Vec::new();
        let mut i: usize = 0;
        proof {
            assert(self.cvs().take(0) =~= Seq::<CompView>::empty());
        }
        while i < self.components.len()
            invariant
                i <= self.components@.len(),
                self.wf(),
                views(out@) == filter_grade(self.cvs().take(i as int), grade as nat),
                forall|k: int| 0 <= k < out@.len() ==> out@[k].wf(),
            decreases self.components@.len() - i,
        {
            proof {
                lemma_filter_grade_push(self.cvs().take(i as int), grade as nat, self.cvs()[i as int]);
                assert(self.cvs().take(i as int + 1) =~= self.cvs().take(i as int).push(
                    self.cvs()[i as int],
                ));
            }
            if self.components[i].grade() == grade {
                out.push(self.components[i].duplicate());
                proof {
                    assert(views(out@) =~= filter_grade(self.cvs().take(i as int + 1), grade as nat));
                }
            } else {
                proof {
                    assert(views(out@) =~= filter_grade(self.cvs().take(i as int + 1), grade as nat));
                }
            }
            i = i + 1;
        }
        proof {
            assert(self.cvs().take(self.components@.len() as int) =~= self.cvs());
            lemma_filter_grade_all(self.cvs(), grade as nat);
        }
        Multivector { components: out }
    }

    /// Checks whether every term has the same grade. An empty multivector
    /// counts as single-grade.
    pub fn is_single_grade(&self) -> (r: bool)
        ensures
            r == (forall|i: int|
                0 <= i < self.cvs().len() ==> #[trigger] self.cvs()[i].grade()
                    == self.cvs()[0].grade()),
    {
        if self.components.len() == 0 {
            return true;
        }
        let g0 = self.components[0].grade();
        let mut i: usize = 1;
        while i < self.components.len()
            invariant
                1 <= i <= self.components@.len(),
                g0 == self.cvs()[0].grade(),
                forall|k: int| 0 <= k < i ==> #[trigger] self.cvs()[k].grade() == g0,
            decreases self.components@.len() - i,
        {
            if self.components[i].grade() != g0 {
                proof {
                    assert(self.cvs()[i as int].grade() != self.cvs()[0].grade());
                }
                return false;
            }
            i = i + 1;
        }
        true
    }

    /// Multiplies every term by a scalar; a zero scalar collapses the whole
    /// multivector to zero.
    pub fn scalar_mult(&self, rhs: Rational) -> (r: Multivector)
        requires
            self.wf(),
            rhs.wf(),
            scalar_mult_fits(self.cvs(), rhs.num as int, rhs.den as int),
        ensures
            r.wf(),
            rhs.num == 0 ==> r.cvs() =~= Seq::<CompView>::empty(),
            rhs.num != 0 ==> r.cvs() == scalar_mult_spec(self.cvs(), rhs.num as int, rhs.den as int),
    {
        if rhs.is_zero() {
            return Multivector::zero();
        }
        let mut out: Vec<Component> = Vec::new();
        let mut i: usize = 0;
        while i < self.components.len()
            invariant
                i <= self.components@.len(),
                self.wf(),
                rhs.wf(),
                scalar_mult_fits(self.cvs(), rhs.num as int, rhs.den as int),
                out@.len() == i,
                forall|k: int|
                    0 <= k < i ==> #[trigger] views(out@)[k] == scalar_mult_spec(
                        self.cvs(),
                        rhs.num as int,
                        rhs.den as int,
                    )[k],
                forall|k: int| 0 <= k < i ==> #[trigger] out@[k].wf(),
            decreases self.components@.len() - i,
        {
            proof {
                assert(-(i64::MAX as int) <= self.cvs()[i as int].num * (rhs.num as int)
                    <= i64::MAX as int);
                assert(self.components@[i as int].mag.mul_fits(rhs));
            }
            let ghost pre = out@;
            let scaled = self.components[i].scalar_mult(rhs);
            out.push(scaled);
            proof {
                lemma_views_push(pre, scaled);
                assert(views(out@)[i as int] == scaled.cv());
                let cvi = self.cvs()[i as int];
                assert(cvi == self.components@[i as int].cv());
                assert(scalar_mult_spec(self.cvs(), rhs.num as int, rhs.den as int)[i as int]
                    == (if cvi.num * rhs.num == 0 {
                    CompView::zero_cv()
                } else {
                    CompView {
                        num: cvi.num * rhs.num,
                        den: cvi.den * rhs.den,
                        bases: cvi.bases,
                    }
                }));
                if cvi.num * rhs.num == 0 {
                    assert(scaled.is_zero_comp());
                    assert(scaled.bases@ =~= Seq::<ONBasis>::empty());
                }
                assert(scaled.cv() == scalar_mult_spec(self.cvs(), rhs.num as int, rhs.den as int)[i as int]);
            }
            i = i + 1;
        }
        proof {
            let sm = scalar_mult_spec(self.cvs(), rhs.num as int, rhs.den as int);
            assert(views(out@) =~= sm);
            assert(grade_sorted(views(out@))) by {
                assert forall|p: int, q: int|
                    0 <= p < q < views(out@).len() implies views(out@)[p].grade() <= views(
                    out@,
                )[q].grade() by {
                    assert(self.components@[p].wf());
                    assert(self.components@[q].wf());
                    assert(views(out@)[p] == sm[p]);
                    assert(views(out@)[q] == sm[q]);
                    assert(self.cvs()[p].grade() <= self.cvs()[q].grade());
                    if self.cvs()[q].num * rhs.num == 0 {
                        assert(self.cvs()[q].num == 0) by (nonlinear_arith)
                            requires
                                self.cvs()[q].num * rhs.num == 0,
                                rhs.num != 0,
                        ;
                        assert(self.cvs()[q].grade() == 0);
                        assert(self.cvs()[p].grade() == 0);
                        assert(self.cvs()[p].num == 0 ==> sm[p].grade() == 0);
                    }
                }
            }
        }
        Multivector { components: out }
    }

    /// Negates every term.
    pub fn negative(&self) -> (r: Multivector)
        requires
            self.wf(),
        ensures
            r.wf(),
            r.cvs() == neg_spec(self.cvs()),
    {
        let mut out: Vec<Component> = Vec::new();
        let mut i: usize = 0;
        while i < self.components.len()
            invariant
                i <= self.components@.len(),
                self.wf(),
                out@.len() == i,
                forall|k: int| 0 <= k < i ==> #[trigger] views(out@)[k] == neg_spec(self.cvs())[k],
                forall|k: int| 0 <= k < i ==> #[trigger] out@[k].wf(),
            decreases self.components@.len() - i,
        {
            let ghost pre = out@;
            let negated = self.components[i].negate();
            out.push(negated);
            proof {
                lemma_views_push(pre, negated);
                assert(views(out@)[i as int] == negated.cv());
                assert(negated.cv() == neg_spec(self.cvs())[i as int]);
            }
            i = i + 1;
        }
        proof {
            assert(views(out@) =~= neg_spec(self.cvs()));
            assert(grade_sorted(views(out@))) by {
                assert forall|p: int, q: int|
                    0 <= p < q < views(out@).len() implies views(out@)[p].grade() <= views(
                    out@,
                )[q].grade() by {
                    assert(views(out@)[p] == neg_spec(self.cvs())[p]);
                    assert(views(out@)[q] == neg_spec(self.cvs())[q]);
                    assert(neg_spec(self.cvs())[p].grade() == self.cvs()[p].grade());
                    assert(neg_spec(self.cvs())[q].grade() == self.cvs()[q].grade());
                    assert(self.cvs()[p].grade() <= self.cvs()[q].grade());
                }
            }
        }
        Multivector { components: out }
    }

    /// The geometric product with a single component, distributed over
    /// every term.
    pub fn geo_prod_comp(&self, rhs: &Component) -> (r: Multivector)
        requires
            self.wf(),
            rhs.wf(),
            geo_prod_comp_fits(Seq::empty(), self.cvs(), rhs.cv()),
        ensures
            r.wf(),
            r.cvs() == geo_prod_comp_spec(Seq::empty(), self.cvs(), rhs.cv()),
    {
        let mut acc = Multivector::zero();
        let mut i: usize = 0;
        proof {
            assert(self.cvs().skip(0) =~= self.cvs());
        }
        while i < self.components.len()
            invariant
                i <= self.components@.len(),
                self.wf(),
                rhs.wf(),
                acc.wf(),
                geo_prod_comp_spec(acc.cvs(), self.cvs().skip(i as int), rhs.cv())
                    == geo_prod_comp_spec(Seq::empty(), self.cvs(), rhs.cv()),
                geo_prod_comp_fits(acc.cvs(), self.cvs().skip(i as int), rhs.cv()),
            decreases self.components@.len() - i,
        {
            let ghost t = self.cvs().skip(i as int);
            proof {
                assert(t[0] == self.cvs()[i as int]);
                assert(t.skip(1) =~= self.cvs().skip(i as int + 1));
            }
            let p = self.components[i].geo_product(rhs);
            proof {
                lemma_geo_cv(p, self.components@[i as int], *rhs);
            }
            acc = acc.component_add(&p);
            i = i + 1;
        }
        proof {
            assert(self.cvs().skip(self.components@.len() as int) =~= Seq::<CompView>::empty());
        }
        acc
    }

    /// The geometric product of two multivectors: the standard bilinear
    /// distribution over all term pairs.
    pub fn geo_prod_mv(&self, rhs: &Multivector) -> (r: Multivector)
        requires
            self.wf(),
            rhs.wf(),
            geo_prod_mv_fits(Seq::empty(), self.cvs(), rhs.cvs()),
        ensures
            r.wf(),
            r.cvs() == geo_prod_mv_spec(Seq::empty(), self.cvs(), rhs.cvs()),
    {
        let mut acc = Multivector::zero();
        let mut j: usize = 0;
        proof {
            assert(rhs.cvs().skip(0) =~= rhs.cvs());
        }
        while j < rhs.components.len()
            invariant
                j <= rhs.components@.len(),
                self.wf(),
                rhs.wf(),
                acc.wf(),
                geo_prod_mv_spec(acc.cvs(), self.cvs(), rhs.cvs().skip(j as int))
                    == geo_prod_mv_spec(Seq::empty(), self.cvs(), rhs.cvs()),
                geo_prod_mv_fits(acc.cvs(), self.cvs(), rhs.cvs().skip(j as int)),
            decreases rhs.components@.len() - j,
        {
            let ghost t = rhs.cvs().skip(j as int);
            proof {
                assert(t[0] == rhs.cvs()[j as int]);
                assert(t.skip(1) =~= rhs.cvs().skip(j as int + 1));
            }
            let p = self.geo_prod_comp(&rhs.components[j]);
            acc = acc.multivector_add(&p);
            j = j + 1;
        }
        proof {
            assert(rhs.cvs().skip(rhs.components@.len() as int) =~= Seq::<CompView>::empty());
        }
        acc
    }

    /// The outer product with a single component, distributed over every
    /// term.
    pub fn outer_prod_comp(&self, rhs: &Component) -> (r: Multivector)
        requires
            self.wf(),
            rhs.wf(),
            outer_prod_comp_fits(Seq::empty(), self.cvs(), rhs.cv()),
        ensures
            r.wf(),
            r.cvs() == outer_prod_comp_spec(Seq::empty(), self.cvs(), rhs.cv()),
    {
        let mut acc = Multivector::zero();
        let mut i: usize = 0;
        proof {
            assert(self.cvs().skip(0) =~= self.cvs());
        }
        while i < self.components.len()
            invariant
                i <= self.components@.len(),
                self.wf(),
                rhs.wf(),
                acc.wf(),
                outer_prod_comp_spec(acc.cvs(), self.cvs().skip(i as int), rhs.cv())
                    == outer_prod_comp_spec(Seq::empty(), self.cvs(), rhs.cv()),
                outer_prod_comp_fits(acc.cvs(), self.cvs().skip(i as int), rhs.cv()),
            decreases self.components@.len() - i,
        {
            let ghost t = self.cvs().skip(i as int);
            proof {
                assert(t[0] == self.cvs()[i as int]);
                assert(t.skip(1) =~= self.cvs().skip(i as int + 1));
            }
            let p = self.components[i].outer_product(rhs);
            proof {
                lemma_outer_cv(p, self.components@[i as int], *rhs);
            }
            acc = acc.component_add(&p);
            i = i + 1;
        }
        proof {
            assert(self.cvs().skip(self.components@.len() as int) =~= Seq::<CompView>::empty());
        }
        acc
    }

    /// The outer product of two multivectors: the standard bilinear
    /// distribution over all term pairs.
    pub fn outer_product_mv(&self, rhs: &Multivector) -> (r: Multivector)
        requires
            self.wf(),
            rhs.wf(),
            outer_prod_mv_fits(Seq::empty(), self.cvs(), rhs.cvs()),
        ensures
            r.wf(),
            r.cvs() == outer_prod_mv_spec(Seq::empty(), self.cvs(), rhs.cvs()),
    {
        let mut acc = Multivector::zero();
        let mut j: usize = 0;
        proof {
            assert(rhs.cvs().skip(0) =~= rhs.cvs());
        }
        while j < rhs.components.len()
            invariant
                j <= rhs.components@.len(),
                self.wf(),
                rhs.wf(),
                acc.wf(),
                outer_prod_mv_spec(acc.cvs(), self.cvs(), rhs.cvs().skip(j as int))
                    == outer_prod_mv_spec(Seq::empty(), self.cvs(), rhs.cvs()),
                outer_prod_mv_fits(acc.cvs(), self.cvs(), rhs.cvs().skip(j as int)),
            decreases rhs.components@.len() - j,
        {
            let ghost t = rhs.cvs().skip(j as int);
            proof {
                assert(t[0] == rhs.cvs()[j as int]);
                assert(t.skip(1) =~= rhs.cvs().skip(j as int + 1));
            }
            let p = self.outer_prod_comp(&rhs.components[j]);
            acc = acc.multivector_add(&p);
            j = j + 1;
        }
        proof {
            assert(rhs.cvs().skip(rhs.components@.len() as int) =~= Seq::<CompView>::empty());
        }
        acc
    }

    /// Inverts the multivector term by term. This is the inverse only for a
    /// single invertible blade or a sum of mutually orthogonal invertible
    /// blades, not a general multivector inverse. `None` exactly when some
    /// term is degenerate.
    pub fn inverse(&self) -> (r: Option<Multivector>)
        requires
            self.wf(),
            mv_inverse_fits(Seq::empty(), self.cvs()),
        ensures
            r is Some <==> (forall|i: int|
                0 <= i < self.cvs().len() ==> cv_invertible(#[trigger] self.cvs()[i])),
            match r {
                Some(m) => m.wf() && m.cvs() == mv_inverse_spec(Seq::empty(), self.cvs()),
                None => true,
            },
    {
        let mut acc = Multivector::zero();
        let mut i: usize = 0;
        proof {
            assert(self.cvs().skip(0) =~= self.cvs());
        }
        while i < self.components.len()
            invariant
                i <= self.components@.len(),
                self.wf(),
                acc.wf(),
                forall|k: int| 0 <= k < i ==> cv_invertible(#[trigger] self.cvs()[k]),
                mv_inverse_spec(acc.cvs(), self.cvs().skip(i as int)) == mv_inverse_spec(
                    Seq::empty(),
                    self.cvs(),
                ),
                mv_inverse_fits(acc.cvs(), self.cvs().skip(i as int)),
            decreases self.components@.len() - i,
        {
            let ghost t = self.cvs().skip(i as int);
            proof {
                assert(t[0] == self.cvs()[i as int]);
                assert(t.skip(1) =~= self.cvs().skip(i as int + 1));
            }
            let ci = match self.components[i].inverse() {
                Some(c) => c,
                None => {
                    proof {
                        assert(!cv_invertible(self.cvs()[i as int]));
                    }
                    return None;
                },
            };
            proof {
                assert(ci.cv() == inverse_cv(self.cvs()[i as int]));
            }
            acc = acc.component_add(&ci);
            i = i + 1;
        }
        proof {
            assert(self.cvs().skip(self.components@.len() as int) =~= Seq::<CompView>::empty());
        }
        Some(acc)
    }

    /// The squared magnitude: the grade-zero coefficient of the term-wise
    /// inverse times the multivector. `None` when a term is degenerate or
    /// when the product has no scalar part.
    pub fn norm_sqrd(&self) -> (r: Option<Rational>)
        requires
            self.wf(),
            mv_inverse_fits(Seq::empty(), self.cvs()),
            (forall|i: int|
                0 <= i < self.cvs().len() ==> cv_invertible(
                    #[trigger] self.cvs()[i],
                )) ==> geo_prod_mv_fits(
                Seq::empty(),
                mv_inverse_spec(Seq::empty(), self.cvs()),
                self.cvs(),
            ),
        ensures
            r is Some <==> ((forall|i: int|
                0 <= i < self.cvs().len() ==> cv_invertible(#[trigger] self.cvs()[i]))
                && filter_grade(
                geo_prod_mv_spec(Seq::empty(), mv_inverse_spec(Seq::empty(), self.cvs()), self.cvs()),
                0,
            ).len() > 0),
            match r {
                Some(v) => {
                    let g0 = filter_grade(
                        geo_prod_mv_spec(
                            Seq::empty(),
                            mv_inverse_spec(Seq::empty(), self.cvs()),
                            self.cvs(),
                        ),
                        0,
                    );
                    v.wf() && v.num == g0[0].num && v.den == g0[0].den
                },
                None => true,
            },
    {
        let inv = match self.inverse() {
            Some(m) => m,
            None => {
                return None;
            },
        };
        let p = inv.geo_prod_mv(self);
        let g0 = p.take_grade(0);
        if g0.components.len() == 0 {
            None
        } else {
            proof {
                assert(g0.components@[0].wf());
                assert(g0.cvs()[0] == g0.components@[0].cv());
            }
            Some(g0.components[0].mag)
        }
    }

    /// Whether the multivector is a blade: decomposable as an outer product
    /// of vectors.
    pub fn is_blade(&self) -> (r: bool)
        ensures
            r == is_blade_spec(self.cvs()),
    {
        if !self.is_single_grade() {
            return false;
        }
        if self.components.len() == 0 {
            return true;
        }
        if self.components[0].grade() < 2 {
            return true;
        }
        if self.components.len() < 2 {
            return true;
        }
        let n = self.components.len();
        let mut cur: Vec<bool> = Vec::new();
        cur.push(true);
        let mut t: usize = 1;
        while t < n
            invariant
                1 <= t <= n,
                cur@.len() == t,
                cur@[0] == true,
                forall|k: int| 1 <= k < t ==> cur@[k] == false,
            decreases n - t,
        {
            cur.push(false);
            t = t + 1;
        }
        proof {
            assert forall|j: int| 0 <= j < n implies cur@[j] == reach_n(
                self.cvs(),
                0,
            ).contains(j) by {}
        }
        let mut pass: usize = 0;
        while pass < n
            invariant
                pass <= n,
                n == self.components@.len(),
                n >= 2,
                cur@.len() == n,
                forall|j: int| 0 <= j < n ==> cur@[j] == reach_n(self.cvs(), pass as nat).contains(j),
            decreases n - pass,
        {
            let mut next: Vec<bool> = Vec::new();
            let mut j: usize = 0;
            while j < n
                invariant
                    j <= n,
                    n == self.components@.len(),
                    cur@.len() == n,
                    next@.len() == j,
                    forall|k: int|
                        0 <= k < n ==> cur@[k] == reach_n(self.cvs(), pass as nat).contains(k),
                    forall|k: int|
                        0 <= k < j ==> next@[k] == reach_ext(
                            self.cvs(),
                            reach_n(self.cvs(), pass as nat),
                        ).contains(k),
                decreases n - j,
            {
                let mut hit = cur[j];
                let mut i: usize = 0;
                while i < n
                    invariant
                        i <= n,
                        j < n,
                        n == self.components@.len(),
                        cur@.len() == n,
                        forall|k: int|
                            0 <= k < n ==> cur@[k] == reach_n(self.cvs(), pass as nat).contains(k),
                        hit == (reach_n(self.cvs(), pass as nat).contains(j as int) || exists|
                            k: int,
                        |
                            #![trigger reach_n(self.cvs(), pass as nat).contains(k)]
                            0 <= k < i && reach_n(self.cvs(), pass as nat).contains(k)
                                && bases_intersect(
                                self.cvs()[k].bases,
                                self.cvs()[j as int].bases,
                            )),
                    decreases n - i,
                {
                    if cur[i] && lists_intersect(&self.components[i].bases, &self.components[j].bases)
                    {
                        proof {
                            assert(reach_n(self.cvs(), pass as nat).contains(i as int)
                                && bases_intersect(
                                self.cvs()[i as int].bases,
                                self.cvs()[j as int].bases,
                            ));
                        }
                        hit = true;
                    }
                    i = i + 1;
                }
                next.push(hit);
                proof {
                    assert(next@[j as int] == reach_ext(
                        self.cvs(),
                        reach_n(self.cvs(), pass as nat),
                    ).contains(j as int));
                }
                j = j + 1;
            }
            cur = next;
            pass = pass + 1;
        }
        let mut all = true;
        let mut j: usize = 0;
        while j < n
            invariant
                j <= n,
                n == self.components@.len(),
                cur@.len() == n,
                forall|k: int| 0 <= k < n ==> cur@[k] == reach_n(self.cvs(), n as nat).contains(k),
                all == (forall|k: int|
                    0 <= k < j ==> reach_n(self.cvs(), n as nat).contains(k)),
            decreases n - j,
        {
            if !cur[j] {
                proof {
                    assert(!reach_n(self.cvs(), n as nat).contains(j as int));
                }
                all = false;
            }
            j = j + 1;
        }
        all
    }

    /// Checks at run time whether adding `rhs` into this multivector keeps
    /// the one merged coefficient inside the machine representation.
    pub fn comp_add_fits_check(&self, rhs: &Component) -> (b: bool)
        requires
            self.wf(),
            rhs.wf(),
        ensures
            b == comp_add_fits(self.cvs(), rhs.cv()),
    {
        if rhs.mag.is_zero() {
            return true;
        }
        let n = self.components.len();
        let mut j: usize = 0;
        while j < n && !self.components[j].same_bases(rhs)
            invariant
                0 <= j <= n,
                n == self.components@.len(),
                forall|k: int| 0 <= k < j ==> self.cvs()[k].bases != rhs.cv().bases,
            decreases n - j,
        {
            j = j + 1;
        }
        proof {
            lemma_find_bases_char(self.cvs(), rhs.bases@, j as int);
        }
        if j == n {
            return true;
        }
        let a = self.components[j].mag;
        let b = rhs.mag;
        proof {
            assert(self.components@[j as int].wf());
            crate::rational::lemma_i64_mul_bound(a.num as int, b.den as int);
            crate::rational::lemma_i64_mul_bound(b.num as int, a.den as int);
            crate::rational::lemma_i64_mul_in_i128(a.den as int, b.den as int);
        }
        let cross: i128 = (a.num as i128) * (b.den as i128) + (b.num as i128) * (a.den as i128);
        let dd: i128 = (a.den as i128) * (b.den as i128);
        -(i64::MAX as i128) <= cross && cross <= i64::MAX as i128 && dd <= i64::MAX as i128
    }

    /// The outer product with a scalar: plain scalar multiplication.
    pub fn outer_prod_scalar(&self, rhs: Rational) -> (r: Multivector)
        requires
            self.wf(),
            rhs.wf(),
            scalar_mult_fits(self.cvs(), rhs.num as int, rhs.den as int),
        ensures
            r.wf(),
            rhs.num == 0 ==> r.cvs() =~= Seq::<CompView>::empty(),
            rhs.num != 0 ==> r.cvs() == scalar_mult_spec(self.cvs(), rhs.num as int, rhs.den as int),
    {
        self.scalar_mult(rhs)
    }
}

/// Checks whether two basis lists share an entry.
fn lists_intersect(a: &Vec<ONBasis>, b: &Vec<ONBasis>) -> (r: bool)
    ensures
        r == bases_intersect(a@, b@),
{
    let mut i: usize = 0;
    while i < a.len()
        invariant
            i <= a@.len(),
            forall|p: int, q: int| 0 <= p < i && 0 <= q < b@.len() ==> a@[p] != b@[q],
        decreases a@.len() - i,
    {
        let mut j: usize = 0;
        while j < b.len()
            invariant
                i < a@.len(),
                j <= b@.len(),
                forall|q: int| 0 <= q < j ==> a@[i as int] != b@[q],
            decreases b@.len() - j,
        {
            if a[i] == b[j] {
                return true;
            }
            j = j + 1;
        }
        i = i + 1;
    }
    false
}

/// Two component views denote the same term: equal value, same bases.
pub open spec fn cv_eqv(a: CompView, b: CompView) -> bool {
    a.num * b.den == b.num * a.den && a.bases == b.bases
}

/// Some term of `t` denotes the same value as `c`.
pub open spec fn has_term(t: Seq<CompView>, c: CompView) -> bool {
    exists|q: int| 0 <= q < t.len() && cv_eqv(c, #[trigger] t[q])
}

impl PartialEq for Multivector {
    /// Multivectors are equal when they have the same number of terms and
    /// every term of the left side occurs in the right side; the order of
    /// the terms does not matter.
    fn eq(&self, other: &Multivector) -> (r: bool) {
        if self.components.len() != other.components.len() {
            return false;
        }
        let n = self.components.len();
        let mut i: usize = 0;
        while i < n
            invariant
                i <= n,
                n == self.components@.len(),
                n == other.components@.len(),
                forall|p: int|
                    0 <= p < i ==> has_term(
                        views(other.components@),
                        #[trigger] views(self.components@)[p],
                    ),
            decreases n - i,
        {
            let mut j: usize = 0;
            let mut found = false;
            while j < n
                invariant
                    i < n,
                    j <= n,
                    n == self.components@.len(),
                    n == other.components@.len(),
                    found ==> has_term(views(other.components@), views(self.components@)[i as int]),
                    !found ==> forall|q: int|
                        0 <= q < j ==> !cv_eqv(
                            views(self.components@)[i as int],
                            #[trigger] views(other.components@)[q],
                        ),
                decreases n - j,
            {
                if !found && self.components[i] == other.components[j] {
                    proof {
                        assert(cv_eqv(
                            views(self.components@)[i as int],
                            views(other.components@)[j as int],
                        ));
                    }
                    found = true;
                }
                j = j + 1;
            }
            if !found {
                proof {
                    assert(!has_term(
                        views(other.components@),
                        views(self.components@)[i as int],
                    ));
                }
                return false;
            }
            i = i + 1;
        }
        true
    }
}

impl vstd::std_specs::cmp::PartialEqSpecImpl for Multivector {
    open spec fn obeys_eq_spec() -> bool {
        true
    }

    open spec fn eq_spec(&self, other: &Multivector) -> bool {
        &&& self.components@.len() == other.components@.len()
        &&& forall|p: int|
            0 <= p < self.components@.len() ==> has_term(
                views(other.components@),
                #[trigger] views(self.components@)[p],
            )
    }
}

impl Component {
    /// A quick conversion from a component to a one-term multivector.
    pub fn to_mv(&self) -> (r: Multivector)
        requires
            self.wf(),
        ensures
            r.wf(),
            r.cvs() == seq![self.cv()],
    {
        let mut v: Vec<Component> = Vec::new();
        v.push(self.duplicate());
        proof {
            assert(views(v@) =~= seq![self.cv()]);
        }
        Multivector { components: v }
    }

    /// Adds two components into a multivector, merging them when they share
    /// the same bases.
    pub fn std_comp_add(&self, rhs: &Component) -> (r: Multivector)
        requires
            self.wf(),
            rhs.wf(),
            comp_add_fits(seq![self.cv()], rhs.cv()),
        ensures
            r.wf(),
            r.cvs() == comp_add_spec(seq![self.cv()], rhs.cv()),
    {
        self.to_mv().component_add(rhs)
    }

    /// The geometric product of a component on the left with every term of
    /// a multivector on the right.
    pub fn geo_product_mv(&self, rhs: &Multivector) -> (r: Multivector)
        requires
            self.wf(),
            rhs.wf(),
            comp_geo_mv_fits(Seq::empty(), self.cv(), rhs.cvs()),
        ensures
            r.wf(),
            r.cvs() == comp_geo_mv_spec(Seq::empty(), self.cv(), rhs.cvs()),
    {
        let mut acc = Multivector::zero();
        let mut j: usize = 0;
        proof {
            assert(rhs.cvs().skip(0) =~= rhs.cvs());
        }
        while j < rhs.components.len()
            invariant
                j <= rhs.components@.len(),
                self.wf(),
                rhs.wf(),
                acc.wf(),
                comp_geo_mv_spec(acc.cvs(), self.cv(), rhs.cvs().skip(j as int))
                    == comp_geo_mv_spec(Seq::empty(), self.cv(), rhs.cvs()),
                comp_geo_mv_fits(acc.cvs(), self.cv(), rhs.cvs().skip(j as int)),
            decreases rhs.components@.len() - j,
        {
            let ghost t = rhs.cvs().skip(j as int);
            proof {
                assert(t[0] == rhs.cvs()[j as int]);
                assert(t.skip(1) =~= rhs.cvs().skip(j as int + 1));
            }
            let p = self.geo_product(&rhs.components[j]);
            proof {
                lemma_geo_cv(p, *self, rhs.components@[j as int]);
            }
            acc = acc.component_add(&p);
            j = j + 1;
        }
        proof {
            assert(rhs.cvs().skip(rhs.components@.len() as int) =~= Seq::<CompView>::empty());
        }
        acc
    }
}

/// Finds the first index whose grade is strictly above `g` in a
/// grade-sorted list.
fn find_grade_gt(v: &Vec<Component>, g: usize) -> (j: usize)
    requires
        grade_sorted(views(v@)),
    ensures
        j == first_gt(g as nat, views(v@)),
{
    let mut j: usize = 0;
    while j < v.len() && v[j].bases.len() <= g
        invariant
            0 <= j <= v@.len(),
            forall|k: int| 0 <= k < j ==> views(v@)[k].grade() <= g,
        decreases v@.len() - j,
    {
        j = j + 1;
    }
    proof {
        lemma_first_gt_char(g as nat, views(v@), j as int);
    }
    j
}

/// Finds the first index whose grade is at least `g` in a grade-sorted list.
fn find_grade_ge(v: &Vec<Component>, g: usize) -> (j: usize)
    requires
        grade_sorted(views(v@)),
    ensures
        j == first_ge(g as nat, views(v@)),
{
    let mut j: usize = 0;
    while j < v.len() && v[j].bases.len() < g
        invariant
            0 <= j <= v@.len(),
            forall|k: int| 0 <= k < j ==> views(v@)[k].grade() < g,
        decreases v@.len() - j,
    {
        j = j + 1;
    }
    proof {
        lemma_first_ge_char(g as nat, views(v@), j as int);
    }
    j
}

} // verus!
