//! Algebraic laws of the canonicalization and the products, stated over the
//! same specifications that the operation contracts use.

use vstd::prelude::*;

use crate::basis::ONBasis;
use crate::canon::{
    canon, canon_bases, canon_factor, contains_id, id_set, ins, lemma_canon_concat_count,
    lemma_canon_of_sorted, lemma_canon_self, lemma_id_set, lemma_ins_pos_char,
    lemma_sorted_id_set_len, lemma_subset_same_len, pow_neg1, rev_sign, sorted_ids, sq_prod,
};
use crate::component::{
    ids_overlap, invertible, is_geo_of, is_inverse_of, is_left_cont_of, Component,
};

verus! {

/// Canonicalization is idempotent: a canonical component's basis sequence
/// canonicalizes to itself with factor one, so a component rebuilt from its
/// own magnitude and bases carries exactly the same content.
pub proof fn lemma_canonicalization_idempotent(c: Component)
    requires
        c.wf(),
    ensures
        canon_factor(c.bases@) == 1,
        canon_bases(c.bases@) == c.bases@,
        forall|r: Component|
            #![trigger r.is_canon_of(c.mag.num as int, c.mag.den as int, c.bases@)]
            r.is_canon_of(c.mag.num as int, c.mag.den as int, c.bases@) ==> r.cv() == c.cv(),
{
    lemma_canon_of_sorted(c.bases@);
    assert forall|r: Component|
        r.is_canon_of(c.mag.num as int, c.mag.den as int, c.bases@) implies r.cv() == c.cv() by {
        assert(c.mag.num as int * 1 == c.mag.num as int) by (nonlinear_arith);
        if c.mag.num == 0 {
            assert(r.bases@ =~= c.bases@);
        }
    }
}

/// The duplicate-squaring law: a basis next to itself fuses into the value
/// it squares to, leaving a scalar. A zero-squaring basis therefore
/// collapses the whole component to the canonical zero.
pub proof fn lemma_duplicate_squaring(e: ONBasis)
    ensures
        canon_factor(seq![e, e]) == e.square(),
        canon_bases(seq![e, e]) == Seq::<ONBasis>::empty(),
{
    let s = seq![e];
    assert(sorted_ids(s));
    lemma_canon_self(s);
    assert(s + s =~= seq![e, e]);
    assert(s.skip(1) =~= Seq::<ONBasis>::empty());
    assert(sq_prod(s) == e.square() * 1) by {
        assert(s[0] == e);
        assert(sq_prod(Seq::<ONBasis>::empty()) == 1);
        assert(sq_prod(s.skip(1)) == 1);
    }
    assert(rev_sign(1) * (e.square() * 1) == e.square()) by (nonlinear_arith)
        requires
            rev_sign(1) == 1,
    ;
}

/// The reordering sign law for three ascending bases: one adjacent swap
/// negates the coefficient, a cyclic rotation keeps it.
pub proof fn lemma_reordering_sign(e1: ONBasis, e2: ONBasis, e3: ONBasis)
    requires
        e1.id() < e2.id(),
        e2.id() < e3.id(),
        e1.square() == 1,
        e2.square() == 1,
        e3.square() == 1,
    ensures
        canon_factor(seq![e2, e1, e3]) == -1,
        canon_bases(seq![e2, e1, e3]) == seq![e1, e2, e3],
        canon_factor(seq![e2, e3, e1]) == 1,
        canon_bases(seq![e2, e3, e1]) == seq![e1, e2, e3],
{
    // [e2, e1, e3]: insert e1 before e3, then pass e2 over e1.
    let u = seq![e2, e1, e3];
    assert(u.skip(1) =~= seq![e1, e3]);
    assert(canon(seq![e1, e3]) == (1int, seq![e1, e3])) by {
        assert(sorted_ids(seq![e1, e3]));
        lemma_canon_of_sorted(seq![e1, e3]);
    }
    lemma_ins_pos_char(e2, seq![e1, e3], 1);
    assert(ins(e2, seq![e1, e3]).1 =~= seq![e1, e2, e3]);
    assert(ins(e2, seq![e1, e3]).0 == pow_neg1(1));
    assert(canon(u).0 == 1 * pow_neg1(1));
    assert(1 * pow_neg1(1) == -1) by (nonlinear_arith)
        requires
            pow_neg1(1) == -1,
    ;
    // [e2, e3, e1]: e3 passes over e1, then e2 lands between them.
    let w = seq![e2, e3, e1];
    assert(w.skip(1) =~= seq![e3, e1]);
    assert(seq![e3, e1].skip(1) =~= seq![e1]);
    assert(canon(seq![e1]) == (1int, seq![e1])) by {
        assert(sorted_ids(seq![e1]));
        lemma_canon_of_sorted(seq![e1]);
    }
    lemma_ins_pos_char(e3, seq![e1], 1);
    assert(ins(e3, seq![e1]).1 =~= seq![e1, e3]);
    assert(canon(seq![e3, e1]).0 == 1 * pow_neg1(1));
    assert(canon(seq![e3, e1]).1 == seq![e1, e3]);
    lemma_ins_pos_char(e2, seq![e1, e3], 1);
    assert(ins(e2, seq![e1, e3]).1 =~= seq![e1, e2, e3]);
    assert(canon(w).0 == (1 * pow_neg1(1)) * pow_neg1(1));
    assert((1 * pow_neg1(1)) * pow_neg1(1) == 1) by (nonlinear_arith)
        requires
            pow_neg1(1) == -1,
    ;
}

/// Outer-product nilpotency: a component of nonzero grade shares every
/// basis id with itself, so any component meeting the outer-product
/// contract for the pair is the canonical zero.
pub proof fn lemma_outer_nilpotent(a: Component)
    requires
        a.wf(),
        a.bases@.len() > 0,
    ensures
        ids_overlap(a.bases@, a.bases@),
        forall|r: Component|
            ((ids_overlap(a.bases@, a.bases@) ==> r.is_zero_comp()) && (!ids_overlap(
                a.bases@,
                a.bases@,
            ) ==> is_geo_of(r, a, a))) ==> #[trigger] r.is_zero_comp(),
{
    assert(a.bases@[0].id() == a.bases@[0].id());
}

/// The contraction grade law: a left contraction vanishes whenever the left
/// grade exceeds the right grade, and a nonzero contraction forces every
/// basis id of the left blade to occur in the right blade.
pub proof fn lemma_contraction_grade_law(r: Component, a: Component, b: Component)
    requires
        a.wf(),
        b.wf(),
        is_left_cont_of(r, a, b),
    ensures
        a.bases@.len() > b.bases@.len() ==> r.is_zero_comp(),
        !r.is_zero_comp() ==> forall|i: int|
            0 <= i < a.bases@.len() ==> contains_id(b.bases@, #[trigger] a.bases@[i].id()),
{
    if !r.is_zero_comp() {
        let sa = a.bases@;
        let sb = b.bases@;
        assert(sa.len() <= sb.len());
        assert(canon_bases(sa + sb).len() == sb.len() - sa.len());
        lemma_canon_concat_count(sa, sb);
        lemma_sorted_id_set_len(sa);
        lemma_id_set(sa);
        lemma_id_set(sb);
        let shared = id_set(sa).intersect(id_set(sb));
        vstd::set_lib::lemma_len_intersect(id_set(sa), id_set(sb));
        assert(shared.len() == sa.len());
        assert(shared.subset_of(id_set(sa)));
        lemma_subset_same_len(shared, id_set(sa));
        assert forall|i: int| 0 <= i < sa.len() implies contains_id(
            sb,
            #[trigger] sa[i].id(),
        ) by {
            assert(contains_id(sa, sa[i].id()));
            assert(id_set(sa).contains(sa[i].id()));
            assert(shared.contains(sa[i].id()));
            assert(id_set(sb).contains(sa[i].id()));
        }
    }
}

/// The inverse law: the geometric product of an invertible blade with its
/// inverse is exactly the scalar one.
pub proof fn lemma_inverse_cancels(a: Component, c: Component, r: Component)
    requires
        a.wf(),
        invertible(a),
        is_inverse_of(c, a),
        is_geo_of(r, a, c),
    ensures
        r.bases@.len() == 0,
        r.mag.is_ratio(1, 1),
{
    let s = a.bases@;
    lemma_canon_self(s);
    assert(s + c.bases@ == s + s);
    let rs = rev_sign(s.len());
    let sq = sq_prod(s);
    crate::canon::lemma_sq_prod_range(s);
    let n = a.mag.num as int;
    let d = a.mag.den as int;
    assert(c.mag.num == rs * sq * n * (d * d));
    assert(c.mag.den == d * (n * n));
    assert(n * (rs * sq * n * (d * d)) * (rs * sq) == d * (d * (n * n)) && n * (rs * sq * n * (d
        * d)) * (rs * sq) != 0) by (nonlinear_arith)
        requires
            rs == 1 || rs == -1,
            sq == 1 || sq == -1,
            n != 0,
            d > 0,
    ;
    assert(!r.is_zero_comp());
    assert(r.mag.num * 1 == 1 * r.mag.den) by {
        assert(r.mag.num == n * c.mag.num * (rs * sq));
        assert(r.mag.den == d * c.mag.den);
        assert(n * c.mag.num * (rs * sq) == d * c.mag.den) by (nonlinear_arith)
            requires
                c.mag.num == rs * sq * n * (d * d),
                c.mag.den == d * (n * n),
                rs == 1 || rs == -1,
                sq == 1 || sq == -1,
                n != 0,
                d > 0,
        ;
        assert(r.mag.num * 1 == r.mag.num) by (nonlinear_arith);
        assert(1 * r.mag.den == r.mag.den) by (nonlinear_arith);
    }
}

/// The grade half of the dual/undual round trip: contracting a blade onto
/// a pseudoscalar that contains all its basis ids always survives the grade
/// selection, with exactly the complementary grade; contracting the
/// complement back restores the original grade.
pub proof fn lemma_dual_grade(a: Component, i: Component)
    requires
        a.wf(),
        i.wf(),
        a.bases@.len() <= i.bases@.len(),
        forall|k: int| 0 <= k < a.bases@.len() ==> contains_id(i.bases@, #[trigger] a.bases@[k].id()),
    ensures
        canon_bases(a.bases@ + i.bases@).len() == i.bases@.len() - a.bases@.len(),
{
    let sa = a.bases@;
    let sb = i.bases@;
    lemma_canon_concat_count(sa, sb);
    lemma_sorted_id_set_len(sa);
    lemma_id_set(sa);
    lemma_id_set(sb);
    let shared = id_set(sa).intersect(id_set(sb));
    assert(shared =~= id_set(sa)) by {
        assert forall|x: nat| id_set(sa).contains(x) implies shared.contains(x) by {
            let k = choose|k: int| 0 <= k < sa.len() && (#[trigger] sa[k].id()) == x;
            assert(contains_id(sb, sa[k].id()));
            assert(id_set(sb).contains(x));
        }
    }
}

/// Every basis of the sequence squares to one, so the square product is one.
pub proof fn lemma_sq_prod_ones(s: Seq<ONBasis>)
    requires
        forall|i: int| 0 <= i < s.len() ==> #[trigger] s[i].square() == 1,
    ensures
        sq_prod(s) == 1,
    decreases s.len(),
{
    if s.len() > 0 {
        assert(forall|i: int|
            0 <= i < s.skip(1).len() ==> #[trigger] s.skip(1)[i].square() == 1) by {
            assert(forall|i: int| 0 <= i < s.skip(1).len() ==> s.skip(1)[i] == s[i + 1]);
        }
        lemma_sq_prod_ones(s.skip(1));
    }
}

/// The orthonormal diagonal law: a canonical blade over bases that square
/// to one annihilates against itself with exactly the reversion sign of its
/// grade, the `+ + - -` pattern.
pub proof fn lemma_unit_blade_self_product(a: Component)
    requires
        a.wf(),
        forall|i: int| 0 <= i < a.bases@.len() ==> #[trigger] a.bases@[i].square() == 1,
    ensures
        canon_factor(a.bases@ + a.bases@) == rev_sign(a.bases@.len()),
        canon_bases(a.bases@ + a.bases@) == Seq::<ONBasis>::empty(),
{
    lemma_canon_self(a.bases@);
    lemma_sq_prod_ones(a.bases@);
    assert(rev_sign(a.bases@.len()) * 1 == rev_sign(a.bases@.len())) by (nonlinear_arith);
}

} // verus!
