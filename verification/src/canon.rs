//! Basis-sequence canonicalization.
//!
//! Multiplying basis vectors of an orthonormal algebra obeys two rewrite
//! rules: equal ids annihilate into the basis square, and distinct adjacent
//! ids anticommute. `canon` gives the unique normal form of a basis sequence
//! as a scalar factor in {-1, 0, +1} together with a strictly ascending,
//! duplicate-free sequence; `canonicalize` computes it.

use vstd::prelude::*;

use crate::basis::ONBasis;

verus! {

/// Strictly ascending basis ids, hence no duplicates.
pub open spec fn sorted_ids(s: Seq<ONBasis>) -> bool {
    forall|i: int, j: int| 0 <= i < j < s.len() ==> s[i].id() < s[j].id()
}

/// `(-1)^k`.
pub open spec fn pow_neg1(k: int) -> int {
    if k % 2 == 0 {
        1
    } else {
        -1
    }
}

/// The position where a basis of this id belongs in `s`: the first index
/// holding an id at least as large, or the length when every id is smaller.
pub open spec fn ins_pos(b: ONBasis, s: Seq<ONBasis>) -> int
    decreases s.len(),
{
    if s.len() == 0 {
        0
    } else if s[0].id() >= b.id() {
        0
    } else {
        1 + ins_pos(b, s.skip(1))
    }
}

/// Inserting one basis into a canonical sequence: passing it over `j`
/// smaller-id entries flips the sign `j` times; meeting an equal id
/// annihilates the pair into the basis square.
pub open spec fn ins(b: ONBasis, s: Seq<ONBasis>) -> (int, Seq<ONBasis>) {
    let j = ins_pos(b, s);
    if j < s.len() && s[j].id() == b.id() {
        (pow_neg1(j) * b.square(), s.remove(j))
    } else {
        (pow_neg1(j), s.insert(j, b))
    }
}

/// The canonical form of an arbitrary basis sequence: a scalar factor and
/// the strictly ascending sequence of surviving bases.
pub open spec fn canon(s: Seq<ONBasis>) -> (int, Seq<ONBasis>)
    decreases s.len(),
{
    if s.len() == 0 {
        (1, Seq::empty())
    } else {
        let t = canon(s.skip(1));
        let r = ins(s[0], t.1);
        (t.0 * r.0, r.1)
    }
}

pub open spec fn canon_factor(s: Seq<ONBasis>) -> int {
    canon(s).0
}

pub open spec fn canon_bases(s: Seq<ONBasis>) -> Seq<ONBasis> {
    canon(s).1
}

/// Every entry strictly before the insertion position has a smaller id, and
/// the entry at the position (when any) does not.
pub proof fn lemma_ins_pos_bounds(b: ONBasis, s: Seq<ONBasis>)
    ensures
        0 <= ins_pos(b, s) <= s.len(),
        forall|k: int| 0 <= k < ins_pos(b, s) ==> s[k].id() < b.id(),
        ins_pos(b, s) < s.len() ==> s[ins_pos(b, s)].id() >= b.id(),
    decreases s.len(),
{
    if s.len() == 0 {
    } else if s[0].id() >= b.id() {
    } else {
        lemma_ins_pos_bounds(b, s.skip(1));
        assert forall|k: int| 0 <= k < ins_pos(b, s) implies s[k].id() < b.id() by {
            if k > 0 {
                assert(s.skip(1)[k - 1] == s[k]);
            }
        }
    }
}

/// The insertion position is determined by the two facts above.
pub proof fn lemma_ins_pos_char(b: ONBasis, s: Seq<ONBasis>, j: int)
    requires
        0 <= j <= s.len(),
        forall|k: int| 0 <= k < j ==> s[k].id() < b.id(),
        j < s.len() ==> s[j].id() >= b.id(),
    ensures
        ins_pos(b, s) == j,
    decreases s.len(),
{
    if s.len() == 0 {
    } else if s[0].id() >= b.id() {
        assert(j == 0);
    } else {
        assert(s[0].id() < b.id());
        assert(j >= 1);
        lemma_ins_pos_char(b, s.skip(1), j - 1);
    }
}

/// Inserting into a strictly sorted sequence keeps it strictly sorted, and
/// the sign factor stays in {-1, 0, +1}.
pub proof fn lemma_ins_sorted(b: ONBasis, s: Seq<ONBasis>)
    requires
        sorted_ids(s),
    ensures
        sorted_ids(ins(b, s).1),
        -1 <= ins(b, s).0 <= 1,
        ins(b, s).1.len() <= s.len() + 1,
{
    lemma_ins_pos_bounds(b, s);
    let j = ins_pos(b, s);
    assert(-1 <= pow_neg1(j) * b.square() <= 1) by (nonlinear_arith)
        requires
            pow_neg1(j) == 1 || pow_neg1(j) == -1,
            -1 <= b.square() <= 1,
    ;
    if j < s.len() && s[j].id() == b.id() {
        let r = s.remove(j);
        assert forall|p: int, q: int| 0 <= p < q < r.len() implies r[p].id() < r[q].id() by {
            let sp: int = if p < j {
                p
            } else {
                p + 1
            };
            let sq: int = if q < j {
                q
            } else {
                q + 1
            };
            assert(r[p] == s[sp]);
            assert(r[q] == s[sq]);
        }
    } else {
        let r = s.insert(j, b);
        assert forall|p: int, q: int| 0 <= p < q < r.len() implies r[p].id() < r[q].id() by {
            if p < j && q == j {
                assert(r[p] == s[p]);
            } else if p == j && q > j {
                assert(r[q] == s[q - 1]);
                assert(s[q - 1].id() > b.id()) by {
                    if q - 1 == j {
                        assert(s[j].id() != b.id());
                    }
                }
            } else if p < j && q > j {
                assert(r[p] == s[p]);
                assert(r[q] == s[q - 1]);
            } else if p > j && q > j {
                assert(r[p] == s[p - 1]);
                assert(r[q] == s[q - 1]);
            } else {
                assert(r[p] == s[p]);
                assert(r[q] == s[q]);
            }
        }
    }
}

/// The canonical form is strictly sorted and its factor lies in {-1, 0, +1}.
pub proof fn lemma_canon_sorted(s: Seq<ONBasis>)
    ensures
        sorted_ids(canon(s).1),
        -1 <= canon(s).0 <= 1,
        canon(s).1.len() <= s.len(),
    decreases s.len(),
{
    if s.len() == 0 {
    } else {
        lemma_canon_sorted(s.skip(1));
        let t = canon(s.skip(1));
        lemma_ins_sorted(s[0], t.1);
        let r = ins(s[0], t.1);
        assert(-1 <= t.0 * r.0 <= 1) by (nonlinear_arith)
            requires
                -1 <= t.0 <= 1,
                -1 <= r.0 <= 1,
        ;
    }
}

/// Canonicalizing an already canonical sequence changes nothing.
pub proof fn lemma_canon_of_sorted(s: Seq<ONBasis>)
    requires
        sorted_ids(s),
    ensures
        canon(s).0 == 1,
        canon(s).1 == s,
    decreases s.len(),
{
    if s.len() == 0 {
        assert(canon(s).1 =~= s);
    } else {
        let tail = s.skip(1);
        assert(sorted_ids(tail)) by {
            assert(forall|i: int, j: int|
                0 <= i < j < tail.len() ==> tail[i] == s[i + 1] && tail[j] == s[j + 1]);
        }
        lemma_canon_of_sorted(tail);
        if tail.len() > 0 {
            assert(tail[0] == s[1]);
            assert(s[0].id() < tail[0].id());
        }
        lemma_ins_pos_char(s[0], tail, 0);
        assert(ins(s[0], tail).1 =~= s);
    }
}

/// The sign that reversion applies to a blade of grade `g`: the pattern
/// `+ + - -` as the grade grows.
pub open spec fn rev_sign(g: nat) -> int {
    if (g / 2) % 2 == 0 {
        1
    } else {
        -1
    }
}

/// The product of the squares of all bases in the sequence.
pub open spec fn sq_prod(s: Seq<ONBasis>) -> int
    decreases s.len(),
{
    if s.len() == 0 {
        1
    } else {
        s[0].square() * sq_prod(s.skip(1))
    }
}

/// The square product lies in {-1, 0, +1}.
pub proof fn lemma_sq_prod_range(s: Seq<ONBasis>)
    ensures
        -1 <= sq_prod(s) <= 1,
    decreases s.len(),
{
    if s.len() > 0 {
        lemma_sq_prod_range(s.skip(1));
        assert(-1 <= s[0].square() * sq_prod(s.skip(1)) <= 1) by (nonlinear_arith)
            requires
                -1 <= s[0].square() <= 1,
                -1 <= sq_prod(s.skip(1)) <= 1,
        ;
    }
}

/// The square product vanishes exactly when some basis squares to zero.
pub proof fn lemma_sq_prod_zero(s: Seq<ONBasis>)
    ensures
        (sq_prod(s) == 0) <==> (exists|i: int| 0 <= i < s.len() && s[i].square() == 0),
    decreases s.len(),
{
    if s.len() > 0 {
        lemma_sq_prod_zero(s.skip(1));
        assert(s[0].square() * sq_prod(s.skip(1)) == 0 <==> (s[0].square() == 0 || sq_prod(
            s.skip(1),
        ) == 0)) by (nonlinear_arith);
        if sq_prod(s) == 0 {
            if s[0].square() == 0 {
                assert(s[0].square() == 0 && 0 <= 0 < s.len());
            } else {
                let i = choose|i: int| 0 <= i < s.skip(1).len() && s.skip(1)[i].square() == 0;
                assert(s[i + 1] == s.skip(1)[i]);
            }
        } else {
            if exists|i: int| 0 <= i < s.len() && s[i].square() == 0 {
                let i = choose|i: int| 0 <= i < s.len() && s[i].square() == 0;
                if i > 0 {
                    assert(s.skip(1)[i - 1] == s[i]);
                }
            }
        }
    }
}

/// The cumulative reversion sign: the product of `(-1)^m` for `m` below `k`.
spec fn rev_accum(k: int) -> int
    decreases k,
{
    if k <= 0 {
        1
    } else {
        rev_accum(k - 1) * pow_neg1(k - 1)
    }
}

/// The cumulative reversion sign follows the `+ + - -` grade pattern.
proof fn lemma_rev_accum_is_rev_sign(k: int)
    requires
        k >= 0,
    ensures
        rev_accum(k) == rev_sign(k as nat),
        rev_accum(k) == 1 || rev_accum(k) == -1,
    decreases k,
{
    if k > 0 {
        lemma_rev_accum_is_rev_sign(k - 1);
        assert(rev_sign((k - 1) as nat) * pow_neg1(k - 1) == rev_sign(k as nat)) by {
            if k % 4 == 0 {
            } else if k % 4 == 1 {
            } else if k % 4 == 2 {
            } else {
            }
        }
    }
}

/// The running factor produced by fusing the left copy of `s` into the
/// right copy, starting at index `k`.
spec fn self_fuse_factor(s: Seq<ONBasis>, k: int) -> int
    decreases s.len() - k,
{
    if k < 0 || k >= s.len() {
        1
    } else {
        self_fuse_factor(s, k + 1) * (pow_neg1(k) * s[k].square())
    }
}

/// Canonicalizing the suffix of a duplicated sorted sequence fuses the
/// processed entries pairwise and leaves the unprocessed prefix.
proof fn lemma_canon_self_aux(s: Seq<ONBasis>, k: int)
    requires
        sorted_ids(s),
        0 <= k <= s.len(),
    ensures
        canon(s.skip(k) + s).0 == self_fuse_factor(s, k),
        canon(s.skip(k) + s).1 == s.take(k),
    decreases s.len() - k,
{
    if k == s.len() {
        assert(s.skip(k) + s =~= s);
        lemma_canon_of_sorted(s);
        assert(canon(s.skip(k) + s).1 =~= s.take(k));
    } else {
        let u = s.skip(k) + s;
        assert(u.len() > 0);
        assert(u[0] == s[k]);
        assert(u.skip(1) =~= s.skip(k + 1) + s);
        lemma_canon_self_aux(s, k + 1);
        let t = s.take(k + 1);
        assert forall|m: int| 0 <= m < k implies t[m].id() < s[k as int].id() by {
            assert(t[m] == s[m]);
        }
        assert(t[k as int].id() == s[k as int].id());
        lemma_ins_pos_char(s[k as int], t, k);
        assert(ins(s[k as int], t).1 =~= s.take(k)) by {
            assert(t.remove(k) =~= s.take(k));
        }
        assert(canon(u).0 == self_fuse_factor(s, k + 1) * (pow_neg1(k) * s[k as int].square()));
    }
}

/// Relates the pairwise fusion factor to the reversion sign and the square
/// product of the whole sequence.
proof fn lemma_self_fuse_factor(s: Seq<ONBasis>, k: int)
    requires
        0 <= k <= s.len(),
    ensures
        self_fuse_factor(s, k) * rev_accum(k) == rev_accum(s.len() as int) * sq_prod(s.skip(k)),
    decreases s.len() - k,
{
    if k == s.len() {
        assert(s.skip(k) =~= Seq::<ONBasis>::empty());
        lemma_rev_accum_is_rev_sign(k);
        assert(rev_accum(k) * rev_accum(k) == 1) by (nonlinear_arith)
            requires
                rev_accum(k) == 1 || rev_accum(k) == -1,
        ;
        assert(rev_accum(s.len() as int) * sq_prod(s.skip(k)) == rev_accum(s.len() as int))
            by (nonlinear_arith)
            requires
                sq_prod(s.skip(k)) == 1,
        ;
        assert(self_fuse_factor(s, k) * rev_accum(k) == rev_accum(k)) by (nonlinear_arith)
            requires
                self_fuse_factor(s, k) == 1,
        ;
        assert(rev_accum(k) == rev_accum(s.len() as int));
    } else {
        lemma_self_fuse_factor(s, k + 1);
        assert(s.skip(k)[0] == s[k]);
        assert(s.skip(k).skip(1) =~= s.skip(k + 1));
        assert(sq_prod(s.skip(k)) == s[k].square() * sq_prod(s.skip(k + 1)));
        let f1 = self_fuse_factor(s, k + 1);
        let r1 = rev_accum(k + 1);
        let g = rev_accum(s.len() as int);
        let p = pow_neg1(k);
        let q = s[k].square();
        let pk = sq_prod(s.skip(k + 1));
        assert(rev_accum(k + 1) == rev_accum(k) * pow_neg1(k));
        assert((f1 * (p * q)) * rev_accum(k) == (f1 * (rev_accum(k) * p)) * q)
            by (nonlinear_arith);
        assert((f1 * r1) * q == (g * pk) * q) by (nonlinear_arith)
            requires
                f1 * r1 == g * pk,
        ;
        assert((g * pk) * q == g * (q * pk)) by (nonlinear_arith);
        assert(self_fuse_factor(s, k) == f1 * (p * q));
    }
}

/// Canonicalizing a sorted duplicate-free sequence concatenated with itself
/// annihilates every basis: what remains is the empty sequence scaled by the
/// reversion sign of the grade times the product of the squares.
pub proof fn lemma_canon_self(s: Seq<ONBasis>)
    requires
        sorted_ids(s),
    ensures
        canon(s + s).0 == rev_sign(s.len()) * sq_prod(s),
        canon(s + s).1 == Seq::<ONBasis>::empty(),
    decreases s.len(),
{
    lemma_canon_self_aux(s, 0);
    lemma_self_fuse_factor(s, 0);
    assert(s.skip(0) =~= s);
    assert(s.take(0) =~= Seq::<ONBasis>::empty());
    lemma_rev_accum_is_rev_sign(s.len() as int);
    assert(self_fuse_factor(s, 0) * 1 == self_fuse_factor(s, 0)) by (nonlinear_arith);
}

/// Some entry of the sequence carries the id `t`.
pub open spec fn contains_id(s: Seq<ONBasis>, t: nat) -> bool {
    exists|i: int| 0 <= i < s.len() && (#[trigger] s[i].id()) == t
}

/// The set of ids in a basis sequence.
pub open spec fn id_set(s: Seq<ONBasis>) -> Set<nat>
    decreases s.len(),
{
    if s.len() == 0 {
        Set::empty()
    } else {
        id_set(s.skip(1)).insert(s[0].id())
    }
}

/// The id set is finite, no larger than the sequence, and holds exactly the
/// ids the sequence carries.
pub proof fn lemma_id_set(s: Seq<ONBasis>)
    ensures
        id_set(s).finite(),
        id_set(s).len() <= s.len(),
        forall|t: nat| #[trigger] id_set(s).contains(t) <==> contains_id(s, t),
    decreases s.len(),
{
    if s.len() == 0 {
        assert(forall|t: nat| !contains_id(s, t));
    } else {
        let s2 = s.skip(1);
        lemma_id_set(s2);
        vstd::set::axiom_set_insert_len(id_set(s2), s[0].id());
        assert forall|t: nat| #[trigger] id_set(s).contains(t) implies contains_id(s, t) by {
            if t == s[0].id() {
                assert(s[0].id() == t);
            } else {
                let i = choose|i: int| 0 <= i < s2.len() && (#[trigger] s2[i].id()) == t;
                assert(s[i + 1] == s2[i]);
            }
        }
        assert forall|t: nat| contains_id(s, t) implies #[trigger] id_set(s).contains(t) by {
            let i = choose|i: int| 0 <= i < s.len() && (#[trigger] s[i].id()) == t;
            if i > 0 {
                assert(s2[i - 1] == s[i]);
                assert(contains_id(s2, t));
            }
        }
    }
}

/// A strictly sorted sequence has as many ids as entries.
pub proof fn lemma_sorted_id_set_len(s: Seq<ONBasis>)
    requires
        sorted_ids(s),
    ensures
        id_set(s).len() == s.len(),
    decreases s.len(),
{
    if s.len() > 0 {
        let s2 = s.skip(1);
        assert(sorted_ids(s2)) by {
            assert(forall|i: int, j: int|
                0 <= i < j < s2.len() ==> s2[i] == s[i + 1] && s2[j] == s[j + 1]);
        }
        lemma_sorted_id_set_len(s2);
        lemma_id_set(s2);
        assert(!id_set(s2).contains(s[0].id())) by {
            if contains_id(s2, s[0].id()) {
                let i = choose|i: int|
                    0 <= i < s2.len() && (#[trigger] s2[i].id()) == s[0].id();
                assert(s2[i] == s[i + 1]);
            }
        }
        vstd::set::axiom_set_insert_len(id_set(s2), s[0].id());
    }
}

/// Removing the entry at one index of a strictly sorted sequence removes
/// exactly its id.
pub proof fn lemma_id_set_remove(s: Seq<ONBasis>, j: int)
    requires
        sorted_ids(s),
        0 <= j < s.len(),
    ensures
        id_set(s.remove(j)) =~= id_set(s).remove(s[j].id()),
{
    let r = s.remove(j);
    lemma_id_set(r);
    lemma_id_set(s);
    assert forall|t: nat| #[trigger] id_set(r).contains(t) implies id_set(s).remove(
        s[j].id(),
    ).contains(t) by {
        let i = choose|i: int| 0 <= i < r.len() && (#[trigger] r[i].id()) == t;
        let si: int = if i < j {
            i
        } else {
            i + 1
        };
        assert(r[i] == s[si]);
        assert(contains_id(s, t));
        assert(s[si].id() != s[j].id()) by {
            if si < j {
            } else {
            }
        }
    }
    assert forall|t: nat| id_set(s).remove(s[j].id()).contains(t) implies #[trigger] id_set(
        r,
    ).contains(t) by {
        let i = choose|i: int| 0 <= i < s.len() && (#[trigger] s[i].id()) == t;
        assert(i != j);
        let ri: int = if i < j {
            i
        } else {
            i - 1
        };
        assert(r[ri] == s[i]);
        assert(contains_id(r, t));
    }
}

/// Inserting an entry inserts exactly its id.
pub proof fn lemma_id_set_insert(s: Seq<ONBasis>, j: int, b: ONBasis)
    requires
        0 <= j <= s.len(),
    ensures
        id_set(s.insert(j, b)) =~= id_set(s).insert(b.id()),
{
    let r = s.insert(j, b);
    lemma_id_set(r);
    lemma_id_set(s);
    assert forall|t: nat| #[trigger] id_set(r).contains(t) implies id_set(s).insert(
        b.id(),
    ).contains(t) by {
        let i = choose|i: int| 0 <= i < r.len() && (#[trigger] r[i].id()) == t;
        if i != j {
            let si: int = if i < j {
                i
            } else {
                i - 1
            };
            assert(r[i] == s[si]);
            assert(contains_id(s, t));
        }
    }
    assert forall|t: nat| id_set(s).insert(b.id()).contains(t) implies #[trigger] id_set(
        r,
    ).contains(t) by {
        if t == b.id() {
            assert(r[j] == b);
            assert(contains_id(r, t));
        } else {
            let i = choose|i: int| 0 <= i < s.len() && (#[trigger] s[i].id()) == t;
            let ri: int = if i < j {
                i
            } else {
                i + 1
            };
            assert(r[ri] == s[i]);
            assert(contains_id(r, t));
        }
    }
}

/// Canonicalizing the concatenation of two sorted duplicate-free sequences
/// keeps exactly the ids present in one side but not the other, and the
/// surviving length drops by two for every shared id.
pub proof fn lemma_canon_concat_count(a: Seq<ONBasis>, b: Seq<ONBasis>)
    requires
        sorted_ids(a),
        sorted_ids(b),
    ensures
        id_set(canon_bases(a + b)) =~= id_set(a).difference(id_set(b)).union(
            id_set(b).difference(id_set(a)),
        ),
        canon_bases(a + b).len() == a.len() + b.len() - 2 * id_set(a).intersect(id_set(b)).len(),
    decreases a.len(),
{
    lemma_id_set(a);
    lemma_id_set(b);
    vstd::set_lib::lemma_len_intersect(id_set(a), id_set(b));
    if a.len() == 0 {
        assert(a + b =~= b);
        lemma_canon_of_sorted(b);
        lemma_sorted_id_set_len(b);
        assert(id_set(a).intersect(id_set(b)) =~= Set::<nat>::empty());
        assert(id_set(b) =~= id_set(a).difference(id_set(b)).union(
            id_set(b).difference(id_set(a)),
        ));
    } else {
        let a0 = a[0];
        let a2 = a.skip(1);
        assert(sorted_ids(a2)) by {
            assert(forall|i: int, j: int|
                0 <= i < j < a2.len() ==> a2[i] == a[i + 1] && a2[j] == a[j + 1]);
        }
        lemma_canon_concat_count(a2, b);
        lemma_id_set(a2);
        assert((a + b).skip(1) =~= a2 + b);
        assert((a + b)[0] == a0);
        lemma_canon_sorted(a2 + b);
        let t = canon_bases(a2 + b);
        assert(canon_bases(a + b) == ins(a0, t).1);
        lemma_id_set(t);
        lemma_ins_pos_bounds(a0, t);
        let j = ins_pos(a0, t);
        // the head id is fresh among the rest of `a`
        assert(!id_set(a2).contains(a0.id())) by {
            if contains_id(a2, a0.id()) {
                let i = choose|i: int|
                    0 <= i < a2.len() && (#[trigger] a2[i].id()) == a0.id();
                assert(a2[i] == a[i + 1]);
            }
        }
        assert(id_set(a) == id_set(a2).insert(a0.id()));
        vstd::set::axiom_set_insert_len(id_set(a2), a0.id());
        vstd::set_lib::lemma_len_intersect(id_set(a2), id_set(b));
        let shared2 = id_set(a2).intersect(id_set(b));
        let fuse = j < t.len() && t[j].id() == a0.id();
        assert(fuse <==> id_set(t).contains(a0.id())) by {
            if fuse {
                assert(contains_id(t, a0.id()));
            } else if id_set(t).contains(a0.id()) {
                let i = choose|i: int| 0 <= i < t.len() && (#[trigger] t[i].id()) == a0.id();
                assert(forall|k: int| 0 <= k < i ==> t[k].id() < t[i].id());
                lemma_ins_pos_char(a0, t, i);
            }
        }
        if fuse {
            // the head id sits in `b` and fuses away
            assert(id_set(b).contains(a0.id()));
            assert(canon_bases(a + b) == t.remove(j));
            lemma_id_set_remove(t, j);
            assert(id_set(canon_bases(a + b)) =~= id_set(a).difference(id_set(b)).union(
                id_set(b).difference(id_set(a)),
            ));
            assert(id_set(a).intersect(id_set(b)) =~= shared2.insert(a0.id()));
            vstd::set::axiom_set_insert_len(shared2, a0.id());
        } else {
            // the head id is new and is inserted
            assert(!id_set(b).contains(a0.id()));
            assert(canon_bases(a + b) == t.insert(j, a0));
            lemma_id_set_insert(t, j, a0);
            assert(id_set(canon_bases(a + b)) =~= id_set(a).difference(id_set(b)).union(
                id_set(b).difference(id_set(a)),
            ));
            assert(id_set(a).intersect(id_set(b)) =~= shared2);
        }
    }
}

/// A finite superset of the same size is the same set.
pub proof fn lemma_subset_same_len(s1: Set<nat>, s2: Set<nat>)
    requires
        s1.subset_of(s2),
        s2.finite(),
        s1.len() == s2.len(),
    ensures
        s1 =~= s2,
{
    assert forall|x: nat| s2.contains(x) implies s1.contains(x) by {
        if !s1.contains(x) {
            assert(s1.subset_of(s2.remove(x)));
            vstd::set::axiom_set_remove_len(s2, x);
            vstd::set_lib::lemma_len_subset(s1, s2.remove(x));
        }
    }
}

/// Multiplies two scalar factors that both lie in {-1, 0, +1}.
fn sign_mul(a: i64, b: i64) -> (r: i64)
    requires
        -1 <= a <= 1,
        -1 <= b <= 1,
    ensures
        r == a * b,
        -1 <= r <= 1,
{
    if b == 0 {
        proof {
            assert(a * 0 == 0) by (nonlinear_arith);
        }
        0
    } else if b == 1 {
        proof {
            assert(a * 1 == a) by (nonlinear_arith);
        }
        a
    } else {
        proof {
            assert(b == -1);
            assert(a * -1 == -a) by (nonlinear_arith);
        }
        -a
    }
}

/// Finds the insertion position of `b` in the strictly sorted `s`.
fn find_pos(b: ONBasis, s: &Vec<ONBasis>) -> (j: usize)
    requires
        sorted_ids(s@),
    ensures
        j == ins_pos(b, s@),
{
    let mut j: usize = 0;
    while j < s.len() && s[j].unwrap() < b.unwrap()
        invariant
            0 <= j <= s@.len(),
            forall|k: int| 0 <= k < j ==> s@[k].id() < b.id(),
        decreases s@.len() - j,
    {
        j = j + 1;
    }
    proof {
        lemma_ins_pos_char(b, s@, j as int);
    }
    j
}

/// Computes the canonical form of a basis sequence: the scalar factor and
/// the ascending duplicate-free surviving bases.
pub fn canonicalize(bases: &Vec<ONBasis>) -> (res: (i64, Vec<ONBasis>))
    ensures
        res.0 as int == canon_factor(bases@),
        res.1@ == canon_bases(bases@),
        -1 <= res.0 <= 1,
        sorted_ids(res.1@),
{
    let mut factor: i64 = 1;
    let mut out: Vec<ONBasis> = Vec::new();
    let mut i = bases.len();
    proof {
        assert(bases@.skip(i as int) =~= Seq::<ONBasis>::empty());
    }
    while i > 0
        invariant
            i <= bases@.len(),
            factor as int == canon(bases@.skip(i as int)).0,
            out@ == canon(bases@.skip(i as int)).1,
            -1 <= factor <= 1,
            sorted_ids(out@),
        decreases i,
    {
        let ghost prev = bases@.skip(i as int);
        i = i - 1;
        let b = bases[i];
        let ghost told = out@;
        proof {
            assert(bases@.skip(i as int) =~= seq![b] + prev);
            assert(bases@.skip(i as int).skip(1) =~= prev);
            lemma_ins_pos_bounds(b, out@);
        }
        let j = find_pos(b, &out);
        let ghost p = pow_neg1(j as int);
        if j < out.len() && out[j].unwrap() == b.unwrap() {
            out.remove(j);
            let s = b.sqr();
            let fs = if j % 2 == 0 { s } else { -s };
            proof {
                if j % 2 == 0 {
                    assert(p * b.square() == b.square()) by (nonlinear_arith)
                        requires
                            p == 1,
                    ;
                } else {
                    assert(p * b.square() == -b.square()) by (nonlinear_arith)
                        requires
                            p == -1,
                    ;
                }
                assert(fs as int == ins(b, told).0);
            }
            factor = sign_mul(factor, fs);
        } else {
            out.insert(j, b);
            if j % 2 == 1 {
                proof {
                    assert(factor * p == -factor) by (nonlinear_arith)
                        requires
                            p == -1,
                    ;
                }
                factor = -factor;
            } else {
                proof {
                    assert(factor * p == factor) by (nonlinear_arith)
                        requires
                            p == 1,
                    ;
                }
            }
        }
        proof {
            lemma_canon_sorted(bases@.skip(i as int));
        }
    }
    proof {
        assert(bases@.skip(0) =~= bases@);
    }
    (factor, out)
}

} // verus!
