//! A Laplace-expansion determinant over exact rational matrices: an
//! independent computation path for validating scalar products of
//! equal-grade blades.

use vstd::prelude::*;

use crate::canon::pow_neg1;
use crate::rational::Rational;

verus! {

/// The exact pair view of one rational entry.
pub open spec fn rv(r: Rational) -> (int, int) {
    (r.num as int, r.den as int)
}

/// The pair view of a rational matrix.
pub open spec fn mat_view(m: Seq<Vec<Rational>>) -> Seq<Seq<(int, int)>> {
    m.map_values(|row: Vec<Rational>| row@.map_values(|x: Rational| rv(x)))
}

/// Exact product of two pairs.
pub open spec fn rp_mul(a: (int, int), b: (int, int)) -> (int, int) {
    (a.0 * b.0, a.1 * b.1)
}

/// Exact sum of two pairs over the product denominator.
pub open spec fn rp_add(a: (int, int), b: (int, int)) -> (int, int) {
    (a.0 * b.1 + b.0 * a.1, a.1 * b.1)
}

/// A pair scaled by the alternating sign of column `k`.
pub open spec fn rp_alt(k: int, a: (int, int)) -> (int, int) {
    (pow_neg1(k) * a.0, a.1)
}

/// The matrix without its first row and without column `col`.
pub open spec fn minor(m: Seq<Seq<(int, int)>>, col: int) -> Seq<Seq<(int, int)>> {
    m.skip(1).map_values(|row: Seq<(int, int)>| row.remove(col))
}

/// Every row is as long as the matrix is tall.
pub open spec fn is_square(m: Seq<Seq<(int, int)>>) -> bool {
    forall|i: int| 0 <= i < m.len() ==> #[trigger] m[i].len() == m.len()
}

/// The Laplace expansion along the first row: the alternating sum of the
/// first-row entries times their minors' determinants.
pub open spec fn det_spec(m: Seq<Seq<(int, int)>>) -> (int, int)
    decreases m.len(), 1nat, 0nat,
{
    if m.len() == 0 {
        (1, 1)
    } else {
        det_cof(m, 0)
    }
}

/// The partial alternating sum from column `j` on.
pub open spec fn det_cof(m: Seq<Seq<(int, int)>>, j: int) -> (int, int)
    decreases m.len(), 0nat, (if m.len() > 0 { m[0].len() - j } else { 0 }),
{
    if m.len() == 0 || j < 0 || j >= m[0].len() {
        (0, 1)
    } else {
        rp_add(rp_mul(rp_alt(j, m[0][j]), det_spec(minor(m, j))), det_cof(m, j + 1))
    }
}

/// Every product and sum of the expansion fits the machine representation:
/// a machine limit, not a property of the determinant.
pub open spec fn det_fits(m: Seq<Seq<(int, int)>>) -> bool
    decreases m.len(), 1nat, 0nat,
{
    if m.len() == 0 {
        true
    } else {
        det_cof_fits(m, 0)
    }
}

pub open spec fn fits_i64(a: (int, int)) -> bool {
    &&& -(i64::MAX as int) <= a.0 <= i64::MAX as int
    &&& 0 < a.1 <= i64::MAX as int
}

pub open spec fn det_cof_fits(m: Seq<Seq<(int, int)>>, j: int) -> bool
    decreases m.len(), 0nat, (if m.len() > 0 { m[0].len() - j } else { 0 }),
{
    if m.len() == 0 || j < 0 || j >= m[0].len() {
        true
    } else {
        let term = rp_mul(rp_alt(j, m[0][j]), det_spec(minor(m, j)));
        let rest = det_cof(m, j + 1);
        &&& det_fits(minor(m, j))
        &&& det_cof_fits(m, j + 1)
        &&& fits_i64(term)
        &&& fits_i64(rp_add(term, rest))
    }
}

/// Every entry is a well-formed rational.
pub open spec fn mat_wf(m: Seq<Vec<Rational>>) -> bool {
    forall|i: int, j: int|
        0 <= i < m.len() && 0 <= j < m[i]@.len() ==> (#[trigger] m[i]@[j]).wf()
}

/// The Laplace-expansion determinant of a square matrix of exact rationals.
///
/// A non-square matrix is rejected at the boundary: the caller must
/// establish squareness, there is no recovery from it inside the
/// recursion.
pub fn determinant(m: &Vec<Vec<Rational>>) -> (r: Rational)
    requires
        is_square(mat_view(m@)),
        mat_wf(m@),
        det_fits(mat_view(m@)),
    ensures
        r.wf(),
        r.num == det_spec(mat_view(m@)).0,
        r.den == det_spec(mat_view(m@)).1,
    decreases m@.len(),
{
    let n = m.len();
    if n == 0 {
        return Rational::one();
    }
    let mut acc = Rational::zero();
    let mut j = n;
    proof {
        assert(mat_view(m@)[0] == m@[0]@.map_values(|x: Rational| rv(x)));
        assert(mat_view(m@)[0].len() == n);
    }
    while j > 0
        invariant
            j <= n,
            n == m@.len(),
            n >= 1,
            is_square(mat_view(m@)),
            mat_wf(m@),
            det_fits(mat_view(m@)),
            det_cof_fits(mat_view(m@), 0),
            mat_view(m@)[0].len() == n,
            acc.wf(),
            acc.num == det_cof(mat_view(m@), j as int).0,
            acc.den == det_cof(mat_view(m@), j as int).1,
        decreases j,
    {
        j = j - 1;
        let ghost mv = mat_view(m@);
        proof {
            lemma_det_cof_fits_at(mv, 0, j as int);
        }
        // build the minor: drop row 0 and column j
        let mut sub: Vec<Vec<Rational>> = Vec::new();
        let mut r: usize = 1;
        while r < n
            invariant
                1 <= r <= n,
                n == m@.len(),
                is_square(mat_view(m@)),
                mat_wf(m@),
                j < n,
                sub@.len() == r - 1,
                forall|p: int|
                    #![trigger sub@[p]]
                    0 <= p < r - 1 ==> sub@[p]@.map_values(|x: Rational| rv(x)) == mat_view(
                        m@,
                    )[p + 1].remove(j as int),
                forall|p: int, q: int|
                    0 <= p < r - 1 && 0 <= q < sub@[p]@.len() ==> (#[trigger] sub@[p]@[q]).wf(),
            decreases n - r,
        {
            let mut row: Vec<Rational> = Vec::new();
            let mut c: usize = 0;
            proof {
                assert(mat_view(m@)[r as int] == m@[r as int]@.map_values(|x: Rational| rv(x)));
                assert(mat_view(m@)[r as int].len() == n);
                assert(m@[r as int]@.len() == n);
            }
            while c < n
                invariant
                    c <= n,
                    n == m@.len(),
                    mat_wf(m@),
                    1 <= r < n,
                    j < n,
                    m@[r as int]@.len() == n,
                    row@.len() == (if c <= j {
                        c as int
                    } else {
                        c - 1
                    }),
                    forall|q: int|
                        0 <= q < row@.len() ==> #[trigger] row@[q] == (if q < j {
                            m@[r as int]@[q]
                        } else {
                            m@[r as int]@[q + 1]
                        }),
                decreases n - c,
            {
                if c != j {
                    row.push(get_entry(m, r, c));
                }
                c = c + 1;
            }
            sub.push(row);
            proof {
                assert(sub@[r as int - 1]@.map_values(|x: Rational| rv(x)) =~= mat_view(
                    m@,
                )[r as int].remove(j as int));
                assert forall|q: int|
                    0 <= q < sub@[r as int - 1]@.len() implies (#[trigger] sub@[r as int
                    - 1]@[q]).wf() by {
                    assert(sub@[r as int - 1]@[q] == (if q < j {
                        m@[r as int]@[q]
                    } else {
                        m@[r as int]@[q + 1]
                    }));
                }
            }
            r = r + 1;
        }
        proof {
            assert(mat_view(sub@) =~= minor(mat_view(m@), j as int));
            assert(is_square(minor(mv, j as int))) by {
                assert forall|p: int| 0 <= p < minor(mv, j as int).len() implies #[trigger] minor(
                    mv,
                    j as int,
                )[p].len() == minor(mv, j as int).len() by {
                    assert(minor(mv, j as int)[p] == mv[p + 1].remove(j as int));
                    assert(mv[p + 1].len() == n);
                }
            }
        }
        let sd = determinant(&sub);
        let entry = get_entry(m, 0, j);
        proof {
            assert(mat_view(m@)[0][j as int] == rv(m@[0]@[j as int]));
            assert(m@[0]@[j as int].wf());
        }
        let signed = entry.scale_sign(if j % 2 == 0 {
            1i64
        } else {
            -1i64
        });
        proof {
            crate::component::lemma_sign_commute(entry.num as int, pow_neg1(j as int));
            assert(signed.num == pow_neg1(j as int) * entry.num);
        }
        let term = signed.mul(&sd);
        let next = term.add(&acc);
        acc = next;
        proof {
            assert(acc.num == det_cof(mat_view(m@), j as int).0 && acc.den == det_cof(
                mat_view(m@),
                j as int,
            ).1);
        }
    }
    acc
}

/// Reads one entry of a rational matrix.
fn get_entry(m: &Vec<Vec<Rational>>, r: usize, c: usize) -> (x: Rational)
    requires
        r < m@.len(),
        c < m@[r as int]@.len(),
    ensures
        x == m@[r as int]@[c as int],
{
    let row: &Vec<Rational> = &m[r];
    row[c]
}

/// Unfolds the fits predicate down to one column.
proof fn lemma_det_cof_fits_at(m: Seq<Seq<(int, int)>>, j: int, target: int)
    requires
        m.len() > 0,
        det_cof_fits(m, j),
        0 <= j <= target < m[0].len(),
    ensures
        det_fits(minor(m, target)),
        fits_i64(rp_mul(rp_alt(target, m[0][target]), det_spec(minor(m, target)))),
        fits_i64(
            rp_add(
                rp_mul(rp_alt(target, m[0][target]), det_spec(minor(m, target))),
                det_cof(m, target + 1),
            ),
        ),
    decreases target - j,
{
    if j < target {
        lemma_det_cof_fits_at(m, j + 1, target);
    }
}

} // verus!
