//! Enumeration of the pairs of triangles of two meshes that are to be
//! intersected.

use vstd::prelude::*;
use crate::bo::mesh::Mesh;
use crate::cf::Af;
use crate::qm::QualityMetric;
use crate::qm::UselessQM;

verus! {

/// A cursor over a list of triangle index pairs.
pub struct TupleIter {
    v: Vec<(usize, usize)>,
    index: usize,
}

impl TupleIter {
    /// The pairs the cursor goes over.
    pub closed spec fn items(&self) -> Seq<(usize, usize)> {
        self.v@
    }

    /// How many pairs have been handed out.
    pub closed spec fn position(&self) -> nat {
        self.index as nat
    }

    /// The cursor has not gone past the end of its pairs.
    pub closed spec fn valid(&self) -> bool {
        self.index <= self.v.len()
    }

    /// A cursor at the start of `v`.
    pub fn new(v: Vec<(usize, usize)>) -> (r: TupleIter)
        ensures
            r.items() == v@,
            r.position() == 0,
            r.valid(),
    {
        TupleIter { v: v, index: 0 }
    }

    /// The next pair, if any, and the cursor moved past it.
    pub fn next(&mut self) -> (r: Option<(usize, usize)>)
        requires
            old(self).valid(),
        ensures
            final(self).items() == old(self).items(),
            final(self).valid(),
            old(self).position() < old(self).items().len() ==> {
                &&& r == Some(old(self).items()[old(self).position() as int])
                &&& final(self).position() == old(self).position() + 1
            },
            old(self).position() >= old(self).items().len() ==> {
                &&& r is None
                &&& final(self).position() == old(self).position()
            },
    {
        if self.index >= self.v.len() {
            return None;
        }
        let value = self.v[self.index];
        self.index = self.index + 1;
        Some(value)
    }
}

/// The pairs `(i, j)` for `i < na` and `j < nb`, `i` varying slowest.
pub open spec fn all_pairs(na: nat, nb: nat) -> Seq<(usize, usize)>
    decreases na,
{
    if na == 0 {
        Seq::empty()
    } else {
        all_pairs((na - 1) as nat, nb) + Seq::new(nb, |j: int| ((na - 1) as usize, j as usize))
    }
}

/// The pairs of `all_pairs(na, nb)`: there are `na * nb` of them, the pair at
/// position `k` is `(k / nb, k % nb)` (so the first index varies slowest),
/// every pair `(i, j)` with `i < na` and `j < nb` occurs, and none occurs
/// twice.
pub proof fn lemma_all_pairs(na: nat, nb: nat)
    requires
        na <= usize::MAX,
        nb <= usize::MAX,
    ensures
        all_pairs(na, nb).len() == na * nb,
        forall|k: int|
            0 <= k < na * nb ==> #[trigger] all_pairs(na, nb)[k] == ((k / nb as int) as usize, (k
                % nb as int) as usize),
        forall|i: usize, j: usize|
            (i as int) < na && (j as int) < nb ==> #[trigger] all_pairs(na, nb).contains((i, j)),
        all_pairs(na, nb).no_duplicates(),
    decreases na,
{
    let s = all_pairs(na, nb);
    if na > 0 {
        let na1 = (na - 1) as nat;
        lemma_all_pairs(na1, nb);
        let prev = all_pairs(na1, nb);
        assert(na1 * nb + nb == na * nb) by (nonlinear_arith)
            requires
                na1 + 1 == na,
        ;
        assert forall|k: int| 0 <= k < na * nb implies #[trigger] s[k] == ((k / nb as int) as usize, (
        k % nb as int) as usize) by {
            if k >= na1 * nb {
                let j = k - na1 * nb;
                vstd::arithmetic::div_mod::lemma_fundamental_div_mod_converse(
                    k,
                    nb as int,
                    na1 as int,
                    j,
                );
            } else {
                assert(s[k] == prev[k]);
            }
        }
    }
    assert forall|i: usize, j: usize| (i as int) < na && (j as int) < nb implies #[trigger] s.contains(
        (i, j),
    ) by {
        let k = i * nb + j;
        assert(0 <= k < na * nb) by (nonlinear_arith)
            requires
                k == i * nb + j,
                0 <= i < na,
                0 <= j < nb,
        ;
        vstd::arithmetic::div_mod::lemma_fundamental_div_mod_converse(k, nb as int, i as int, j as int);
        assert(s[k] == (i, j));
    }
    assert forall|p: int, q: int| 0 <= p < s.len() && 0 <= q < s.len() && p != q implies s[p]
        != s[q] by {
        if s[p] == s[q] {
            vstd::arithmetic::div_mod::lemma_fundamental_div_mod(p, nb as int);
            vstd::arithmetic::div_mod::lemma_fundamental_div_mod(q, nb as int);
            assert(0 <= p / (nb as int) && p / (nb as int) < na) by (nonlinear_arith)
                requires
                    0 <= p < na * nb,
                    nb > 0,
            ;
            assert(0 <= q / (nb as int) && q / (nb as int) < na) by (nonlinear_arith)
                requires
                    0 <= q < na * nb,
                    nb > 0,
            ;
            assert(p / nb as int == q / nb as int);
            assert(p % nb as int == q % nb as int);
        }
    }
}

/// An algorithm that picks the pairs of triangles of two meshes that may
/// intersect.
pub trait AfEnumTriangles: Af {
    fn enumerate(&mut self, a: &Mesh, b: &Mesh) -> (r: TupleIter)
        ensures
            r.valid(),
            r.position() == 0,
    ;
}

/// The enumeration that picks every pair.
#[derive(Default)]
pub struct RafEnumSimple<QM: QualityMetric = UselessQM> {
    pub qm: QM,
}

impl<QM: QualityMetric> Af for RafEnumSimple<QM> {

}

impl<QM: QualityMetric> AfEnumTriangles for RafEnumSimple<QM> {
    fn enumerate(&mut self, a: &Mesh, b: &Mesh) -> (r: TupleIter)
        ensures
            r.items() == all_pairs(a.triangles.len() as nat, b.triangles.len() as nat),
            r.items().len() == a.triangles.len() * b.triangles.len(),
            forall|k: int|
                0 <= k < r.items().len() ==> #[trigger] r.items()[k] == ((k
                    / b.triangles.len() as int) as usize, (k % b.triangles.len() as int) as usize),
            forall|i: usize, j: usize|
                i < a.triangles.len() && j < b.triangles.len() ==> #[trigger] r.items().contains(
                    (i, j),
                ),
            r.items().no_duplicates(),
    {
        let na = a.triangles.len();
        let nb = b.triangles.len();
        let mut v: Vec<(usize, usize)> = Vec::new();
        let mut index_a: usize = 0;
        while index_a < na
            invariant
                index_a <= na,
                v@ == all_pairs(index_a as nat, nb as nat),
            decreases na - index_a,
        {
            let mut index_b: usize = 0;
            while index_b < nb
                invariant
                    index_a < na,
                    index_b <= nb,
                    v@ == all_pairs(index_a as nat, nb as nat) + Seq::new(
                        index_b as nat,
                        |j: int| (index_a, j as usize),
                    ),
                decreases nb - index_b,
            {
                v.push((index_a, index_b));
                index_b = index_b + 1;
                assert(v@ =~= all_pairs(index_a as nat, nb as nat) + Seq::new(
                    index_b as nat,
                    |j: int| (index_a, j as usize),
                ));
            }
            index_a = index_a + 1;
            assert(v@ =~= all_pairs(index_a as nat, nb as nat));
        }
        proof {
            lemma_all_pairs(na as nat, nb as nat);
        }
        TupleIter::new(v)
    }
}

} // verus!
