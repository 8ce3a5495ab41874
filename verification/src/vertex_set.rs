//! Bags of graph vertices, stored as a fixed-width membership mask.
//!
//! A `VertexSet` over a graph with `n` vertices is a mask of `n` booleans;
//! position `i` says whether vertex `i` belongs to the bag.

use vstd::prelude::*;

verus! {

/// Number of set positions in a mask.
pub open spec fn popcount(s: Seq<bool>) -> nat
    decreases s.len(),
{
    if s.len() == 0 {
        0
    } else {
        popcount(s.drop_last()) + if s.last() {
            1nat
        } else {
            0nat
        }
    }
}

/// `popcount` of a prefix one longer.
pub proof fn lemma_popcount_take(s: Seq<bool>, j: int)
    requires
        0 <= j < s.len(),
    ensures
        popcount(s.take(j + 1)) == popcount(s.take(j)) + if s[j] {
            1nat
        } else {
            0nat
        },
{
    let t = s.take(j + 1);
    assert(t.drop_last() =~= s.take(j));
    assert(t.last() == s[j]);
}

/// A popcount never exceeds the mask length.
pub proof fn lemma_popcount_le_len(s: Seq<bool>)
    ensures
        popcount(s) <= s.len(),
    decreases s.len(),
{
    if s.len() > 0 {
        lemma_popcount_le_len(s.drop_last());
    }
}

/// A mask with an unset position is not all ones.
pub proof fn lemma_popcount_unset(s: Seq<bool>, i: int)
    requires
        0 <= i < s.len(),
        !s[i],
    ensures
        popcount(s) < s.len(),
    decreases s.len(),
{
    if i == s.len() - 1 {
        lemma_popcount_le_len(s.drop_last());
    } else {
        lemma_popcount_unset(s.drop_last(), i);
    }
}

/// Setting an unset position raises the popcount by one.
pub proof fn lemma_popcount_set(s: Seq<bool>, i: int)
    requires
        0 <= i < s.len(),
        !s[i],
    ensures
        popcount(s.update(i, true)) == popcount(s) + 1,
    decreases s.len(),
{
    let t = s.update(i, true);
    if i == s.len() - 1 {
        assert(t.drop_last() =~= s.drop_last());
    } else {
        assert(t.drop_last() =~= s.drop_last().update(i, true));
        lemma_popcount_set(s.drop_last(), i);
    }
}

/// A set of vertices of a graph with `n` vertices, as a membership mask.
pub struct VertexSet {
    pub mask: Vec<bool>,
}

impl VertexSet {
    /// The width of the mask: the number of vertices of the graph.
    pub open spec fn n(self) -> nat {
        self.mask@.len()
    }

    /// Whether vertex `i` is in the set.
    pub open spec fn has(self, i: int) -> bool {
        0 <= i < self.n() && self.mask@[i]
    }

    /// The number of vertices in the set.
    pub open spec fn card(self) -> nat {
        popcount(self.mask@)
    }

    /// Creates the empty set over `n` vertices.
    pub fn new(n: usize) -> (r: VertexSet)
        ensures
            r.n() == n,
            forall|i: int| !r.has(i),
    {
        let mut mask: Vec<bool> = Vec::new();
        for j in 0..n
            invariant
                mask@.len() == j,
                forall|i: int| 0 <= i < j ==> !(#[trigger] mask@[i]),
        {
            mask.push(false);
        }
        VertexSet { mask }
    }

    /// Inserts vertex `i`.
    pub fn insert(&mut self, i: usize)
        requires
            i < old(self).n(),
        ensures
            final(self).n() == old(self).n(),
            forall|j: int| #[trigger] final(self).has(j) == (old(self).has(j) || j == i),
    {
        self.mask[i] = true;
    }

    /// Whether vertex `i` is in the set.
    pub fn contains(&self, i: usize) -> (r: bool)
        requires
            i < self.n(),
        ensures
            r == self.has(i as int),
    {
        self.mask[i]
    }

    /// The number of vertices in the set.
    pub fn count(&self) -> (r: usize)
        ensures
            r == self.card(),
    {
        let mut c: usize = 0;
        let n = self.mask.len();
        for j in 0..n
            invariant
                n == self.n(),
                c == popcount(self.mask@.take(j as int)),
                c <= j,
        {
            proof {
                lemma_popcount_take(self.mask@, j as int);
            }
            if self.mask[j] {
                c = c + 1;
            }
        }
        proof {
            assert(self.mask@.take(n as int) =~= self.mask@);
        }
        c
    }

    /// The intersection of two sets over the same vertices.
    pub fn intersect(&self, other: &VertexSet) -> (r: VertexSet)
        requires
            self.n() == other.n(),
        ensures
            r.n() == self.n(),
            forall|i: int| #[trigger] r.has(i) == (self.has(i) && other.has(i)),
    {
        let n = self.mask.len();
        let mut mask: Vec<bool> = Vec::new();
        for j in 0..n
            invariant
                n == self.n() == other.n(),
                mask@.len() == j,
                forall|i: int|
                    0 <= i < j ==> (#[trigger] mask@[i]) == (self.mask@[i] && other.mask@[i]),
        {
            mask.push(self.mask[j] && other.mask[j]);
        }
        VertexSet { mask }
    }

    /// Whether the two sets share a vertex.
    pub fn intersects(&self, other: &VertexSet) -> (r: bool)
        requires
            self.n() == other.n(),
        ensures
            r == exists|i: int| self.has(i) && other.has(i),
    {
        let n = self.mask.len();
        for j in 0..n
            invariant
                n == self.n() == other.n(),
                forall|i: int| 0 <= i < j ==> !(self.has(i) && other.has(i)),
        {
            if self.mask[j] && other.mask[j] {
                assert(self.has(j as int) && other.has(j as int));
                return true;
            }
        }
        false
    }

    /// Inserts every vertex of `other` into `self`.
    pub fn extend_from(&mut self, other: &VertexSet)
        requires
            old(self).n() == other.n(),
        ensures
            final(self).n() == old(self).n(),
            forall|i: int| #[trigger] final(self).has(i) == (old(self).has(i) || other.has(i)),
    {
        let n = other.mask.len();
        for j in 0..n
            invariant
                n == self.n() == other.n(),
                forall|i: int|
                    j <= i < n ==> (#[trigger] self.mask@[i]) == old(self).mask@[i],
                forall|i: int|
                    0 <= i < j ==> (#[trigger] self.mask@[i]) == (old(self).mask@[i]
                        || other.mask@[i]),
        {
            let b = self.mask[j] || other.mask[j];
            self.mask[j] = b;
        }
    }

    /// Whether the two sets hold exactly the same vertices.
    pub fn equals(&self, other: &VertexSet) -> (r: bool)
        requires
            self.n() == other.n(),
        ensures
            r == (self.mask@ =~= other.mask@),
    {
        let n = self.mask.len();
        for j in 0..n
            invariant
                n == self.n() == other.n(),
                forall|i: int| 0 <= i < j ==> self.mask@[i] == other.mask@[i],
        {
            if self.mask[j] != other.mask[j] {
                return false;
            }
        }
        true
    }

    /// A copy of the set.
    pub fn duplicate(&self) -> (r: VertexSet)
        ensures
            r.mask@ =~= self.mask@,
    {
        let n = self.mask.len();
        let mut mask: Vec<bool> = Vec::new();
        for j in 0..n
            invariant
                n == self.n(),
                mask@.len() == j,
                forall|i: int| 0 <= i < j ==> (#[trigger] mask@[i]) == self.mask@[i],
        {
            mask.push(self.mask[j]);
        }
        VertexSet { mask }
    }

    /// The vertices of the set, in increasing order.
    pub fn to_sorted_vec(&self) -> (r: Vec<usize>)
        ensures
            forall|a: int, b: int| 0 <= a < b < r@.len() ==> r@[a] < r@[b],
            forall|a: int| 0 <= a < r@.len() ==> self.has(#[trigger] r@[a] as int),
            forall|i: int| #[trigger] self.has(i) ==> r@.contains(i as usize),
    {
        let n = self.mask.len();
        let mut r: Vec<usize> = Vec::new();
        for j in 0..n
            invariant
                n == self.n(),
                forall|a: int, b: int| 0 <= a < b < r@.len() ==> r@[a] < r@[b],
                forall|a: int| 0 <= a < r@.len() ==> self.has(#[trigger] r@[a] as int),
                forall|a: int| 0 <= a < r@.len() ==> r@[a] < j,
                forall|i: int| 0 <= i < j && self.has(i) ==> r@.contains(i as usize),
        {
            if self.mask[j] {
                let ghost prev = r@;
                r.push(j);
                assert(r@[r@.len() - 1] == j);
                assert forall|i: int| 0 <= i < j + 1 && self.has(i) implies r@.contains(
                    i as usize,
                ) by {
                    if i < j {
                        let a = choose|a: int| 0 <= a < prev.len() && prev[a] == i as usize;
                        assert(r@[a] == i as usize);
                    } else {
                        assert(r@[r@.len() - 1] == i as usize);
                    }
                }
            }
        }
        r
    }
}

} // verus!
