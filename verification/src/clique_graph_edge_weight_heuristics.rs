//! Edge-weight heuristics for the clique graph.
//!
//! A heuristic scores a pair of bags by a set relation; the spanning-tree
//! extractor minimises the total score.  Heuristics that reward overlap
//! (negative intersection, least difference) bias the tree towards keeping
//! highly overlapping bags together, which tends to give low-width trees.

use vstd::prelude::*;
use crate::vertex_set::{VertexSet, popcount, lemma_popcount_take, lemma_popcount_le_len};

verus! {

/// The size of the intersection of two bags.
pub open spec fn inter_card(a: VertexSet, b: VertexSet) -> nat {
    popcount(Seq::new(a.n(), |i: int| a.has(i) && b.has(i)))
}

/// The size of the union of two bags.
pub open spec fn union_card(a: VertexSet, b: VertexSet) -> nat {
    popcount(Seq::new(a.n(), |i: int| a.has(i) || b.has(i)))
}

/// The size of the symmetric difference of two bags.
pub open spec fn symdiff_card(a: VertexSet, b: VertexSet) -> nat {
    popcount(Seq::new(a.n(), |i: int| a.has(i) != b.has(i)))
}

/// The six edge-weight heuristics.
pub enum EdgeWeightHeuristic {
    Neutral,
    NegativeIntersection,
    PositiveIntersection,
    DisjointUnion,
    Union,
    LeastDifference,
}

/// The weight a heuristic gives to a pair of bags.
pub open spec fn heuristic_weight(h: EdgeWeightHeuristic, a: VertexSet, b: VertexSet) -> int {
    match h {
        EdgeWeightHeuristic::Neutral => 0,
        EdgeWeightHeuristic::NegativeIntersection => -(inter_card(a, b) as int),
        EdgeWeightHeuristic::PositiveIntersection => inter_card(a, b) as int,
        EdgeWeightHeuristic::DisjointUnion => a.card() + b.card() as int,
        EdgeWeightHeuristic::Union => union_card(a, b) as int,
        EdgeWeightHeuristic::LeastDifference => symdiff_card(a, b) as int,
    }
}

/// The number of vertices in both bags.
pub fn intersection_count(a: &VertexSet, b: &VertexSet) -> (r: usize)
    requires
        a.n() == b.n(),
    ensures
        r == inter_card(*a, *b),
{
    let ghost s = Seq::new(a.n(), |i: int| a.has(i) && b.has(i));
    let n = a.mask.len();
    let mut c: usize = 0;
    for j in 0..n
        invariant
            n == a.n() == b.n(),
            s == Seq::new(a.n(), |i: int| a.has(i) && b.has(i)),
            c == popcount(s.take(j as int)),
            c <= j,
    {
        proof {
            lemma_popcount_take(s, j as int);
        }
        if a.mask[j] && b.mask[j] {
            c = c + 1;
        }
    }
    proof {
        assert(s.take(n as int) =~= s);
    }
    c
}

/// The number of vertices in at least one of the bags.
pub fn union_count(a: &VertexSet, b: &VertexSet) -> (r: usize)
    requires
        a.n() == b.n(),
    ensures
        r == union_card(*a, *b),
{
    let ghost s = Seq::new(a.n(), |i: int| a.has(i) || b.has(i));
    let n = a.mask.len();
    let mut c: usize = 0;
    for j in 0..n
        invariant
            n == a.n() == b.n(),
            s == Seq::new(a.n(), |i: int| a.has(i) || b.has(i)),
            c == popcount(s.take(j as int)),
            c <= j,
    {
        proof {
            lemma_popcount_take(s, j as int);
        }
        if a.mask[j] || b.mask[j] {
            c = c + 1;
        }
    }
    proof {
        assert(s.take(n as int) =~= s);
    }
    c
}

/// The number of vertices in exactly one of the bags.
pub fn symmetric_difference_count(a: &VertexSet, b: &VertexSet) -> (r: usize)
    requires
        a.n() == b.n(),
    ensures
        r == symdiff_card(*a, *b),
{
    let ghost s = Seq::new(a.n(), |i: int| a.has(i) != b.has(i));
    let n = a.mask.len();
    let mut c: usize = 0;
    for j in 0..n
        invariant
            n == a.n() == b.n(),
            s == Seq::new(a.n(), |i: int| a.has(i) != b.has(i)),
            c == popcount(s.take(j as int)),
            c <= j,
    {
        proof {
            lemma_popcount_take(s, j as int);
        }
        if a.mask[j] != b.mask[j] {
            c = c + 1;
        }
    }
    proof {
        assert(s.take(n as int) =~= s);
    }
    c
}

/// Always scores zero.
pub fn neutral_heuristic(a: &VertexSet, b: &VertexSet) -> (r: i64)
    requires
        a.n() == b.n(),
        a.n() + b.n() <= i64::MAX,
    ensures
        r == heuristic_weight(EdgeWeightHeuristic::Neutral, *a, *b),
{
    0
}

/// Minus the intersection size.
pub fn negative_intersection_heuristic(a: &VertexSet, b: &VertexSet) -> (r: i64)
    requires
        a.n() == b.n(),
        a.n() + b.n() <= i64::MAX,
    ensures
        r == heuristic_weight(EdgeWeightHeuristic::NegativeIntersection, *a, *b),
{
    proof {
        lemma_popcount_le_len(Seq::new(a.n(), |i: int| a.has(i) && b.has(i)));
    }
    let c = intersection_count(a, b);
    -(c as i64)
}

/// The intersection size.
pub fn positive_intersection_heuristic(a: &VertexSet, b: &VertexSet) -> (r: i64)
    requires
        a.n() == b.n(),
        a.n() + b.n() <= i64::MAX,
    ensures
        r == heuristic_weight(EdgeWeightHeuristic::PositiveIntersection, *a, *b),
{
    proof {
        lemma_popcount_le_len(Seq::new(a.n(), |i: int| a.has(i) && b.has(i)));
    }
    let c = intersection_count(a, b);
    c as i64
}

/// The sum of the two bag sizes, ignoring overlap.
pub fn disjoint_union_heuristic(a: &VertexSet, b: &VertexSet) -> (r: i64)
    requires
        a.n() == b.n(),
        a.n() + b.n() <= i64::MAX,
    ensures
        r == heuristic_weight(EdgeWeightHeuristic::DisjointUnion, *a, *b),
{
    proof {
        lemma_popcount_le_len(a.mask@);
        lemma_popcount_le_len(b.mask@);
    }
    let ca = a.count();
    let cb = b.count();
    (ca as i64) + (cb as i64)
}

/// The union size.
pub fn union_heuristic(a: &VertexSet, b: &VertexSet) -> (r: i64)
    requires
        a.n() == b.n(),
        a.n() + b.n() <= i64::MAX,
    ensures
        r == heuristic_weight(EdgeWeightHeuristic::Union, *a, *b),
{
    proof {
        lemma_popcount_le_len(Seq::new(a.n(), |i: int| a.has(i) || b.has(i)));
    }
    let c = union_count(a, b);
    c as i64
}

/// The symmetric-difference size.
pub fn least_difference_heuristic(a: &VertexSet, b: &VertexSet) -> (r: i64)
    requires
        a.n() == b.n(),
        a.n() + b.n() <= i64::MAX,
    ensures
        r == heuristic_weight(EdgeWeightHeuristic::LeastDifference, *a, *b),
{
    proof {
        lemma_popcount_le_len(Seq::new(a.n(), |i: int| a.has(i) != b.has(i)));
    }
    let c = symmetric_difference_count(a, b);
    c as i64
}

/// The weight the chosen heuristic gives to a pair of bags.
pub fn apply_heuristic(h: &EdgeWeightHeuristic, a: &VertexSet, b: &VertexSet) -> (r: i64)
    requires
        a.n() == b.n(),
        a.n() + b.n() <= i64::MAX,
    ensures
        r == heuristic_weight(*h, *a, *b),
{
    match h {
        EdgeWeightHeuristic::Neutral => neutral_heuristic(a, b),
        EdgeWeightHeuristic::NegativeIntersection => negative_intersection_heuristic(a, b),
        EdgeWeightHeuristic::PositiveIntersection => positive_intersection_heuristic(a, b),
        EdgeWeightHeuristic::DisjointUnion => disjoint_union_heuristic(a, b),
        EdgeWeightHeuristic::Union => union_heuristic(a, b),
        EdgeWeightHeuristic::LeastDifference => least_difference_heuristic(a, b),
    }
}

} // verus!
