//! Width of a tree decomposition: the largest bag size minus one.

use vstd::prelude::*;
use crate::vertex_set::VertexSet;

verus! {

/// The largest bag size among the first `k` bags.
pub open spec fn max_bag_card_upto(bags: Seq<VertexSet>, k: int) -> nat
    decreases k,
{
    if k <= 0 {
        0
    } else {
        let prev = max_bag_card_upto(bags, k - 1);
        let c = bags[k - 1].card();
        if c > prev {
            c
        } else {
            prev
        }
    }
}

/// The width of a tree decomposition: its largest bag size minus one, and `0`
/// for an empty decomposition.
pub open spec fn decomposition_width(bags: Seq<VertexSet>) -> nat {
    let m = max_bag_card_upto(bags, bags.len() as int);
    if m == 0 {
        0
    } else {
        (m - 1) as nat
    }
}

/// Computes the width of a tree decomposition.
pub fn find_width_of_tree_decomposition(bags: &Vec<VertexSet>) -> (r: usize)
    ensures
        r == decomposition_width(bags@),
{
    let mut m: usize = 0;
    let len = bags.len();
    for i in 0..len
        invariant
            len == bags@.len(),
            m == max_bag_card_upto(bags@, i as int),
    {
        let c = bags[i].count();
        if c > m {
            m = c;
        }
    }
    if m == 0 {
        0
    } else {
        m - 1
    }
}

} // verus!
