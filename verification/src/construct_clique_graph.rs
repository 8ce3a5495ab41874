//! The weighted clique graph.
//!
//! Its nodes are the maximal cliques of the input graph, each node owning its
//! bag.  An edge joins two nodes exactly when their bags intersect; its weight
//! is given by the chosen edge-weight heuristic.

use vstd::prelude::*;
use crate::vertex_set::VertexSet;
use crate::clique_graph_edge_weight_heuristics::{
    EdgeWeightHeuristic,
    heuristic_weight,
    apply_heuristic,
};

verus! {

/// A graph whose nodes carry bags: the clique graph, and later the tree
/// decomposition extracted from it.  An edge `(a, b, w)` with `a < b` joins
/// nodes `a` and `b` with weight `w`.
pub struct CliqueGraph {
    pub bags: Vec<VertexSet>,
    pub edges: Vec<(usize, usize, i64)>,
}

/// Every bag is a mask over `n` vertices and every edge joins two nodes.
pub open spec fn cg_wf(cg: CliqueGraph, n: nat) -> bool {
    &&& forall|i: int| 0 <= i < cg.bags@.len() ==> (#[trigger] cg.bags@[i]).n() == n
    &&& forall|k: int|
        0 <= k < cg.edges@.len() ==> (#[trigger] cg.edges@[k]).0 < cg.edges@[k].1
            < cg.bags@.len()
}

/// The bags at nodes `i` and `j` share a vertex.
pub open spec fn bags_intersect(bags: Seq<VertexSet>, i: int, j: int) -> bool {
    exists|x: int| bags[i].has(x) && bags[j].has(x)
}

/// Some edge of the sequence joins nodes `i` and `j` (stored with `i < j`).
pub open spec fn has_cg_edge(edges: Seq<(usize, usize, i64)>, i: int, j: int) -> bool {
    exists|k: int|
        0 <= k < edges.len() && (#[trigger] edges[k]).0 == i && edges[k].1 == j
}

/// Builds the clique graph over the given bags: one node per bag, an edge for
/// every intersecting pair, weighted by the heuristic.
pub fn construct_clique_graph(bags: Vec<VertexSet>, n: usize, h: &EdgeWeightHeuristic) -> (cg:
    CliqueGraph)
    requires
        forall|i: int| 0 <= i < bags@.len() ==> (#[trigger] bags@[i]).n() == n,
        n + n <= i64::MAX,
    ensures
        cg.bags@ == bags@,
        cg_wf(cg, n as nat),
        forall|k: int|
            0 <= k < cg.edges@.len() ==> {
                let e = #[trigger] cg.edges@[k];
                &&& e.0 < e.1 < bags@.len()
                &&& e.2 == heuristic_weight(*h, bags@[e.0 as int], bags@[e.1 as int])
                &&& bags_intersect(bags@, e.0 as int, e.1 as int)
            },
        forall|i: int, j: int|
            0 <= i < j < bags@.len() && bags_intersect(bags@, i, j) ==> #[trigger] has_cg_edge(
                cg.edges@,
                i,
                j,
            ),
{
    let m = bags.len();
    let mut edges: Vec<(usize, usize, i64)> = Vec::new();
    for i in 0..m
        invariant
            m == bags@.len(),
            n + n <= i64::MAX,
            forall|q: int| 0 <= q < bags@.len() ==> (#[trigger] bags@[q]).n() == n,
            forall|k: int|
                0 <= k < edges@.len() ==> {
                    let e = #[trigger] edges@[k];
                    &&& e.0 < e.1 < bags@.len()
                    &&& e.2 == heuristic_weight(*h, bags@[e.0 as int], bags@[e.1 as int])
                    &&& bags_intersect(bags@, e.0 as int, e.1 as int)
                },
            forall|a: int, b: int|
                0 <= a < b < bags@.len() && a < i && bags_intersect(bags@, a, b)
                    ==> #[trigger] has_cg_edge(edges@, a, b),
    {
        for j in (i + 1)..m
            invariant
                m == bags@.len(),
                i < m,
                n + n <= i64::MAX,
                forall|q: int| 0 <= q < bags@.len() ==> (#[trigger] bags@[q]).n() == n,
                forall|k: int|
                    0 <= k < edges@.len() ==> {
                        let e = #[trigger] edges@[k];
                        &&& e.0 < e.1 < bags@.len()
                        &&& e.2 == heuristic_weight(*h, bags@[e.0 as int], bags@[e.1 as int])
                        &&& bags_intersect(bags@, e.0 as int, e.1 as int)
                    },
                forall|a: int, b: int|
                    0 <= a < b < bags@.len() && a < i && bags_intersect(bags@, a, b)
                        ==> #[trigger] has_cg_edge(edges@, a, b),
                forall|b: int|
                    i < b < j && bags_intersect(bags@, i as int, b) ==> #[trigger] has_cg_edge(
                        edges@,
                        i as int,
                        b,
                    ),
        {
            let ghost prev = edges@;
            if bags[i].intersects(&bags[j]) {
                let w = apply_heuristic(h, &bags[i], &bags[j]);
                edges.push((i, j, w));
                assert(edges@[edges@.len() - 1].0 == i && edges@[edges@.len() - 1].1 == j);
            }
            assert forall|a: int, b: int|
                0 <= a < b < bags@.len() && a < i && bags_intersect(bags@, a, b)
                    implies #[trigger] has_cg_edge(edges@, a, b) by {
                assert(has_cg_edge(prev, a, b));
                let k = choose|k: int|
                    0 <= k < prev.len() && (#[trigger] prev[k]).0 == a && prev[k].1 == b;
                assert(edges@[k].0 == a && edges@[k].1 == b);
            }
            assert forall|b: int|
                i < b < j + 1 && bags_intersect(bags@, i as int, b) implies #[trigger] has_cg_edge(
                edges@,
                i as int,
                b,
            ) by {
                if b < j {
                    assert(has_cg_edge(prev, i as int, b));
                    let k = choose|k: int|
                        0 <= k < prev.len() && (#[trigger] prev[k]).0 == i as int && prev[k].1
                            == b;
                    assert(edges@[k].0 == i && edges@[k].1 == b);
                } else {
                    let x = choose|x: int| bags@[i as int].has(x) && bags@[j as int].has(x);
                    assert(has_cg_edge(edges@, i as int, j as int));
                }
            }
        }
    }
    CliqueGraph { bags, edges }
}

/// For every vertex `v` of the input graph, the (sorted) list of clique-graph
/// nodes whose bag contains `v`.
pub fn construct_clique_graph_map(n: usize, bags: &Vec<VertexSet>) -> (m: Vec<Vec<usize>>)
    requires
        forall|i: int| 0 <= i < bags@.len() ==> (#[trigger] bags@[i]).n() == n,
    ensures
        m@.len() == n,
        forall|v: int, a: int, b: int|
            0 <= v < n && 0 <= a < b < m@[v]@.len()
                ==> (#[trigger] m@[v]@[a]) < (#[trigger] m@[v]@[b]),
        forall|v: int, a: int|
            0 <= v < n && 0 <= a < m@[v]@.len() ==> (#[trigger] m@[v]@[a]) < bags@.len()
                && bags@[m@[v]@[a] as int].has(v),
        forall|v: int, i: int|
            0 <= v < n && 0 <= i < bags@.len() && (#[trigger] bags@[i].has(v))
                ==> m@[v]@.contains(i as usize),
{
    let cliques = bags.len();
    let mut m: Vec<Vec<usize>> = Vec::new();
    for v in 0..n
        invariant
            cliques == bags@.len(),
            forall|q: int| 0 <= q < bags@.len() ==> (#[trigger] bags@[q]).n() == n,
            m@.len() == v,
            forall|w: int, a: int, b: int|
                0 <= w < v && 0 <= a < b < m@[w]@.len()
                    ==> (#[trigger] m@[w]@[a]) < (#[trigger] m@[w]@[b]),
            forall|w: int, a: int|
                0 <= w < v && 0 <= a < m@[w]@.len() ==> (#[trigger] m@[w]@[a]) < bags@.len()
                    && bags@[m@[w]@[a] as int].has(w),
            forall|w: int, i: int|
                0 <= w < v && 0 <= i < bags@.len() && (#[trigger] bags@[i].has(w))
                    ==> m@[w]@.contains(i as usize),
    {
        let mut row: Vec<usize> = Vec::new();
        for i in 0..cliques
            invariant
                cliques == bags@.len(),
                v < n,
                forall|q: int| 0 <= q < bags@.len() ==> (#[trigger] bags@[q]).n() == n,
                forall|a: int, b: int| 0 <= a < b < row@.len() ==> row@[a] < row@[b],
                forall|a: int|
                    0 <= a < row@.len() ==> (#[trigger] row@[a]) < i && bags@[row@[a] as int].has(
                        v as int,
                    ),
                forall|q: int|
                    0 <= q < i && (#[trigger] bags@[q].has(v as int)) ==> row@.contains(
                        q as usize,
                    ),
        {
            if bags[i].contains(v) {
                let ghost prevrow = row@;
                row.push(i);
                assert(row@[row@.len() - 1] == i);
                assert forall|q: int|
                    0 <= q < i + 1 && (#[trigger] bags@[q].has(v as int)) implies row@.contains(
                    q as usize,
                ) by {
                    if q < i {
                        let a = choose|a: int| 0 <= a < prevrow.len() && prevrow[a] == q as usize;
                        assert(row@[a] == q as usize);
                    } else {
                        assert(row@[row@.len() - 1] == q as usize);
                    }
                }
            }
        }
        m.push(row);
    }
    m
}

} // verus!
