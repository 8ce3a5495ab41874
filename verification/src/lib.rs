//! A treewidth upper-bound heuristic.
//!
//! Given a simple undirected graph, the library collects maximal cliques of
//! it (one grown greedily from every edge, plus the isolated vertices; the
//! family covers every vertex and edge, though it need not hold every maximal
//! clique), builds a weighted clique graph over them, extracts a spanning
//! forest of it,
//! fills the bags along tree paths so that the running-intersection property
//! holds, and reports the width of the resulting tree decomposition, an upper
//! bound on the treewidth of the input graph.  A companion generator produces
//! partial k-trees for benchmarking, and a maximum-minimum-degree heuristic
//! provides a treewidth lower-bound proxy.

pub mod clique_graph_edge_weight_heuristics;
pub mod construct_clique_graph;
pub mod fill_bags_along_paths;
pub mod find_maximum_cliques;
pub mod find_path_in_tree;
pub mod find_width_of_tree_decomposition;
pub mod generate_partial_k_tree;
pub mod graph;
pub mod maximum_minimum_degree_heuristic;
pub mod spanning_tree;
pub mod vertex_set;

use vstd::prelude::*;
use crate::graph::Graph;
use crate::vertex_set::VertexSet;
use crate::clique_graph_edge_weight_heuristics::EdgeWeightHeuristic;
use crate::construct_clique_graph::{
    construct_clique_graph,
    construct_clique_graph_map,
    bags_intersect,
    has_cg_edge,
};
use crate::spanning_tree::connected;
use crate::find_maximum_cliques::{
    find_maximum_cliques,
    covers_vertex,
    covers_edge,
    is_maximal_clique,
    is_clique,
    adjacent_to_all,
};
use crate::spanning_tree::minimum_spanning_forest;
use crate::fill_bags_along_paths::{
    fill_bags_along_paths,
    fill_bags_along_paths_using_structure,
    pm_wf,
    root_of,
    same_root_for,
    running_intersection_at,
};
use crate::find_width_of_tree_decomposition::{
    find_width_of_tree_decomposition,
    decomposition_width,
};

verus! {

/// A tree decomposition: a forest whose nodes carry bags of graph vertices.
pub struct TreeDecomposition {
    pub bags: Vec<VertexSet>,
    pub edges: Vec<(usize, usize, i64)>,
}

/// The bag holds all members of some maximal clique of the graph.
pub open spec fn contains_maximal_clique(g: Graph, bag: VertexSet) -> bool {
    exists|c: VertexSet|
        #[trigger] is_maximal_clique(g, c) && c.n() == g.n() && (forall|w: int|
            #[trigger] c.has(w) ==> bag.has(w))
}

/// A bag with the same mask is a maximal clique of the same graph.
proof fn lemma_maximal_clique_same_mask(g: Graph, b1: VertexSet, b2: VertexSet)
    requires
        is_maximal_clique(g, b1),
        b2.mask@ == b1.mask@,
    ensures
        is_maximal_clique(g, b2),
{
    assert(is_clique(g, b2)) by {
        assert forall|u: int, v: int| b2.has(u) && b2.has(v) && u != v implies g.edge(u, v) by {
            assert(b1.has(u) && b1.has(v));
        }
    }
    assert forall|w: int| 0 <= w < g.n() && !b2.has(w) implies !adjacent_to_all(g, b2, w) by {
        assert(!b1.has(w));
        if adjacent_to_all(g, b2, w) {
            assert forall|x: int| b1.has(x) implies g.edge(x, w) by {
                assert(b2.has(x));
            }
        }
    }
}

/// Copies a sequence of bags.
fn duplicate_bags(bags: &Vec<VertexSet>) -> (r: Vec<VertexSet>)
    ensures
        r@.len() == bags@.len(),
        forall|i: int| 0 <= i < bags@.len() ==> (#[trigger] r@[i]).mask@ == bags@[i].mask@,
{
    let len = bags.len();
    let mut r: Vec<VertexSet> = Vec::new();
    for i in 0..len
        invariant
            len == bags@.len(),
            r@.len() == i,
            forall|j: int| 0 <= j < i ==> (#[trigger] r@[j]).mask@ == bags@[j].mask@,
    {
        r.push(bags[i].duplicate());
    }
    r
}

/// Copies an edge list.
fn duplicate_edges(edges: &Vec<(usize, usize, i64)>) -> (r: Vec<(usize, usize, i64)>)
    ensures
        r@ == edges@,
{
    let len = edges.len();
    let mut r: Vec<(usize, usize, i64)> = Vec::new();
    for i in 0..len
        invariant
            len == edges@.len(),
            r@.len() == i,
            forall|j: int| 0 <= j < i ==> (#[trigger] r@[j]) == edges@[j],
    {
        r.push(edges[i]);
    }
    proof {
        assert(r@ =~= edges@);
    }
    r
}

/// Computes a tree decomposition of the graph and its width, an upper bound
/// on the graph's treewidth: maximal cliques become the bags of a weighted
/// clique graph, a minimum spanning forest of it is extracted, and the bags
/// are filled along tree paths, either pairwise or through the rooted tree.
///
/// Returns the filled decomposition, a snapshot of it from before filling
/// (when `clone_before_filling` is set), the predecessor map with the node
/// depths and the vertex-to-bags map (in structural mode), and the width.
///
/// Every vertex of the graph lies in some bag, and both ends of every edge
/// lie together in some bag.  In structural mode, every vertex whose bags sit
/// in one tree of the rooted forest induces a connected set of bags.
#[verifier::rlimit(100)]
pub fn compute_treewidth_upper_bound(
    graph: &Graph,
    edge_weight_heuristic: &EdgeWeightHeuristic,
    use_structural_filling: bool,
    clone_before_filling: bool,
) -> (r: (
    TreeDecomposition,
    Option<TreeDecomposition>,
    Option<(Vec<Option<(usize, usize)>>, Vec<usize>)>,
    Option<Vec<Vec<usize>>>,
    usize,
))
    requires
        graph.wf(),
        graph.n() + graph.n() <= i64::MAX,
    ensures
        forall|i: int| 0 <= i < r.0.bags@.len() ==> (#[trigger] r.0.bags@[i]).n() == graph.n(),
        forall|v: int| 0 <= v < graph.n() ==> #[trigger] covers_vertex(r.0.bags@, v),
        forall|i: int|
            0 <= i < r.0.bags@.len() ==> contains_maximal_clique(
                *graph,
                #[trigger] r.0.bags@[i],
            ),
        forall|u: int, v: int| graph.edge(u, v) ==> #[trigger] covers_edge(r.0.bags@, u, v),
        r.4 == decomposition_width(r.0.bags@),
        (r.1 is Some) == clone_before_filling,
        (r.2 is Some) == use_structural_filling,
        (r.3 is Some) == use_structural_filling,
        match r.1 {
            Some(s) => {
                &&& s.bags@.len() == r.0.bags@.len()
                &&& s.edges@ == r.0.edges@
                &&& forall|i: int|
                    0 <= i < s.bags@.len() ==> is_maximal_clique(*graph, #[trigger] s.bags@[i])
                &&& forall|i: int, w: int|
                    0 <= i < s.bags@.len() && (#[trigger] s.bags@[i].has(w))
                        ==> r.0.bags@[i].has(w)
            },
            None => true,
        },
        match r.2 {
            Some(pm) => {
                &&& pm_wf(pm.0@, pm.1@, r.0.bags@.len() as nat)
                &&& forall|v: usize|
                    v < graph.n() ==> #[trigger] running_intersection_at(
                        pm.0@,
                        pm.1@,
                        r.0.bags@,
                        v,
                    )
            },
            None => true,
        },
{
    let n = graph.vertex_count();
    let cliques = find_maximum_cliques(graph);
    let cg = construct_clique_graph(cliques, n, edge_weight_heuristic);
    let clique_graph_map_opt: Option<Vec<Vec<usize>>> = if use_structural_filling {
        Some(construct_clique_graph_map(n, &cg.bags))
    } else {
        None
    };
    let t_edges = minimum_spanning_forest(cg.bags.len(), &cg.edges);
    let ghost cg_edges = cg.edges@;
    let mut bags = cg.bags;
    let ghost bags0 = bags@;
    let snapshot: Option<TreeDecomposition> = if clone_before_filling {
        Some(
            TreeDecomposition { bags: duplicate_bags(&bags), edges: duplicate_edges(&t_edges) },
        )
    } else {
        None
    };
    let pm_opt: Option<(Vec<Option<(usize, usize)>>, Vec<usize>)> = match &clique_graph_map_opt {
        Some(map_ref) => {
            let (pm, depths) = fill_bags_along_paths_using_structure(
                &mut bags,
                &t_edges,
                n,
                map_ref,
            );
            Some((pm, depths))
        },
        None => {
            fill_bags_along_paths(&mut bags, &t_edges, n);
            None
        },
    };
    let width = find_width_of_tree_decomposition(&bags);
    proof {
        // coverage carries over from the cliques, because bags only grow
        assert forall|v: int| 0 <= v < graph.n() implies #[trigger] covers_vertex(bags@, v) by {
            assert(covers_vertex(bags0, v));
            let i = choose|i: int| 0 <= i < bags0.len() && (#[trigger] bags0[i]).has(v);
            assert(bags@[i].has(v));
        }
        assert forall|u: int, v: int| graph.edge(u, v) implies #[trigger] covers_edge(
            bags@,
            u,
            v,
        ) by {
            assert(covers_edge(bags0, u, v));
            let i = choose|i: int|
                0 <= i < bags0.len() && (#[trigger] bags0[i]).has(u) && bags0[i].has(v);
            assert(bags@[i].has(u) && bags@[i].has(v));
        }
        match &snapshot {
            Some(s) => {
                assert forall|i: int| 0 <= i < s.bags@.len() implies is_maximal_clique(
                    *graph,
                    #[trigger] s.bags@[i],
                ) by {
                    lemma_maximal_clique_same_mask(*graph, bags0[i], s.bags@[i]);
                }
                assert forall|i: int, w: int|
                    0 <= i < s.bags@.len() && (#[trigger] s.bags@[i].has(w)) implies bags@[i].has(
                    w,
                ) by {
                    assert(bags0[i].has(w));
                }
            },
            None => {},
        }
        match &pm_opt {
            Some(pm) => {
                // any two pre-fill bags sharing a vertex intersect, so they
                // are joined by a clique-graph edge, whose endpoints the
                // spanning forest keeps connected, and connected nodes share
                // their root: the walks' same-root hypothesis always holds
                assert forall|v: usize| v < graph.n() implies #[trigger] running_intersection_at(
                    pm.0@,
                    pm.1@,
                    bags@,
                    v,
                ) by {
                    assert(same_root_for(pm.0@, pm.1@, bags0, v)) by {
                        assert forall|a: usize, b: usize|
                            a < bags0.len() && b < bags0.len() && (#[trigger] bags0[a as int].has(
                                v as int,
                            )) && (#[trigger] bags0[b as int].has(v as int)) implies root_of(
                            pm.0@,
                            pm.1@,
                            a,
                        ) == root_of(pm.0@, pm.1@, b) by {
                            if a != b {
                                let i: usize = if a < b {
                                    a
                                } else {
                                    b
                                };
                                let j: usize = if a < b {
                                    b
                                } else {
                                    a
                                };
                                assert(bags_intersect(bags0, i as int, j as int)) by {
                                    assert(bags0[i as int].has(v as int) && bags0[j as int].has(
                                        v as int,
                                    ));
                                }
                                assert(has_cg_edge(cg_edges, i as int, j as int));
                                let k = choose|k: int|
                                    0 <= k < cg_edges.len() && (#[trigger] cg_edges[k]).0
                                        == i as int && cg_edges[k].1 == j as int;
                                assert(connected(t_edges@, cg_edges[k].0, cg_edges[k].1));
                                assert(connected(t_edges@, i, j));
                                assert(root_of(pm.0@, pm.1@, i) == root_of(pm.0@, pm.1@, j));
                            }
                        }
                    }
                }
            },
            None => {},
        }
        assert forall|i: int| 0 <= i < bags@.len() implies contains_maximal_clique(
            *graph,
            #[trigger] bags@[i],
        ) by {
            let c = bags0[i];
            assert(is_maximal_clique(*graph, c));
            assert forall|w: int| #[trigger] c.has(w) implies bags@[i].has(w) by {}
        }
    }
    (TreeDecomposition { bags, edges: t_edges }, snapshot, pm_opt, clique_graph_map_opt, width)
}

} // verus!
