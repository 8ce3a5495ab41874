use treewidth_heuristic::clique_graph_edge_weight_heuristics::{
    disjoint_union_heuristic, least_difference_heuristic, negative_intersection_heuristic,
    neutral_heuristic, positive_intersection_heuristic, union_heuristic, EdgeWeightHeuristic,
};
use treewidth_heuristic::compute_treewidth_upper_bound;
use treewidth_heuristic::find_maximum_cliques::find_maximum_cliques;
use treewidth_heuristic::graph::Graph;
use treewidth_heuristic::maximum_minimum_degree_heuristic::maximum_minimum_degree;
use treewidth_heuristic::vertex_set::VertexSet;

fn graph_from_edges(n: usize, edges: &[(usize, usize)]) -> Graph {
    let mut g = Graph::new(n);
    for &(u, v) in edges {
        g.add_edge(u, v);
    }
    g
}

fn sorted_cliques(g: &Graph) -> Vec<Vec<usize>> {
    let cliques = find_maximum_cliques(g);
    let mut out: Vec<Vec<usize>> = cliques.iter().map(|b| b.to_sorted_vec()).collect();
    out.sort();
    out
}

/// Every vertex of the graph appears in some bag, and both endpoints of every
/// edge appear together in some bag.
fn check_coverage(n: usize, edges: &[(usize, usize)], bags: &[VertexSet]) {
    for v in 0..n {
        assert!(
            bags.iter().any(|b| b.contains(v)),
            "vertex {} is in no bag",
            v
        );
    }
    for &(u, v) in edges {
        assert!(
            bags.iter().any(|b| b.contains(u) && b.contains(v)),
            "edge ({}, {}) is in no bag",
            u,
            v
        );
    }
}

/// For every vertex, the tree nodes whose bag contains it are connected in
/// the tree (checked with a union-find over the induced edges).
fn check_running_intersection(n: usize, bags: &[VertexSet], tree_edges: &[(usize, usize, i64)]) {
    for v in 0..n {
        let members: Vec<usize> = (0..bags.len()).filter(|&i| bags[i].contains(v)).collect();
        if members.len() <= 1 {
            continue;
        }
        let mut comp: Vec<usize> = (0..bags.len()).collect();
        loop {
            let mut changed = false;
            for &(a, b, _) in tree_edges {
                if bags[a].contains(v) && bags[b].contains(v) && comp[a] != comp[b] {
                    let (lo, hi) = (comp[a].min(comp[b]), comp[a].max(comp[b]));
                    for c in comp.iter_mut() {
                        if *c == hi {
                            *c = lo;
                        }
                    }
                    changed = true;
                }
            }
            if !changed {
                break;
            }
        }
        let root = comp[members[0]];
        for &m in &members {
            assert!(
                comp[m] == root,
                "bags containing vertex {} are not connected",
                v
            );
        }
    }
}

fn check_decomposition(n: usize, edges: &[(usize, usize)], structural: bool) -> usize {
    let g = graph_from_edges(n, edges);
    let (filled, snapshot, _pm, _map, width) = compute_treewidth_upper_bound(
        &g,
        &EdgeWeightHeuristic::LeastDifference,
        structural,
        true,
    );
    check_coverage(n, edges, &filled.bags);
    check_running_intersection(n, &filled.bags, &filled.edges);
    let snap = snapshot.expect("snapshot was requested");
    assert_eq!(snap.bags.len(), filled.bags.len());
    width
}

const EDGES_SIX: [(usize, usize); 10] = [
    (0, 1),
    (0, 3),
    (0, 4),
    (0, 5),
    (1, 2),
    (2, 3),
    (2, 5),
    (3, 4),
    (3, 5),
    (4, 5),
];

const EDGES_ELEVEN: [(usize, usize); 13] = [
    (0, 1),
    (0, 2),
    (0, 5),
    (1, 2),
    (1, 3),
    (1, 5),
    (2, 5),
    (3, 4),
    (3, 5),
    (3, 6),
    (4, 6),
    (7, 8),
    (9, 10),
];

#[test]
fn test_cliques_six_vertices() {
    let g = graph_from_edges(6, &EDGES_SIX);
    let expected: Vec<Vec<usize>> = vec![vec![0, 1], vec![0, 3, 4, 5], vec![1, 2], vec![2, 3, 5]];
    assert_eq!(sorted_cliques(&g), expected);
}

#[test]
fn test_cliques_eleven_vertices() {
    let g = graph_from_edges(11, &EDGES_ELEVEN);
    let expected: Vec<Vec<usize>> = vec![
        vec![0, 1, 2, 5],
        vec![1, 3, 5],
        vec![3, 4, 6],
        vec![7, 8],
        vec![9, 10],
    ];
    assert_eq!(sorted_cliques(&g), expected);
}

#[test]
fn test_decomposition_six_vertices() {
    assert_eq!(check_decomposition(6, &EDGES_SIX, true), 3);
    assert_eq!(check_decomposition(6, &EDGES_SIX, false), 3);
    let g = graph_from_edges(6, &EDGES_SIX);
    assert_eq!(maximum_minimum_degree(&g), 3);
}

#[test]
fn test_decomposition_eleven_vertices() {
    assert_eq!(check_decomposition(11, &EDGES_ELEVEN, true), 3);
    assert_eq!(check_decomposition(11, &EDGES_ELEVEN, false), 3);
    let g = graph_from_edges(11, &EDGES_ELEVEN);
    assert_eq!(maximum_minimum_degree(&g), 3);
}

#[test]
fn test_decomposition_complete_graph_five() {
    let edges: Vec<(usize, usize)> = (0..5)
        .flat_map(|u| ((u + 1)..5).map(move |v| (u, v)))
        .collect();
    let g = graph_from_edges(5, &edges);
    let cliques = sorted_cliques(&g);
    assert_eq!(cliques, vec![vec![0, 1, 2, 3, 4]]);
    assert_eq!(check_decomposition(5, &edges, true), 4);
    assert_eq!(check_decomposition(5, &edges, false), 4);
    assert_eq!(maximum_minimum_degree(&g), 4);
}

#[test]
fn test_decomposition_two_disjoint_edges() {
    let edges = [(0usize, 1usize), (2, 3)];
    let g = graph_from_edges(4, &edges);
    assert_eq!(sorted_cliques(&g), vec![vec![0, 1], vec![2, 3]]);
    let (filled, _, _, _, width) =
        compute_treewidth_upper_bound(&g, &EdgeWeightHeuristic::LeastDifference, true, false);
    assert_eq!(width, 1);
    assert_eq!(filled.edges.len(), 0);
    assert_eq!(check_decomposition(4, &edges, false), 1);
}

#[test]
fn test_decomposition_empty_graph() {
    let g = Graph::new(0);
    let (filled, _, _, _, width) =
        compute_treewidth_upper_bound(&g, &EdgeWeightHeuristic::Neutral, false, false);
    assert_eq!(width, 0);
    assert_eq!(filled.bags.len(), 0);
}

#[test]
fn test_all_heuristics_give_valid_decompositions() {
    // any two heuristics both yield valid decompositions; widths may differ
    let heuristics = [
        EdgeWeightHeuristic::Neutral,
        EdgeWeightHeuristic::NegativeIntersection,
        EdgeWeightHeuristic::PositiveIntersection,
        EdgeWeightHeuristic::DisjointUnion,
        EdgeWeightHeuristic::Union,
        EdgeWeightHeuristic::LeastDifference,
    ];
    for h in &heuristics {
        for structural in [false, true] {
            let g = graph_from_edges(11, &EDGES_ELEVEN);
            let (filled, _, _, _, _) = compute_treewidth_upper_bound(&g, h, structural, false);
            check_coverage(11, &EDGES_ELEVEN, &filled.bags);
            check_running_intersection(11, &filled.bags, &filled.edges);
        }
    }
}

#[test]
fn test_pairwise_and_structural_filling_agree() {
    // both fillers produce the same bag contents on the same snapshot
    for (n, edges) in [(6usize, &EDGES_SIX[..]), (11, &EDGES_ELEVEN[..])] {
        let g = graph_from_edges(n, edges);
        let (filled_s, _, _, _, width_s) =
            compute_treewidth_upper_bound(&g, &EdgeWeightHeuristic::LeastDifference, true, true);
        let (filled_p, _, _, _, width_p) =
            compute_treewidth_upper_bound(&g, &EdgeWeightHeuristic::LeastDifference, false, true);
        assert_eq!(width_s, width_p);
        assert_eq!(filled_s.bags.len(), filled_p.bags.len());
        for i in 0..filled_s.bags.len() {
            assert_eq!(
                filled_s.bags[i].to_sorted_vec(),
                filled_p.bags[i].to_sorted_vec(),
                "bag {} differs between the two fillers",
                i
            );
        }
    }
}

#[test]
fn test_width_at_least_max_min_degree() {
    // lower-bound sanity: the decomposition is never narrower than the
    // max-min-degree proxy
    for (n, edges) in [(6usize, &EDGES_SIX[..]), (11, &EDGES_ELEVEN[..])] {
        let g = graph_from_edges(n, edges);
        let lower = maximum_minimum_degree(&g);
        for structural in [false, true] {
            let (_, _, _, _, width) = compute_treewidth_upper_bound(
                &g,
                &EdgeWeightHeuristic::NegativeIntersection,
                structural,
                false,
            );
            assert!(width >= lower);
        }
    }
}

#[test]
fn test_heuristic_values() {
    let mut a = VertexSet::new(5);
    a.insert(0);
    a.insert(1);
    a.insert(2);
    let mut b = VertexSet::new(5);
    b.insert(1);
    b.insert(2);
    b.insert(3);
    assert_eq!(neutral_heuristic(&a, &b), 0);
    assert_eq!(negative_intersection_heuristic(&a, &b), -2);
    assert_eq!(positive_intersection_heuristic(&a, &b), 2);
    assert_eq!(disjoint_union_heuristic(&a, &b), 6);
    assert_eq!(union_heuristic(&a, &b), 4);
    assert_eq!(least_difference_heuristic(&a, &b), 2);
}
