use rand::rngs::StdRng;
use rand::SeedableRng;
use treewidth_heuristic::clique_graph_edge_weight_heuristics::EdgeWeightHeuristic;
use treewidth_heuristic::compute_treewidth_upper_bound;
use treewidth_heuristic::generate_partial_k_tree::{
    edge_list, generate_complete_graph, generate_k_tree, generate_partial_k_tree,
    generate_partial_k_tree_with_guaranteed_treewidth,
};
use treewidth_heuristic::maximum_minimum_degree_heuristic::maximum_minimum_degree;

#[test]
fn test_generate_complete_graph_with_maximum_minimum_degree() {
    let complete_graph_hundred_vertices = generate_complete_graph(100);
    let complete_graph_twenty_vertices = generate_complete_graph(20);

    let max_min_degree_hundred = maximum_minimum_degree(&complete_graph_hundred_vertices);
    let max_min_degree_twenty = maximum_minimum_degree(&complete_graph_twenty_vertices);

    assert_eq!(max_min_degree_hundred, 99);
    assert_eq!(max_min_degree_twenty, 19);
}

#[test]
fn test_generate_k_tree_with_maximum_minimum_degree() {
    let mut rng = StdRng::seed_from_u64(42);
    let hundred_tree = generate_k_tree(100, 150, &mut rng).expect("k is smaller than n");
    let twenty_five_tree = generate_k_tree(25, 100, &mut rng).expect("k is smaller than n");

    let max_min_degree_hundred = maximum_minimum_degree(&hundred_tree);
    let max_min_degree_twenty_give = maximum_minimum_degree(&twenty_five_tree);

    assert_eq!(max_min_degree_hundred, 100);
    assert_eq!(max_min_degree_twenty_give, 25);
}

#[test]
fn test_generate_partial_k_tree_with_guarantee_with_maximum_minimum_degree() {
    let mut rng = StdRng::seed_from_u64(7);
    let hundred_tree = generate_partial_k_tree_with_guaranteed_treewidth(10, 200, 10, &mut rng)
        .expect("k is smaller than n");
    let twenty_five_tree = generate_partial_k_tree_with_guaranteed_treewidth(10, 500, 20, &mut rng)
        .expect("k is smaller than n");

    let max_min_degree_hundred = maximum_minimum_degree(&hundred_tree);
    let max_min_degree_twenty_give = maximum_minimum_degree(&twenty_five_tree);

    assert_eq!(max_min_degree_hundred, 10);
    assert_eq!(max_min_degree_twenty_give, 10);
}

#[test]
fn test_generator_rejects_k_larger_than_n() {
    let mut rng = StdRng::seed_from_u64(1);
    assert!(generate_k_tree(5, 4, &mut rng).is_none());
    assert!(generate_partial_k_tree(5, 4, 10, &mut rng).is_none());
    assert!(generate_partial_k_tree_with_guaranteed_treewidth(5, 4, 10, &mut rng).is_none());
}

#[test]
fn test_partial_k_tree_edge_count() {
    // a partial k-tree has k(k-1)/2 + k(n-k) - floor(p * E / 100) edges
    let mut rng = StdRng::seed_from_u64(3);
    let k = 5;
    let n = 15;
    let p = 10;
    let total = k * (k - 1) / 2 + k * (n - k);
    let removed = (total * p) / 100;
    let g = generate_partial_k_tree(k, n, p, &mut rng).expect("k is smaller than n");
    assert_eq!(edge_list(&g).len(), total - removed);

    // p above one hundred removes every edge
    let g2 = generate_partial_k_tree(3, 9, 250, &mut rng).expect("k is smaller than n");
    assert_eq!(edge_list(&g2).len(), 0);
}

#[test]
fn test_k_tree_edge_count() {
    let mut rng = StdRng::seed_from_u64(4);
    let g = generate_k_tree(2, 6, &mut rng).expect("k is smaller than n");
    // one edge in the complete part, two for each of the four later vertices
    assert_eq!(edge_list(&g).len(), 1 + 2 * 4);
}

#[test]
fn test_partial_k_tree_decomposition_width() {
    // a partial 5-tree has treewidth at most 5 certified by the heuristic,
    // and the decomposition's width can only be larger
    let mut rng = StdRng::seed_from_u64(11);
    let g = generate_partial_k_tree_with_guaranteed_treewidth(5, 15, 10, &mut rng)
        .expect("k is smaller than n");
    assert_eq!(maximum_minimum_degree(&g), 5);
    for structural in [false, true] {
        let (_, _, _, _, width) = compute_treewidth_upper_bound(
            &g,
            &EdgeWeightHeuristic::LeastDifference,
            structural,
            false,
        );
        assert!(width >= 5);
    }
}

#[test]
fn test_width_stable_under_same_seed() {
    // the same seed and flags give the same graph and the same width
    let mut widths: Vec<usize> = Vec::new();
    let mut counts: Vec<usize> = Vec::new();
    for _ in 0..2 {
        let mut rng = StdRng::seed_from_u64(99);
        let g = generate_partial_k_tree_with_guaranteed_treewidth(4, 12, 15, &mut rng)
            .expect("k is smaller than n");
        counts.push(edge_list(&g).len());
        let (_, _, _, _, width) = compute_treewidth_upper_bound(
            &g,
            &EdgeWeightHeuristic::LeastDifference,
            true,
            false,
        );
        widths.push(width);
    }
    assert_eq!(widths[0], widths[1]);
    assert_eq!(counts[0], counts[1]);
}
