//! Generation of partial k-trees of guaranteed treewidth, for benchmarking.
//!
//! A k-tree is built by completing a graph on `k` vertices and attaching each
//! further vertex to `k` randomly chosen existing vertices (a loose variant
//! of the textbook construction: the chosen vertices need not form a clique;
//! bad draws are filtered out afterwards by the max-min-degree check).  Then
//! a percentage of the edges is removed at random, and the construction is
//! retried until the max-min-degree heuristic certifies the bound.

use vstd::prelude::*;
use vstd::set_lib::{lemma_len_subset, lemma_set_subset_finite, set_int_range, lemma_int_range};
use vstd::set::{axiom_set_insert_len, axiom_set_remove_len};
use rand::rngs::StdRng;
use crate::graph::Graph;
use crate::maximum_minimum_degree_heuristic::{
    is_mmd,
    is_min_deg,
    deg_in,
    nbrs_in,
    maximum_minimum_degree,
    lemma_set_max,
};

verus! {

#[verifier::external_type_specification]
#[verifier::external_body]
pub struct ExStdRng(StdRng);

/// Relies on rand's `seq::index::sample`: exactly `amount` distinct indices
/// drawn uniformly from `0 .. length`.  It panics when `amount > length`, and
/// for `length` above `u32::MAX` it takes the rejection sampler, whose debug
/// assertion demands `amount < length`; both inputs are excluded here.
/// Nothing is assumed about which indices come back.
#[verifier::external_body]
fn sample_indices(rng: &mut StdRng, length: usize, amount: usize) -> (r: Vec<usize>)
    requires
        amount <= length,
        length <= u32::MAX || amount < length,
    ensures
        r@.len() == amount,
        forall|i: int| 0 <= i < r@.len() ==> (#[trigger] r@[i]) < length,
        forall|i: int, j: int| 0 <= i < j < r@.len() ==> r@[i] != r@[j],
{
    rand::seq::index::sample(rng, length, amount).into_vec()
}

/// Every two distinct vertices are adjacent.
pub open spec fn is_complete_graph(g: Graph) -> bool {
    forall|u: int, v: int| 0 <= u < g.n() && 0 <= v < g.n() && u != v ==> g.edge(u, v)
}

/// The earlier neighbours of `v`: its back-edges in construction order.
pub open spec fn bdeg_set(g: Graph, v: int) -> Set<int> {
    Set::new(|u: int| 0 <= u < v && g.edge(u, v))
}

/// A loose k-tree on `n` vertices: the first `k` form a complete graph, and
/// every later vertex has exactly `k` earlier neighbours.
pub open spec fn is_loose_k_tree(g: Graph, k: nat, n: nat) -> bool {
    &&& g.n() == n
    &&& k <= n
    &&& forall|u: int, v: int| 0 <= u < v < k ==> g.edge(u, v)
    &&& forall|v: int| k <= v < n ==> (#[trigger] bdeg_set(g, v)).len() == k
}

/// Back-neighbour sets are finite and bounded by the vertex index.
pub proof fn lemma_bdeg_finite(g: Graph, v: int)
    ensures
        bdeg_set(g, v).finite(),
        v >= 0 ==> bdeg_set(g, v).len() <= v,
{
    if v >= 0 {
        lemma_int_range(0, v);
        assert(bdeg_set(g, v).subset_of(set_int_range(0, v)));
        lemma_len_subset(bdeg_set(g, v), set_int_range(0, v));
    } else {
        assert(bdeg_set(g, v) =~= Set::empty());
    }
}

/// The max-min-degree of a complete graph on `k` vertices is `k - 1`.
pub proof fn lemma_mmd_of_complete_graph(g: Graph, k: nat)
    requires
        g.wf(),
        is_complete_graph(g),
        g.n() == k,
        k >= 1,
    ensures
        is_mmd(g, (k - 1) as nat),
{
    let full = set_int_range(0, k as int);
    lemma_int_range(0, k as int);
    assert forall|v: int| full.contains(v) implies #[trigger] deg_in(g, full, v) == (k
        - 1) as nat by {
        assert(nbrs_in(g, full, v) =~= full.remove(v));
        axiom_set_remove_len(full, v);
    }
    assert(full.contains(0));
    assert(deg_in(g, full, 0) == (k - 1) as nat);
    assert(is_min_deg(g, full, (k - 1) as nat));
    assert forall|h: Set<int>, e: nat|
        h.subset_of(set_int_range(0, g.n() as int)) && #[trigger] is_min_deg(g, h, e) implies e
        <= (k - 1) as nat by {
        lemma_set_subset_finite(set_int_range(0, k as int), h);
        lemma_len_subset(h, set_int_range(0, k as int));
        let v0 = choose|v: int| h.contains(v) && #[trigger] deg_in(g, h, v) == e;
        assert(nbrs_in(g, h, v0).subset_of(h.remove(v0)));
        axiom_set_remove_len(h, v0);
        lemma_set_subset_finite(h, h.remove(v0));
        lemma_len_subset(nbrs_in(g, h, v0), h.remove(v0));
    }
}

/// The max-min-degree of a loose k-tree with more than `k` vertices is `k`:
/// the first added vertex completes a clique on `k + 1` vertices, and every
/// subgraph has a latest vertex, whose degree inside it is at most `k`.
pub proof fn lemma_mmd_of_loose_k_tree(g: Graph, k: nat, n: nat)
    requires
        g.wf(),
        is_loose_k_tree(g, k, n),
        n > k,
    ensures
        is_mmd(g, k),
{
    lemma_int_range(0, n as int);
    // no subgraph has minimum degree above k
    assert forall|h: Set<int>, e: nat|
        h.subset_of(set_int_range(0, g.n() as int)) && #[trigger] is_min_deg(g, h, e) implies e
        <= k by {
        lemma_set_subset_finite(set_int_range(0, n as int), h);
        let v0 = choose|v: int| h.contains(v) && #[trigger] deg_in(g, h, v) == e;
        axiom_set_remove_len(h, v0);
        lemma_set_max(h);
        let vm = choose|v: int| h.contains(v) && (forall|u: int| h.contains(u) ==> u <= v);
        assert(deg_in(g, h, vm) >= e);
        assert(nbrs_in(g, h, vm).subset_of(bdeg_set(g, vm))) by {
            assert forall|u: int| nbrs_in(g, h, vm).contains(u) implies bdeg_set(g, vm).contains(
                u,
            ) by {
                assert(h.contains(u) && g.edge(u, vm));
                assert(u <= vm);
                assert(u != vm);
            }
        }
        lemma_bdeg_finite(g, vm);
        lemma_len_subset(nbrs_in(g, h, vm), bdeg_set(g, vm));
        assert(0 <= vm < n);
        if vm >= k {
            assert(bdeg_set(g, vm).len() == k);
        } else {
            assert(bdeg_set(g, vm).len() <= vm < k);
        }
    }
    // the first added vertex together with the complete part is a clique on
    // k + 1 vertices, whose minimum degree is k
    let hstar = set_int_range(0, (k + 1) as int);
    lemma_int_range(0, (k + 1) as int);
    assert forall|u: int| 0 <= u < k implies g.edge(u, k as int) by {
        if !g.edge(u, k as int) {
            lemma_int_range(0, k as int);
            assert(bdeg_set(g, k as int).subset_of(set_int_range(0, k as int).remove(u)));
            axiom_set_remove_len(set_int_range(0, k as int), u);
            lemma_set_subset_finite(set_int_range(0, k as int), set_int_range(0, k as int).remove(u));
            lemma_len_subset(bdeg_set(g, k as int), set_int_range(0, k as int).remove(u));
            assert(bdeg_set(g, k as int).len() == k);
            assert(false);
        }
    }
    assert forall|v: int| hstar.contains(v) implies #[trigger] deg_in(g, hstar, v) == k by {
        assert(nbrs_in(g, hstar, v) =~= hstar.remove(v)) by {
            assert forall|u: int| hstar.contains(u) && u != v implies g.edge(u, v) by {
                if u < k && v < k {
                    if u < v {
                        assert(g.edge(u, v));
                    } else {
                        assert(g.edge(v, u));
                        assert(g.edge(u, v));
                    }
                } else if v == k {
                    assert(g.edge(u, v));
                } else {
                    assert(u == k);
                    assert(g.edge(v, u));
                    assert(g.edge(u, v));
                }
            }
        }
        axiom_set_remove_len(hstar, v);
    }
    assert(hstar.contains(0));
    assert(deg_in(g, hstar, 0) == k);
    assert(is_min_deg(g, hstar, k));
    assert(hstar.subset_of(set_int_range(0, n as int)));
}

/// Builds the complete graph on `k` vertices.
pub fn generate_complete_graph(k: usize) -> (g: Graph)
    ensures
        g.wf(),
        g.n() == k,
        is_complete_graph(g),
{
    let mut g = Graph::new(k);
    for u in 0..k
        invariant
            g.wf(),
            g.n() == k,
            forall|a: int, b: int|
                #[trigger] g.edge(a, b) == (0 <= a < k && 0 <= b < k && a != b && (if a < b {
                    a
                } else {
                    b
                }) < u),
    {
        for v in (u + 1)..k
            invariant
                u < k,
                g.wf(),
                g.n() == k,
                forall|a: int, b: int|
                    #[trigger] g.edge(a, b) == (0 <= a < k && 0 <= b < k && a != b && ((if a < b {
                        a
                    } else {
                        b
                    }) < u || ((if a < b {
                        a
                    } else {
                        b
                    }) == u && u < (if a < b {
                        b
                    } else {
                        a
                    }) < v))),
        {
            g.add_edge(u, v);
        }
    }
    g
}

/// A back-neighbour set is counted within any larger prefix.
proof fn lemma_bdeg_le_ecount_upto(g: Graph, v: int, i: int)
    requires
        0 <= v < i,
    ensures
        bdeg_set(g, v).len() <= ecount_upto(g, i),
    decreases i,
{
    if v < i - 1 {
        lemma_bdeg_le_ecount_upto(g, v, i - 1);
    }
}

/// The max-min-degree of an edgeless graph is zero.
proof fn lemma_mmd_of_edgeless(g: Graph, d: nat)
    requires
        g.wf(),
        ecount(g) == 0,
        is_mmd(g, d),
    ensures
        d == 0,
{
    let h = choose|h: Set<int>|
        h.subset_of(set_int_range(0, g.n() as int)) && #[trigger] is_min_deg(g, h, d);
    let v0 = choose|v: int| h.contains(v) && #[trigger] deg_in(g, h, v) == d;
    assert(0 <= v0 < g.n()) by {
        assert(set_int_range(0, g.n() as int).contains(v0));
    }
    assert(nbrs_in(g, h, v0) =~= Set::empty()) by {
        assert forall|u: int| !(#[trigger] nbrs_in(g, h, v0).contains(u)) by {
            if nbrs_in(g, h, v0).contains(u) {
                assert(g.edge(u, v0));
                lemma_bdeg_finite(g, v0);
                lemma_bdeg_finite(g, u);
                if u < v0 {
                    assert(bdeg_set(g, v0).contains(u));
                    axiom_set_remove_len(bdeg_set(g, v0), u);
                    lemma_bdeg_le_ecount_upto(g, v0, g.n() as int);
                    assert(false);
                } else {
                    assert(g.edge(v0, u));
                    assert(u != v0);
                    assert(bdeg_set(g, u).contains(v0));
                    axiom_set_remove_len(bdeg_set(g, u), v0);
                    lemma_bdeg_le_ecount_upto(g, u, g.n() as int);
                    assert(false);
                }
            }
        }
    }
    assert(deg_in(g, h, v0) == 0);
}

/// The graph's edges all occur in some loose k-tree on `n` vertices.
pub open spec fn subgraph_of_loose_k_tree(g: Graph, k: nat, n: nat) -> bool {
    exists|t: Graph|
        #[trigger] is_loose_k_tree(t, k, n) && (forall|a: int, b: int|
            #[trigger] g.edge(a, b) ==> t.edge(a, b))
}

/// Edges among the first `v` vertices, counted by back-degrees.
pub open spec fn ecount_upto(g: Graph, v: int) -> nat
    decreases v,
{
    if v <= 0 {
        0
    } else {
        ecount_upto(g, v - 1) + bdeg_set(g, v - 1).len()
    }
}

/// The number of edges of the graph.
pub open spec fn ecount(g: Graph) -> nat {
    ecount_upto(g, g.n() as int)
}

/// The number of edges of a loose k-tree on `n` vertices.
pub open spec fn ktree_edge_count(k: nat, n: nat) -> nat {
    (k * (k - 1) / 2 + k * (n - k)) as nat
}

/// Graphs with the same edges below `v` have the same count there.
proof fn lemma_ecount_agree(g1: Graph, g2: Graph, v: int)
    requires
        forall|a: int, b: int| 0 <= a < v && 0 <= b < v ==> g1.edge(a, b) == g2.edge(a, b),
    ensures
        ecount_upto(g1, v) == ecount_upto(g2, v),
    decreases v,
{
    if v > 0 {
        lemma_ecount_agree(g1, g2, v - 1);
        assert(bdeg_set(g1, v - 1) =~= bdeg_set(g2, v - 1));
    }
}

/// Removing one edge `{u, v}` with `u < v < i` lowers the count below `i` by
/// one; adding it raises it by one.
proof fn lemma_ecount_toggle(g1: Graph, g2: Graph, u: int, v: int, i: int)
    requires
        0 <= u < v,
        g1.edge(u, v),
        !g2.edge(u, v),
        forall|a: int, b: int|
            !(a == u && b == v) && !(a == v && b == u) ==> g1.edge(a, b) == g2.edge(a, b),
    ensures
        ecount_upto(g1, i) == ecount_upto(g2, i) + (if v < i {
            1nat
        } else {
            0nat
        }),
    decreases i,
{
    if i > 0 {
        lemma_ecount_toggle(g1, g2, u, v, i - 1);
        if i - 1 == v {
            lemma_bdeg_finite(g2, v);
            assert(bdeg_set(g1, v) =~= bdeg_set(g2, v).insert(u));
            assert(!bdeg_set(g2, v).contains(u));
            axiom_set_insert_len(bdeg_set(g2, v), u);
        } else {
            assert(bdeg_set(g1, i - 1) =~= bdeg_set(g2, i - 1));
        }
    }
}

/// The edge count of a loose k-tree: `k(k-1)/2` from the complete part, `k`
/// for each later vertex.
proof fn lemma_ecount_loose_upto(g: Graph, k: nat, n: nat, i: int)
    requires
        g.wf(),
        is_loose_k_tree(g, k, n),
        0 <= i <= n,
    ensures
        i <= k ==> ecount_upto(g, i) == i * (i - 1) / 2,
        i > k ==> ecount_upto(g, i) == k * (k - 1) / 2 + k * (i - k),
    decreases i,
{
    if i > 0 {
        lemma_ecount_loose_upto(g, k, n, i - 1);
        if i <= k {
            assert(bdeg_set(g, i - 1) =~= set_int_range(0, i - 1)) by {
                assert forall|u: int| 0 <= u < i - 1 implies #[trigger] g.edge(u, i - 1) by {
                    assert(0 <= u < i - 1 < k);
                }
            }
            lemma_int_range(0, i - 1);
            assert((i - 1) * (i - 2) / 2 + (i - 1) == i * (i - 1) / 2) by (nonlinear_arith)
                requires
                    i >= 1,
            ;
        } else {
            assert(bdeg_set(g, i - 1).len() == k);
            if i - 1 == k {
                assert(k * (i - k) == k) by (nonlinear_arith)
                    requires
                        i - k == 1,
                ;
            } else {
                assert(k * (i - 1 - k) + k == k * (i - k)) by (nonlinear_arith)
                    requires
                        i >= 1,
                ;
            }
        }
    }
}

/// The edges of the graph, each once, as ordered pairs `(u, v)` with `u < v`,
/// listed in increasing order of `(v, u)`; the list length is the edge count.
pub fn edge_list(g: &Graph) -> (r: Vec<(usize, usize)>)
    requires
        g.wf(),
    ensures
        r@.len() == ecount(*g),
        forall|i: int|
            0 <= i < r@.len() ==> (#[trigger] r@[i]).0 < r@[i].1 < g.n() && g.edge(
                r@[i].0 as int,
                r@[i].1 as int,
            ),
        forall|i: int, j: int|
            0 <= i < j < r@.len() ==> ((#[trigger] r@[i]).1 < (#[trigger] r@[j]).1 || (r@[i].1
                == r@[j].1 && r@[i].0 < r@[j].0)),
{
    let n = g.vertex_count();
    let mut r: Vec<(usize, usize)> = Vec::new();
    for v in 0..n
        invariant
            n == g.n(),
            g.wf(),
            r@.len() == ecount_upto(*g, v as int),
            forall|i: int|
                0 <= i < r@.len() ==> (#[trigger] r@[i]).0 < r@[i].1 < n && g.edge(
                    r@[i].0 as int,
                    r@[i].1 as int,
                ),
            forall|i: int| 0 <= i < r@.len() ==> (#[trigger] r@[i]).1 < v,
            forall|i: int, j: int|
                0 <= i < j < r@.len() ==> ((#[trigger] r@[i]).1 < (#[trigger] r@[j]).1 || (r@[
                    i].1 == r@[j].1 && r@[i].0 < r@[j].0)),
    {
        let ghost mut seen: Set<int> = Set::empty();
        let ghost rlen0 = r@.len() as int;
        for u in 0..v
            invariant
                n == g.n(),
                g.wf(),
                v < n,
                seen =~= Set::new(|i: int| 0 <= i < u && g.edge(i, v as int)),
                seen.finite(),
                r@.len() == rlen0 + seen.len(),
                rlen0 == ecount_upto(*g, v as int),
                forall|i: int|
                    0 <= i < r@.len() ==> (#[trigger] r@[i]).0 < r@[i].1 < n && g.edge(
                        r@[i].0 as int,
                        r@[i].1 as int,
                    ),
                forall|i: int| 0 <= i < rlen0 ==> (#[trigger] r@[i]).1 < v,
                forall|i: int|
                    rlen0 <= i < r@.len() ==> (#[trigger] r@[i]).1 == v && r@[i].0 < u,
                forall|i: int, j: int|
                    0 <= i < j < r@.len() ==> ((#[trigger] r@[i]).1 < (#[trigger] r@[j]).1 || (r@[
                        i].1 == r@[j].1 && r@[i].0 < r@[j].0)),
        {
            if g.has_edge(u, v) {
                proof {
                    assert(!seen.contains(u as int));
                    axiom_set_insert_len(seen, u as int);
                    seen = seen.insert(u as int);
                }
                r.push((u, v));
            }
            proof {
                seen = Set::new(|i: int| 0 <= i < u + 1 && g.edge(i, v as int));
                assert(seen =~= (if g.edge(u as int, v as int) {
                    Set::new(|i: int| 0 <= i < u && g.edge(i, v as int)).insert(u as int)
                } else {
                    Set::new(|i: int| 0 <= i < u && g.edge(i, v as int))
                }));
            }
        }
        proof {
            assert(seen =~= bdeg_set(*g, v as int));
        }
    }
    r
}

/// Builds a loose k-tree on `n` vertices: a complete graph on the first `k`,
/// then each later vertex attached to `k` existing vertices chosen uniformly
/// at random without replacement.  Returns nothing exactly when `k > n`.
#[verifier::rlimit(100)]
pub fn generate_k_tree(k: usize, n: usize, rng: &mut StdRng) -> (r: Option<Graph>)
    ensures
        r is Some <==> k <= n,
        match r {
            Some(g) => g.wf() && is_loose_k_tree(g, k as nat, n as nat),
            None => true,
        },
{
    if k > n {
        return None;
    }
    let mut g = Graph::new(n);
    for u in 0..k
        invariant
            k <= n,
            g.wf(),
            g.n() == n,
            forall|a: int, b: int|
                #[trigger] g.edge(a, b) == (0 <= a < k && 0 <= b < k && a != b && (if a < b {
                    a
                } else {
                    b
                }) < u),
    {
        for v in (u + 1)..k
            invariant
                u < k <= n,
                g.wf(),
                g.n() == n,
                forall|a: int, b: int|
                    #[trigger] g.edge(a, b) == (0 <= a < k && 0 <= b < k && a != b && ((if a < b {
                        a
                    } else {
                        b
                    }) < u || ((if a < b {
                        a
                    } else {
                        b
                    }) == u && u < (if a < b {
                        b
                    } else {
                        a
                    }) < v))),
        {
            g.add_edge(u, v);
        }
    }
    proof {
        assert forall|w: int| k <= w < k implies (#[trigger] bdeg_set(g, w)).len()
            == k as nat by {}
    }
    for v in k..n
        invariant
            k <= v <= n,
            g.wf(),
            g.n() == n,
            forall|a: int, b: int| 0 <= a < b < k ==> g.edge(a, b),
            forall|w: int| k <= w < v ==> (#[trigger] bdeg_set(g, w)).len() == k as nat,
            // no edges touch the vertices not yet attached
            forall|a: int, b: int| #[trigger] g.edge(a, b) && (a >= v || b >= v) ==> false,
    {
        // the first added vertex picks all existing ones: nothing to draw
        let picks: Vec<usize> = if k == v {
            let mut all: Vec<usize> = Vec::new();
            for i in 0..v
                invariant
                    all@.len() == i,
                    forall|j: int| 0 <= j < i ==> (#[trigger] all@[j]) == j,
            {
                all.push(i);
            }
            all
        } else {
            sample_indices(rng, v, k)
        };
        let ghost gstart = g;
        let npicks = picks.len();
        let ghost mut pickset: Set<int> = Set::empty();
        for i in 0..npicks
            invariant
                npicks == k <= v < n,
                g.wf(),
                g.n() == n,
                picks@.len() == k,
                forall|x: int| 0 <= x < picks@.len() ==> (#[trigger] picks@[x]) < v,
                forall|x: int, y: int| 0 <= x < y < picks@.len() ==> picks@[x] != picks@[y],
                pickset =~= Set::new(
                    |u: int| exists|x: int| 0 <= x < i && (#[trigger] picks@[x]) == u,
                ),
                pickset.finite(),
                pickset.len() == i,
                forall|a: int, b: int|
                    #[trigger] g.edge(a, b) == (gstart.edge(a, b) || (b == v && pickset.contains(
                        a,
                    )) || (a == v && pickset.contains(b))),
                forall|a: int, b: int| 0 <= a < b < k ==> gstart.edge(a, b),
                forall|w: int| k <= w < v ==> (#[trigger] bdeg_set(gstart, w)).len() == k as nat,
                forall|a: int, b: int| #[trigger] gstart.edge(a, b) && (a >= v || b >= v) ==> false,
        {
            let p = picks[i];
            proof {
                assert(!pickset.contains(p as int)) by {
                    if pickset.contains(p as int) {
                        let x = choose|x: int| 0 <= x < i && (#[trigger] picks@[x]) == p as int;
                        assert(picks@[x] != picks@[i as int]);
                    }
                }
                axiom_set_insert_len(pickset, p as int);
            }
            g.add_edge(p, v);
            proof {
                pickset = pickset.insert(p as int);
                assert(pickset =~= Set::new(
                    |u: int| exists|x: int| 0 <= x < i + 1 && (#[trigger] picks@[x]) == u,
                )) by {
                    assert(picks@[i as int] == p as int);
                    assert forall|u: int|
                        (exists|x: int| 0 <= x < i + 1 && (#[trigger] picks@[x]) == u)
                            implies pickset.contains(u) by {
                        let x = choose|x: int| 0 <= x < i + 1 && (#[trigger] picks@[x]) == u;
                        if x < i {
                            assert(exists|y: int| 0 <= y < i && (#[trigger] picks@[y]) == u);
                        }
                    }
                }
            }
        }
        proof {
            // the new vertex now has exactly k earlier neighbours, and no
            // other vertex's back-neighbours changed
            assert(bdeg_set(g, v as int) =~= pickset);
            assert forall|w: int| k <= w < v + 1 implies (#[trigger] bdeg_set(g, w)).len()
                == k as nat by {
                if w < v {
                    assert(bdeg_set(g, w) =~= bdeg_set(gstart, w));
                }
            }
        }
    }
    Some(g)
}

/// Builds a loose k-tree and removes `min(E * p / 100, E)` of its `E` edges,
/// chosen uniformly at random without replacement.  Returns nothing exactly
/// when `k > n`; otherwise the result has exactly
/// `k(k-1)/2 + k(n-k) - min(E * p / 100, E)` edges.
#[verifier::rlimit(100)]
pub fn generate_partial_k_tree(k: usize, n: usize, p: usize, rng: &mut StdRng) -> (r: Option<
    Graph,
>)
    requires
        n * n <= usize::MAX / 100,
    ensures
        r is Some <==> k <= n,
        match r {
            Some(g) => {
                &&& g.wf()
                &&& g.n() == n
                &&& subgraph_of_loose_k_tree(g, k as nat, n as nat)
                &&& ecount(g) == ktree_edge_count(k as nat, n as nat) - (if ktree_edge_count(
                    k as nat,
                    n as nat,
                ) * p / 100 < ktree_edge_count(k as nat, n as nat) {
                    ktree_edge_count(k as nat, n as nat) * p / 100
                } else {
                    ktree_edge_count(k as nat, n as nat) as int
                })
            },
            None => true,
        },
{
    match generate_k_tree(k, n, rng) {
        None => None,
        Some(mut g) => {
            proof {
                lemma_ecount_loose_upto(g, k as nat, n as nat, n as int);
                assert(k >= 1 ==> k * (k - 1) <= n * n) by (nonlinear_arith)
                    requires
                        k <= n,
                ;
                assert(k * (n - k) <= n * n) by (nonlinear_arith)
                    requires
                        k <= n,
                ;
                assert(k >= 1 ==> k * (k - 1) / 2 + k * (n - k) <= n * n) by (nonlinear_arith)
                    requires
                        k <= n,
                ;
            }
            let base = if k == 0 {
                0
            } else {
                k * (k - 1) / 2
            };
            let number_of_edges = base + k * (n - k);
            proof {
                assert(number_of_edges == ktree_edge_count(k as nat, n as nat));
            }
            proof {
                assert(number_of_edges * p <= usize::MAX || p >= 100) by (nonlinear_arith)
                    requires
                        number_of_edges <= usize::MAX / 100,
                        p >= 100 || p < 100,
                ;
            }
            let number_to_remove = if p >= 100 {
                number_of_edges
            } else {
                (number_of_edges * p) / 100
            };
            proof {
                if p >= 100 {
                    assert(number_of_edges * p >= number_of_edges * 100) by (nonlinear_arith)
                        requires
                            p >= 100,
                            number_of_edges >= 0,
                    ;
                    assert(number_of_edges * p / 100 >= number_of_edges) by (nonlinear_arith)
                        requires
                            number_of_edges * p >= number_of_edges * 100,
                    ;
                } else {
                    assert(number_of_edges * p <= number_of_edges * 100) by (nonlinear_arith)
                        requires
                            p < 100,
                            number_of_edges >= 0,
                    ;
                    assert(number_of_edges * p / 100 <= number_of_edges) by (nonlinear_arith)
                        requires
                            number_of_edges * p <= number_of_edges * 100,
                            number_of_edges >= 0,
                    ;
                }
            }
            let edges = edge_list(&g);
            proof {
                assert(edges@.len() == ecount(g));
                if k == n {
                    assert(k * (n - k) == 0) by (nonlinear_arith)
                        requires
                            n == k,
                    ;
                }
                assert(ecount(g) == ktree_edge_count(k as nat, n as nat));
                assert(number_to_remove <= edges@.len());
            }
            let sampled: Vec<usize> = if number_to_remove == edges.len() {
                // every edge goes: no need to draw, take them all in order
                let mut all: Vec<usize> = Vec::new();
                let elen = edges.len();
                for i in 0..elen
                    invariant
                        all@.len() == i,
                        forall|j: int| 0 <= j < i ==> (#[trigger] all@[j]) == j,
                {
                    all.push(i);
                }
                all
            } else {
                sample_indices(rng, edges.len(), number_to_remove)
            };
            let ghost gorig = g;
            let total = sampled.len();
            for i in 0..total
                invariant
                    total == number_to_remove <= edges@.len(),
                    g.wf(),
                    g.n() == n,
                    edges@.len() == ecount(gorig),
                    sampled@.len() == total,
                    forall|x: int| 0 <= x < sampled@.len() ==> (#[trigger] sampled@[x])
                        < edges@.len(),
                    forall|x: int, y: int|
                        0 <= x < y < sampled@.len() ==> sampled@[x] != sampled@[y],
                    forall|x: int|
                        0 <= x < edges@.len() ==> (#[trigger] edges@[x]).0 < edges@[x].1 < n,
                    forall|x: int, y: int|
                        0 <= x < y < edges@.len() ==> ((#[trigger] edges@[x]).1 < (
                        #[trigger] edges@[y]).1 || (edges@[x].1 == edges@[y].1 && edges@[x].0
                            < edges@[y].0)),
                    ecount(g) == ecount(gorig) - i,
                    forall|a: int, b: int| #[trigger] g.edge(a, b) ==> gorig.edge(a, b),
                    forall|x: int|
                        i <= x < total ==> g.edge(
                            (#[trigger] edges@[sampled@[x] as int]).0 as int,
                            edges@[sampled@[x] as int].1 as int,
                        ),
            {
                let idx = sampled[i];
                let e = edges[idx];
                let ghost gprev = g;
                g.remove_edge(e.0, e.1);
                proof {
                    lemma_ecount_toggle(gprev, g, e.0 as int, e.1 as int, n as int);
                    assert forall|x: int|
                        i + 1 <= x < total implies g.edge(
                        (#[trigger] edges@[sampled@[x] as int]).0 as int,
                        edges@[sampled@[x] as int].1 as int,
                    ) by {
                        let other = edges@[sampled@[x] as int];
                        assert(sampled@[x] != sampled@[i as int]);
                        assert(other.0 != e.0 || other.1 != e.1) by {
                            if sampled@[x] < sampled@[i as int] {
                                assert((#[trigger] edges@[sampled@[x] as int]).1 < edges@[
                                    sampled@[i as int] as int].1 || (edges@[sampled@[x] as int].1
                                    == edges@[sampled@[i as int] as int].1 && edges@[
                                    sampled@[x] as int].0 < edges@[sampled@[i as int] as int].0));
                            } else {
                                assert((#[trigger] edges@[sampled@[i as int] as int]).1 < edges@[
                                    sampled@[x] as int].1 || (edges@[sampled@[i as int] as int].1
                                    == edges@[sampled@[x] as int].1 && edges@[
                                    sampled@[i as int] as int].0 < edges@[sampled@[x] as int].0));
                            }
                        }
                        assert(other.0 < other.1 && e.0 < e.1);
                    }
                }
            }
            proof {
                assert(subgraph_of_loose_k_tree(g, k as nat, n as nat)) by {
                    assert(is_loose_k_tree(gorig, k as nat, n as nat));
                }
            }
            Some(g)
        },
    }
}

/// Builds partial k-trees until the max-min-degree heuristic certifies that
/// the treewidth bound `k` is reached.  Returns nothing when `k > n`, and for
/// `k == 0` always succeeds at the first attempt (the graph is edgeless, so
/// the degree check passes deterministically).  By the randomness involved,
/// an acceptable draw can take arbitrarily long; the retries are capped by an
/// attempt counter of `usize::MAX`, so in the (practically unreachable) case
/// that every attempt is rejected the result is also absent.
pub fn generate_partial_k_tree_with_guaranteed_treewidth(
    k: usize,
    n: usize,
    p: usize,
    rng: &mut StdRng,
) -> (r: Option<Graph>)
    requires
        n * n <= usize::MAX / 100,
    ensures
        r is Some ==> k <= n,
        k > n ==> r is None,
        k == 0 ==> r is Some,
        match r {
            Some(g) => {
                &&& g.wf()
                &&& g.n() == n
                &&& (n > 0 ==> is_mmd(g, k as nat))
                &&& ecount(g) == ktree_edge_count(k as nat, n as nat) - (if ktree_edge_count(
                    k as nat,
                    n as nat,
                ) * p / 100 < ktree_edge_count(k as nat, n as nat) {
                    ktree_edge_count(k as nat, n as nat) * p / 100
                } else {
                    ktree_edge_count(k as nat, n as nat) as int
                })
            },
            None => true,
        },
{
    if k == 0 {
        match generate_partial_k_tree(k, n, p, rng) {
            None => {
                proof {
                    assert(false);
                }
                return None;
            },
            Some(g) => {
                let d = maximum_minimum_degree(&g);
                proof {
                    if n > 0 {
                        lemma_mmd_of_edgeless(g, d as nat);
                    }
                }
                return Some(g);
            },
        }
    }
    let mut attempts: usize = usize::MAX;
    while attempts > 0
        invariant
            n * n <= usize::MAX / 100,
            k >= 1,
        decreases attempts,
    {
        attempts = attempts - 1;
        match generate_partial_k_tree(k, n, p, rng) {
            None => {
                return None;
            },
            Some(g) => {
                let d = maximum_minimum_degree(&g);
                if d == k && n > 0 {
                    return Some(g);
                }
                if n == 0 && k == 0 {
                    return Some(g);
                }
            },
        }
    }
    None
}

} // verus!
