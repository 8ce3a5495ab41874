//! The maximum-minimum-degree heuristic, a treewidth lower-bound proxy.
//!
//! Repeatedly remove a vertex of minimum degree from the graph, recording its
//! degree; the answer is the largest degree recorded.  This equals the
//! maximum over all subgraphs of their minimum degree.

use vstd::prelude::*;
use vstd::set_lib::{lemma_len_subset, lemma_set_subset_finite, set_int_range, lemma_int_range};
use vstd::set::{axiom_set_insert_len, axiom_set_remove_len};
use crate::graph::Graph;

verus! {

/// The neighbours of `v` within the subgraph spanned by `h`.
pub open spec fn nbrs_in(g: Graph, h: Set<int>, v: int) -> Set<int> {
    h.intersect(Set::new(|u: int| g.edge(u, v)))
}

/// The degree of `v` within the subgraph spanned by `h`.
pub open spec fn deg_in(g: Graph, h: Set<int>, v: int) -> nat {
    nbrs_in(g, h, v).len()
}

/// `d` is the minimum degree of the (non-empty) subgraph spanned by `h`.
pub open spec fn is_min_deg(g: Graph, h: Set<int>, d: nat) -> bool {
    &&& exists|v: int| h.contains(v) && #[trigger] deg_in(g, h, v) == d
    &&& forall|v: int| h.contains(v) ==> #[trigger] deg_in(g, h, v) >= d
}

/// `d` is the maximum over all non-empty subgraphs of their minimum degree.
pub open spec fn is_mmd(g: Graph, d: nat) -> bool {
    &&& exists|h: Set<int>|
        h.subset_of(set_int_range(0, g.n() as int)) && #[trigger] is_min_deg(g, h, d)
    &&& forall|h: Set<int>, e: nat|
        h.subset_of(set_int_range(0, g.n() as int)) && #[trigger] is_min_deg(g, h, e) ==> e <= d
}

/// Two maximum-minimum-degree values of one graph are equal.
pub proof fn lemma_mmd_unique(g: Graph, a: nat, b: nat)
    requires
        is_mmd(g, a),
        is_mmd(g, b),
    ensures
        a == b,
{
    let ha = choose|h: Set<int>|
        h.subset_of(set_int_range(0, g.n() as int)) && #[trigger] is_min_deg(g, h, a);
    let hb = choose|h: Set<int>|
        h.subset_of(set_int_range(0, g.n() as int)) && #[trigger] is_min_deg(g, h, b);
    assert(a <= b);
    assert(b <= a);
}

/// Degrees only grow with the subgraph.
proof fn lemma_deg_monotone(g: Graph, h1: Set<int>, h2: Set<int>, v: int)
    requires
        h1.subset_of(h2),
        h2.finite(),
    ensures
        deg_in(g, h1, v) <= deg_in(g, h2, v),
{
    assert(nbrs_in(g, h1, v).subset_of(nbrs_in(g, h2, v)));
    assert(nbrs_in(g, h2, v).subset_of(h2));
    lemma_len_subset(nbrs_in(g, h2, v), h2);
    lemma_len_subset(nbrs_in(g, h1, v), nbrs_in(g, h2, v));
}

/// A finite non-empty set of integers has a maximum element.
pub proof fn lemma_set_max(h: Set<int>)
    requires
        h.finite(),
        h.len() > 0,
    ensures
        exists|v: int|
            h.contains(v) && (forall|u: int| h.contains(u) ==> u <= v),
    decreases h.len(),
{
    let x = h.choose();
    assert(h.contains(x));
    let rest = h.remove(x);
    axiom_set_remove_len(h, x);
    if rest.len() == 0 {
        assert forall|u: int| h.contains(u) implies u <= x by {
            if u != x {
                assert(rest.contains(u));
                rest.lemma_len0_is_empty();
            }
        }
        assert(h.contains(x) && (forall|u: int| h.contains(u) ==> u <= x));
    } else {
        lemma_set_max(rest);
        let w = choose|v: int|
            rest.contains(v) && (forall|u: int| rest.contains(u) ==> u <= v);
        if x <= w {
            assert(h.contains(w) && (forall|u: int| h.contains(u) ==> u <= w)) by {
                assert forall|u: int| h.contains(u) implies u <= w by {
                    if u != x {
                        assert(rest.contains(u));
                    }
                }
            }
        } else {
            assert(h.contains(x) && (forall|u: int| h.contains(u) ==> u <= x)) by {
                assert forall|u: int| h.contains(u) implies u <= x by {
                    if u != x {
                        assert(rest.contains(u));
                    }
                }
            }
        }
    }
}

/// The set of live vertices of a mask.
pub open spec fn alive_set(s: Seq<bool>) -> Set<int> {
    Set::new(|i: int| 0 <= i < s.len() && s[i])
}

/// The degree of `v` among the live vertices.
fn degree_among(g: &Graph, alive: &Vec<bool>, v: usize) -> (r: usize)
    requires
        g.wf(),
        alive@.len() == g.n(),
        v < g.n(),
    ensures
        r == deg_in(*g, alive_set(alive@), v as int),
{
    let n = alive.len();
    let mut c: usize = 0;
    let ghost mut seen: Set<int> = Set::empty();
    for u in 0..n
        invariant
            n == g.n() == alive@.len(),
            g.wf(),
            v < n,
            seen =~= Set::new(|i: int| 0 <= i < u && alive@[i] && g.edge(i, v as int)),
            seen.finite(),
            c == seen.len(),
            c <= u,
    {
        if alive[u] && g.has_edge(u, v) {
            proof {
                assert(!seen.contains(u as int));
                axiom_set_insert_len(seen, u as int);
                seen = seen.insert(u as int);
            }
            c = c + 1;
        } else {
            proof {
                seen = Set::new(|i: int| 0 <= i < u + 1 && alive@[i] && g.edge(i, v as int));
                assert(seen =~= Set::new(
                    |i: int| 0 <= i < u && alive@[i] && g.edge(i, v as int),
                ));
            }
        }
        proof {
            assert(seen =~= Set::new(
                |i: int| 0 <= i < u + 1 && alive@[i] && g.edge(i, v as int),
            ));
        }
    }
    proof {
        assert(seen =~= nbrs_in(*g, alive_set(alive@), v as int));
    }
    c
}

/// Computes the maximum over all subgraphs of the minimum degree, by
/// repeatedly removing a vertex of minimum degree and recording its degree.
#[verifier::rlimit(100)]
pub fn maximum_minimum_degree(graph: &Graph) -> (r: usize)
    requires
        graph.wf(),
    ensures
        graph.n() == 0 ==> r == 0,
        graph.n() > 0 ==> is_mmd(*graph, r as nat),
{
    let n = graph.vertex_count();
    let mut alive: Vec<bool> = Vec::new();
    for i in 0..n
        invariant
            alive@.len() == i,
            forall|x: int| 0 <= x < i ==> (#[trigger] alive@[x]),
    {
        alive.push(true);
    }
    let ghost mut live: Set<int> = set_int_range(0, n as int);
    proof {
        lemma_int_range(0, n as int);
        assert(live =~= alive_set(alive@));
    }
    let mut best: usize = 0;
    // history of (live set, removed vertex, its recorded degree)
    let ghost mut hist: Seq<(Set<int>, int, nat)> = Seq::empty();
    for round in 0..n
        invariant
            n == graph.n(),
            graph.wf(),
            alive@.len() == n,
            live =~= alive_set(alive@),
            live.finite(),
            live.len() == n - round,
            hist.len() == round,
            round > 0 ==> best <= n && (exists|j: int|
                0 <= j < hist.len() && (#[trigger] hist[j]).2 == best as nat),
            round == 0 ==> best == 0,
            forall|j: int|
                0 <= j < hist.len() ==> {
                    let e = #[trigger] hist[j];
                    &&& e.0.finite()
                    &&& e.0.subset_of(set_int_range(0, n as int))
                    &&& e.0.contains(e.1)
                    &&& is_min_deg(*graph, e.0, e.2)
                    &&& deg_in(*graph, e.0, e.1) == e.2
                    &&& e.2 <= best as nat
                },
            forall|j: int|
                0 <= j < hist.len() - 1 ==> (#[trigger] hist[j]).0.remove(hist[j].1) == hist[
                    j + 1].0,
            hist.len() == 0 ==> live == set_int_range(0, n as int),
            hist.len() > 0 ==> hist[0].0 == set_int_range(0, n as int),
            hist.len() > 0 ==> hist[hist.len() - 1].0.remove(hist[hist.len() - 1].1) == live,
    {
        // find a live vertex of minimum degree
        let mut found = false;
        let mut best_v: usize = 0;
        let mut best_d: usize = 0;
        for v in 0..n
            invariant
                n == graph.n(),
                graph.wf(),
                alive@.len() == n,
                live =~= alive_set(alive@),
                live.finite(),
                found ==> best_v < n && alive@[best_v as int] && best_d == deg_in(
                    *graph,
                    live,
                    best_v as int,
                ),
                found ==> forall|u: int|
                    0 <= u < v && alive@[u] ==> #[trigger] deg_in(*graph, live, u) >= best_d,
                !found ==> forall|u: int| 0 <= u < v ==> !(#[trigger] alive@[u]),
        {
            if alive[v] {
                let d = degree_among(graph, &alive, v);
                if !found || d < best_d {
                    found = true;
                    best_v = v;
                    best_d = d;
                }
            }
        }
        if !found {
            proof {
                assert(live.len() > 0);
                let x = live.choose();
                assert(live.contains(x));
                assert(alive@[x]);
                assert(false);
            }
        }
        proof {
            assert(is_min_deg(*graph, live, best_d as nat)) by {
                assert(live.contains(best_v as int) && deg_in(*graph, live, best_v as int)
                    == best_d as nat);
                assert forall|u: int| live.contains(u) implies #[trigger] deg_in(
                    *graph,
                    live,
                    u,
                ) >= best_d as nat by {
                    assert(alive@[u]);
                }
            }
            // the degree of any vertex is below the number of live vertices
            lemma_deg_monotone(*graph, live, live, best_v as int);
            assert(nbrs_in(*graph, live, best_v as int).subset_of(live));
            lemma_len_subset(nbrs_in(*graph, live, best_v as int), live);
            assert(best_d <= n);
        }
        let ghost live0 = live;
        let ghost old_best = best;
        let ghost old_hist = hist;
        proof {
            hist = hist.push((live, best_v as int, best_d as nat));
            axiom_set_remove_len(live, best_v as int);
            live = live.remove(best_v as int);
        }
        alive[best_v] = false;
        proof {
            assert(live =~= alive_set(alive@));
        }
        if best_d > best {
            best = best_d;
        }
        proof {
            assert(hist[hist.len() - 1].0 == live0);
            if hist.len() > 1 {
                assert(hist[0] == old_hist_at(hist, 0));
            }
            if best_d > old_best {
            } else if hist.len() == 1 {
                assert(best_d == 0 && best == 0);
                assert(hist[0].2 == best as nat);
            } else {
                let jw = choose|j: int|
                    0 <= j < old_hist.len() && (#[trigger] old_hist[j]).2 == best as nat;
                assert(hist[jw] == old_hist[jw]);
                assert(hist[jw].2 == best as nat);
            }
            assert forall|j: int| 0 <= j < hist.len() implies {
                let e = #[trigger] hist[j];
                &&& e.0.finite()
                &&& e.0.subset_of(set_int_range(0, n as int))
                &&& e.0.contains(e.1)
                &&& is_min_deg(*graph, e.0, e.2)
                &&& deg_in(*graph, e.0, e.1) == e.2
                &&& e.2 <= best as nat
            } by {
                if j < hist.len() - 1 {
                    assert(hist[j] == old_hist_at(hist, j));
                }
            }
        }
    }
    if n == 0 {
        return 0;
    }
    proof {
        // the maximum recorded degree is attained by its live set
        let j = choose|j: int| 0 <= j < hist.len() && (#[trigger] hist[j]).2 == best as nat;
        assert(hist[j].0.subset_of(set_int_range(0, n as int)) && is_min_deg(
            *graph,
            hist[j].0,
            best as nat,
        ));
        // and no subgraph does better
        assert forall|h: Set<int>, e: nat|
            h.subset_of(set_int_range(0, graph.n() as int)) && #[trigger] is_min_deg(
                *graph,
                h,
                e,
            ) implies e <= best as nat by {
            lemma_int_range(0, n as int);
            lemma_set_subset_finite(set_int_range(0, n as int), h);
            assert(live.len() == 0);
            lemma_history_bound(*graph, hist, live, h, e, best as nat, 0);
        }
        assert(is_mmd(*graph, best as nat));
    }
    best
}

/// Identity helper naming a history entry.
pub open spec fn old_hist_at(hist: Seq<(Set<int>, int, nat)>, j: int) -> (Set<int>, int, nat) {
    hist[j]
}

/// Any non-empty subgraph of the vertices still live at step `i` has minimum
/// degree at most the largest degree recorded by the removal process.
proof fn lemma_history_bound(
    g: Graph,
    hist: Seq<(Set<int>, int, nat)>,
    live_end: Set<int>,
    h: Set<int>,
    e: nat,
    best: nat,
    i: int,
)
    requires
        0 <= i <= hist.len(),
        h.finite(),
        is_min_deg(g, h, e),
        i < hist.len() ==> h.subset_of(hist[i].0),
        i == hist.len() ==> h.subset_of(live_end),
        live_end.len() == 0,
        live_end.finite(),
        forall|j: int|
            0 <= j < hist.len() ==> {
                let en = #[trigger] hist[j];
                &&& en.0.finite()
                &&& en.0.contains(en.1)
                &&& deg_in(g, en.0, en.1) == en.2
                &&& en.2 <= best
            },
        forall|j: int|
            0 <= j < hist.len() - 1 ==> (#[trigger] hist[j]).0.remove(hist[j].1) == hist[j + 1].0,
        hist.len() > 0 ==> hist[hist.len() - 1].0.remove(hist[hist.len() - 1].1) == live_end,
    ensures
        e <= best,
    decreases hist.len() - i,
{
    let v0 = choose|v: int| h.contains(v) && #[trigger] deg_in(g, h, v) == e;
    if i == hist.len() {
        assert(live_end.contains(v0)) by {
            assert(h.contains(v0));
        }
        axiom_set_remove_len(live_end, v0);
        assert(false);
    } else {
        let en = hist[i];
        if h.contains(en.1) {
            assert(e <= deg_in(g, h, en.1));
            lemma_deg_monotone(g, h, en.0, en.1);
            assert(deg_in(g, h, en.1) <= deg_in(g, en.0, en.1));
        } else {
            assert(h.subset_of(if i + 1 < hist.len() {
                hist[i + 1].0
            } else {
                live_end
            })) by {
                assert forall|u: int| h.contains(u) implies hist[i].0.remove(
                    hist[i].1,
                ).contains(u) by {
                    assert(hist[i].0.contains(u));
                    assert(u != en.1);
                }
            }
            lemma_history_bound(g, hist, live_end, h, e, best, i + 1);
        }
    }
}

} // verus!
