//! Spanning forest of the clique graph.
//!
//! Edges are taken in increasing weight order (ties broken by endpoints, so
//! the result is deterministic for a given input), and an edge is kept exactly
//! when it joins two components that are not yet connected.  The result is a
//! forest of clique-graph edges that preserves the connectivity of the clique
//! graph: any two nodes joined by a clique-graph edge are connected in it.

use vstd::prelude::*;
use crate::vertex_set::{popcount, lemma_popcount_unset, lemma_popcount_set};

verus! {

/// Some edge of the sequence joins `a` and `b`, in either orientation.
pub open spec fn linked(es: Seq<(usize, usize, i64)>, a: usize, b: usize) -> bool {
    exists|k: int|
        0 <= k < es.len() && (((#[trigger] es[k]).0 == a && es[k].1 == b) || (es[k].0 == b
            && es[k].1 == a))
}

/// The sequence of nodes is a walk along edges of `es`.
pub open spec fn is_path(es: Seq<(usize, usize, i64)>, p: Seq<usize>) -> bool {
    &&& p.len() >= 1
    &&& forall|k: int| 0 <= k < p.len() - 1 ==> linked(es, #[trigger] p[k], p[k + 1])
}

/// Nodes `a` and `b` are joined by a walk along edges of `es`.
pub open spec fn connected(es: Seq<(usize, usize, i64)>, a: usize, b: usize) -> bool {
    exists|p: Seq<usize>| #[trigger] is_path(es, p) && p.first() == a && p.last() == b
}

/// Every node is connected to itself.
pub proof fn lemma_connected_refl(es: Seq<(usize, usize, i64)>, a: usize)
    ensures
        connected(es, a, a),
{
    let p = seq![a];
    assert(is_path(es, p));
}

/// An edge connects its endpoints.
pub proof fn lemma_connected_step(es: Seq<(usize, usize, i64)>, a: usize, b: usize)
    requires
        linked(es, a, b),
    ensures
        connected(es, a, b),
{
    let p = seq![a, b];
    assert forall|k: int| 0 <= k < p.len() - 1 implies #[trigger] linked(es, p[k], p[k + 1]) by {
        assert(k == 0);
        assert(p[0] == a && p[1] == b);
    }
    assert(is_path(es, p));
}

/// Connectivity is transitive.
pub proof fn lemma_connected_trans(es: Seq<(usize, usize, i64)>, a: usize, b: usize, c: usize)
    requires
        connected(es, a, b),
        connected(es, b, c),
    ensures
        connected(es, a, c),
{
    let p1 = choose|p: Seq<usize>| #[trigger] is_path(es, p) && p.first() == a && p.last() == b;
    let p2 = choose|p: Seq<usize>| #[trigger] is_path(es, p) && p.first() == b && p.last() == c;
    if p2.len() == 1 {
        assert(b == c);
    } else {
        let q = p1 + p2.drop_first();
        assert(q.len() == p1.len() + p2.len() - 1);
        assert forall|k: int| 0 <= k < q.len() - 1 implies #[trigger] linked(
            es,
            q[k],
            q[k + 1],
        ) by {
            if k < p1.len() - 1 {
                assert(q[k] == p1[k] && q[k + 1] == p1[k + 1]);
                assert(linked(es, p1[k], p1[k + 1]));
            } else if k == p1.len() - 1 {
                assert(q[k] == p1[p1.len() - 1]);
                assert(q[k + 1] == p2[1]);
                assert(linked(es, p2[0], p2[1]));
                assert(p2[0] == b && p1[p1.len() - 1] == b);
            } else {
                let j = k - p1.len();
                assert(q[k] == p2[j + 1] && q[k + 1] == p2[j + 2]);
                assert(linked(es, p2[j + 1], p2[j + 2]));
            }
        }
        assert(is_path(es, q));
        assert(q.first() == a && q.last() == c);
    }
}

/// Connectivity is preserved when an edge is appended.
pub proof fn lemma_connected_push(
    es: Seq<(usize, usize, i64)>,
    e: (usize, usize, i64),
    a: usize,
    b: usize,
)
    requires
        connected(es, a, b),
    ensures
        connected(es.push(e), a, b),
{
    let p = choose|p: Seq<usize>| #[trigger] is_path(es, p) && p.first() == a && p.last() == b;
    assert forall|k: int| 0 <= k < p.len() - 1 implies #[trigger] linked(
        es.push(e),
        p[k],
        p[k + 1],
    ) by {
        assert(linked(es, p[k], p[k + 1]));
        let j = choose|j: int|
            0 <= j < es.len() && (((#[trigger] es[j]).0 == p[k] && es[j].1 == p[k + 1]) || (
            es[j].0 == p[k + 1] && es[j].1 == p[k]));
        assert(es.push(e)[j] == es[j]);
    }
    assert(is_path(es.push(e), p));
}

/// Along a walk whose edges all join nodes with equal labels, the endpoints
/// have equal labels.
proof fn lemma_path_label_equal(
    es: Seq<(usize, usize, i64)>,
    comp: Seq<usize>,
    p: Seq<usize>,
    m: nat,
)
    requires
        is_path(es, p),
        comp.len() == m,
        forall|k: int|
            0 <= k < es.len() ==> (#[trigger] es[k]).0 < m && es[k].1 < m && comp[es[k].0 as int]
                == comp[es[k].1 as int],
        p.first() < m,
    ensures
        p.last() < m,
        comp[p.first() as int] == comp[p.last() as int],
    decreases p.len(),
{
    if p.len() > 1 {
        assert(linked(es, p[0], p[1]));
        let k0 = choose|k: int|
            0 <= k < es.len() && (((#[trigger] es[k]).0 == p[0] && es[k].1 == p[1]) || (es[k].0
                == p[1] && es[k].1 == p[0]));
        assert(p[1] < m && comp[p[0] as int] == comp[p[1] as int]);
        let q = p.drop_first();
        assert(is_path(es, q)) by {
            assert forall|k: int| 0 <= k < q.len() - 1 implies linked(
                es,
                #[trigger] q[k],
                q[k + 1],
            ) by {
                assert(q[k] == p[k + 1] && q[k + 1] == p[(k + 1) + 1]);
                assert(linked(es, p[k + 1], p[(k + 1) + 1]));
            }
        }
        lemma_path_label_equal(es, comp, q, m);
    }
}

/// Whether edge `a` precedes edge `b` in the deterministic processing order:
/// by weight, then by endpoints.
fn key_less(a: (usize, usize, i64), b: (usize, usize, i64)) -> (r: bool)
    ensures
        r == (a.2 < b.2 || (a.2 == b.2 && (a.0 < b.0 || (a.0 == b.0 && a.1 < b.1)))),
{
    a.2 < b.2 || (a.2 == b.2 && (a.0 < b.0 || (a.0 == b.0 && a.1 < b.1)))
}

/// Extracts a spanning forest of the graph on `m` nodes with the given edges:
/// edges are taken in increasing weight order and kept exactly when they join
/// two nodes not yet connected.  Every input edge has its endpoints connected
/// in the returned forest.
pub fn minimum_spanning_forest(m: usize, edges: &Vec<(usize, usize, i64)>) -> (t: Vec<
    (usize, usize, i64),
>)
    requires
        forall|k: int|
            0 <= k < edges@.len() ==> (#[trigger] edges@[k]).0 < m && edges@[k].1 < m,
    ensures
        forall|k: int| 0 <= k < t@.len() ==> edges@.contains(#[trigger] t@[k]),
        forall|k: int|
            0 <= k < edges@.len() ==> connected(t@, (#[trigger] edges@[k]).0, edges@[k].1),
        t@.len() <= edges@.len(),
        // the result is a forest: every kept edge joined two nodes that the
        // earlier kept edges leave unconnected
        forall|k: int|
            0 <= k < t@.len() ==> !connected(t@.take(k), (#[trigger] t@[k]).0, t@[k].1),
{
    let ne = edges.len();
    let mut taken: Vec<bool> = Vec::new();
    for k in 0..ne
        invariant
            taken@.len() == k,
            forall|j: int| 0 <= j < k ==> !(#[trigger] taken@[j]),
    {
        taken.push(false);
    }
    proof {
        lemma_popcount_all_unset(taken@);
    }
    let mut comp: Vec<usize> = Vec::new();
    for v in 0..m
        invariant
            comp@.len() == v,
            forall|x: int| 0 <= x < v ==> (#[trigger] comp@[x]) == x,
    {
        comp.push(v);
    }
    let mut t: Vec<(usize, usize, i64)> = Vec::new();
    proof {
        assert forall|a: usize, b: usize|
            a < m && b < m && comp@[a as int] == comp@[b as int] implies connected(t@, a, b) by {
            assert(a == b);
            lemma_connected_refl(t@, a);
        }
    }
    for round in 0..ne
        invariant
            ne == edges@.len(),
            taken@.len() == ne,
            comp@.len() == m,
            forall|k: int|
                0 <= k < edges@.len() ==> (#[trigger] edges@[k]).0 < m && edges@[k].1 < m,
            popcount(taken@) == round,
            forall|x: int| 0 <= x < m ==> (#[trigger] comp@[x]) < m,
            forall|a: usize, b: usize|
                a < m && b < m && (#[trigger] comp@[a as int]) == (#[trigger] comp@[b as int])
                    ==> connected(t@, a, b),
            forall|k: int|
                0 <= k < ne && (#[trigger] taken@[k]) ==> connected(
                    t@,
                    edges@[k].0,
                    edges@[k].1,
                ),
            forall|k: int| 0 <= k < t@.len() ==> edges@.contains(#[trigger] t@[k]),
            forall|k: int|
                0 <= k < t@.len() ==> (#[trigger] t@[k]).0 < m && t@[k].1 < m && comp@[
                    t@[k].0 as int] == comp@[t@[k].1 as int],
            forall|k: int|
                0 <= k < t@.len() ==> !connected(t@.take(k), (#[trigger] t@[k]).0, t@[k].1),
            t@.len() <= round,
    {
        let mut best: usize = 0;
        let mut found = false;
        for k in 0..ne
            invariant
                ne == edges@.len(),
                taken@.len() == ne,
                found ==> best < ne && !taken@[best as int],
                !found ==> forall|j: int| 0 <= j < k ==> (#[trigger] taken@[j]),
        {
            if !taken[k] && (!found || key_less(edges[k], edges[best])) {
                best = k;
                found = true;
            }
        }
        if !found {
            proof {
                lemma_popcount_all_set(taken@);
            }
            assert(false);
        }
        proof {
            lemma_popcount_set(taken@, best as int);
        }
        taken[best] = true;
        let e = edges[best];
        let cu = comp[e.0];
        let cv = comp[e.1];
        if cu != cv {
            let ghost t0 = t@;
            let ghost comp0 = comp@;
            proof {
                // comp labels agree across every kept edge, so a walk between
                // differently labelled nodes cannot exist
                assert(!connected(t0, e.0, e.1)) by {
                    if connected(t0, e.0, e.1) {
                        let p = choose|p: Seq<usize>|
                            #[trigger] is_path(t0, p) && p.first() == e.0 && p.last() == e.1;
                        lemma_path_label_equal(t0, comp0, p, m as nat);
                        assert(false);
                    }
                }
            }
            t.push(e);
            assert(edges@.contains(t@[t@.len() - 1]));
            proof {
                assert forall|k: int|
                    0 <= k < t@.len() implies !connected(
                    t@.take(k),
                    (#[trigger] t@[k]).0,
                    t@[k].1,
                ) by {
                    assert(t@.take(k) =~= t0.take(k));
                    if k < t0.len() {
                        assert(t@[k] == t0[k]);
                    } else {
                        assert(t@.take(k) =~= t0);
                        assert(t@[k] == e);
                    }
                }
            }
            let mut x: usize = 0;
            while x < m
                invariant
                    comp@.len() == m,
                    x <= m,
                    comp0.len() == m,
                    forall|y: int| 0 <= y < x ==> (#[trigger] comp@[y]) == (if comp0[y] == cu {
                        cv
                    } else {
                        comp0[y]
                    }),
                    forall|y: int| x <= y < m ==> (#[trigger] comp@[y]) == comp0[y],
                decreases m - x,
            {
                if comp[x] == cu {
                    comp[x] = cv;
                }
                x = x + 1;
            }
            proof {
                // the two old classes are joined through the new edge; all
                // other connections carry over unchanged
                assert(linked(t@, e.0, e.1)) by {
                    assert(t@[t@.len() - 1] == e);
                }
                lemma_connected_step(t@, e.0, e.1);
                assert forall|a: usize, b: usize|
                    a < m && b < m && (#[trigger] comp@[a as int]) == (#[trigger] comp@[b as int])
                    implies connected(t@, a, b) by {
                    let ca = comp0[a as int];
                    let cb = comp0[b as int];
                    if ca == cb {
                        lemma_connected_push(t0, e, a, b);
                    } else if ca == cu && cb == cv {
                        assert(comp0[e.0 as int] == cu && comp0[e.1 as int] == cv);
                        assert(connected(t0, a, e.0));
                        assert(connected(t0, e.1, b));
                        lemma_connected_push(t0, e, a, e.0);
                        lemma_connected_push(t0, e, e.1, b);
                        lemma_connected_trans(t@, a, e.0, e.1);
                        lemma_connected_trans(t@, a, e.1, b);
                    } else if ca == cv && cb == cu {
                        assert(connected(t0, a, e.1));
                        assert(connected(t0, e.0, b));
                        lemma_connected_push(t0, e, a, e.1);
                        lemma_connected_push(t0, e, e.0, b);
                        lemma_connected_step(t@, e.1, e.0);
                        lemma_connected_trans(t@, a, e.1, e.0);
                        lemma_connected_trans(t@, a, e.0, b);
                    }
                }
                assert forall|k: int|
                    0 <= k < ne && (#[trigger] taken@[k]) implies connected(
                    t@,
                    edges@[k].0,
                    edges@[k].1,
                ) by {
                    if k == best {
                    } else {
                        lemma_connected_push(t0, e, edges@[k].0, edges@[k].1);
                    }
                }
            }
        } else {
            proof {
                assert(connected(t@, e.0, e.1));
            }
        }
    }
    proof {
        assert forall|k: int| 0 <= k < ne implies (#[trigger] taken@[k]) by {
            if !taken@[k] {
                lemma_popcount_unset(taken@, k);
            }
        }
        assert forall|k: int| 0 <= k < edges@.len() implies connected(
            t@,
            (#[trigger] edges@[k]).0,
            edges@[k].1,
        ) by {
            assert(taken@[k]);
        }
    }
    t
}

/// An all-set mask has a full popcount.
pub proof fn lemma_popcount_all_set(s: Seq<bool>)
    requires
        forall|i: int| 0 <= i < s.len() ==> (#[trigger] s[i]),
    ensures
        popcount(s) == s.len(),
    decreases s.len(),
{
    if s.len() > 0 {
        lemma_popcount_all_set(s.drop_last());
    }
}

/// An all-unset mask has popcount zero.
pub proof fn lemma_popcount_all_unset(s: Seq<bool>)
    requires
        forall|i: int| 0 <= i < s.len() ==> !(#[trigger] s[i]),
    ensures
        popcount(s) == 0,
    decreases s.len(),
{
    if s.len() > 0 {
        lemma_popcount_all_unset(s.drop_last());
    }
}

} // verus!
