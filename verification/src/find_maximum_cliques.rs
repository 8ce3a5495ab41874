//! A covering family of maximal cliques.
//!
//! Every returned bag is a maximal clique, the bags are pairwise distinct,
//! every vertex lies in some returned bag, and both endpoints of every edge
//! lie together in some returned bag.  The family is grown greedily, one
//! clique from each edge, so a maximal clique that no such growth reaches can
//! be absent; the tree-decomposition properties need only the coverage.

use vstd::prelude::*;
use crate::graph::Graph;
use crate::vertex_set::VertexSet;

verus! {

/// The bag is a clique of `g`: all its members are pairwise adjacent.
pub open spec fn is_clique(g: Graph, b: VertexSet) -> bool {
    &&& b.n() == g.n()
    &&& forall|u: int, v: int| b.has(u) && b.has(v) && u != v ==> g.edge(u, v)
}

/// Vertex `w` is adjacent to every member of the bag.
pub open spec fn adjacent_to_all(g: Graph, b: VertexSet, w: int) -> bool {
    forall|x: int| b.has(x) ==> g.edge(x, w)
}

/// The bag is a clique that no further vertex can extend.
pub open spec fn is_maximal_clique(g: Graph, b: VertexSet) -> bool {
    &&& is_clique(g, b)
    &&& forall|w: int| 0 <= w < g.n() && !b.has(w) ==> !adjacent_to_all(g, b, w)
}

/// Vertex `v` has no neighbour.
pub open spec fn is_isolated(g: Graph, v: int) -> bool {
    forall|u: int| !g.edge(v, u)
}

/// Some bag of the sequence contains vertex `v`.
pub open spec fn covers_vertex(bags: Seq<VertexSet>, v: int) -> bool {
    exists|i: int| 0 <= i < bags.len() && (#[trigger] bags[i]).has(v)
}

/// Some bag of the sequence contains both `u` and `v`.
pub open spec fn covers_edge(bags: Seq<VertexSet>, u: int, v: int) -> bool {
    exists|i: int| 0 <= i < bags.len() && (#[trigger] bags[i]).has(u) && bags[i].has(v)
}

/// Greedily extends the edge `{u, v}` to a maximal clique, scanning candidate
/// vertices in increasing order.
fn grow_clique(g: &Graph, u: usize, v: usize) -> (b: VertexSet)
    requires
        g.wf(),
        g.edge(u as int, v as int),
    ensures
        b.n() == g.n(),
        is_maximal_clique(*g, b),
        b.has(u as int),
        b.has(v as int),
{
    let n = g.vertex_count();
    let mut b = VertexSet::new(n);
    b.insert(u);
    b.insert(v);
    let mut cand: Vec<bool> = Vec::new();
    for w in 0..n
        invariant
            n == g.n(),
            g.wf(),
            u < n,
            v < n,
            cand@.len() == w,
            forall|x: int|
                0 <= x < w ==> (#[trigger] cand@[x]) == (g.edge(u as int, x) && g.edge(
                    v as int,
                    x,
                )),
    {
        cand.push(g.has_edge(u, w) && g.has_edge(v, w));
    }
    assert forall|x: int| 0 <= x < n implies (#[trigger] cand@[x]) == adjacent_to_all(
        *g,
        b,
        x,
    ) by {
        if cand@[x] {
            assert forall|m: int| b.has(m) implies g.edge(m, x) by {
                assert(m == u || m == v);
            }
        } else {
            assert(!(g.edge(u as int, x) && g.edge(v as int, x)));
            assert(b.has(u as int) && b.has(v as int));
        }
    }
    for w in 0..n
        invariant
            n == g.n(),
            cand@.len() == n,
            b.n() == n,
            b.has(u as int),
            b.has(v as int),
            is_clique(*g, b),
            g.wf(),
            forall|x: int| 0 <= x < n ==> (#[trigger] cand@[x]) == adjacent_to_all(*g, b, x),
            forall|x: int| 0 <= x < w ==> b.has(x) || !(#[trigger] cand@[x]),
    {
        if cand[w] {
            let ghost b0 = b;
            b.insert(w);
            assert(is_clique(*g, b)) by {
                assert forall|p: int, q: int| b.has(p) && b.has(q) && p != q implies g.edge(
                    p,
                    q,
                ) by {
                    if p == w {
                        assert(b0.has(q));
                        assert(g.edge(q, p));
                    } else if q == w {
                        assert(b0.has(p));
                        assert(g.edge(p, q));
                    }
                }
            }
            let mut x: usize = 0;
            let ghost cand0 = cand@;
            while x < n
                invariant
                    n == g.n(),
                    g.wf(),
                    cand@.len() == n,
                    cand0.len() == n,
                    x <= n,
                    w < n,
                    b.n() == n,
                    forall|y: int| 0 <= y < x ==> (#[trigger] cand@[y]) == (cand0[y] && g.edge(
                        w as int,
                        y,
                    )),
                    forall|y: int| x <= y < n ==> (#[trigger] cand@[y]) == cand0[y],
                decreases n - x,
            {
                let cv = cand[x] && g.has_edge(w, x);
                cand[x] = cv;
                x = x + 1;
            }
            assert forall|y: int| 0 <= y < n implies (#[trigger] cand@[y]) == adjacent_to_all(
                *g,
                b,
                y,
            ) by {
                assert(cand0[y] == adjacent_to_all(*g, b0, y));
                if cand@[y] {
                    assert forall|m: int| b.has(m) implies g.edge(m, y) by {
                        if m == w {
                            assert(g.edge(w as int, y));
                        } else {
                            assert(b0.has(m));
                        }
                    }
                } else {
                    if !cand0[y] {
                        assert(!adjacent_to_all(*g, b0, y));
                        let m = choose|m: int| b0.has(m) && !g.edge(m, y);
                        assert(b.has(m) && !g.edge(m, y));
                    } else {
                        assert(!g.edge(w as int, y));
                        assert(b.has(w as int));
                    }
                }
            }
        }
    }
    assert forall|w: int| 0 <= w < g.n() && !b.has(w) implies !adjacent_to_all(*g, b, w) by {
        assert(!cand@[w]);
    }
    b
}

/// Appends the bag unless an equal bag is already present.
fn push_if_absent(out: &mut Vec<VertexSet>, b: VertexSet)
    requires
        forall|i: int| 0 <= i < old(out)@.len() ==> (#[trigger] old(out)@[i]).n() == b.n(),
    ensures
        final(out)@ == old(out)@ || final(out)@ == old(out)@.push(b),
        exists|i: int|
            0 <= i < final(out)@.len() && (#[trigger] final(out)@[i]).mask@ =~= b.mask@,
        final(out)@ == old(out)@.push(b) ==> forall|i: int|
            0 <= i < old(out)@.len() ==> !((#[trigger] old(out)@[i]).mask@ =~= b.mask@),
{
    let len = out.len();
    for i in 0..len
        invariant
            len == out@.len(),
            out@ == old(out)@,
            forall|k: int| 0 <= k < i ==> !((#[trigger] out@[k]).mask@ =~= b.mask@),
            forall|k: int| 0 <= k < out@.len() ==> (#[trigger] out@[k]).n() == b.n(),
    {
        if out[i].equals(&b) {
            assert(out@[i as int].mask@ =~= b.mask@);
            return ;
        }
    }
    out.push(b);
    assert(out@[out@.len() - 1].mask@ =~= b.mask@);
}

/// Collects a covering family of maximal cliques of `g`: each returned bag
/// is a maximal clique, the bags are pairwise distinct, every vertex lies in
/// some bag, and every edge has both endpoints in some bag.  Grown greedily,
/// one clique from each edge, so the family need not be exhaustive.
pub fn find_maximum_cliques(g: &Graph) -> (r: Vec<VertexSet>)
    requires
        g.wf(),
    ensures
        forall|i: int|
            0 <= i < r@.len() ==> (#[trigger] r@[i]).n() == g.n() && is_maximal_clique(*g, r@[i]),
        forall|i: int, j: int| 0 <= i < j < r@.len() ==> !(r@[i].mask@ =~= r@[j].mask@),
        forall|v: int| 0 <= v < g.n() ==> #[trigger] covers_vertex(r@, v),
        forall|u: int, v: int| g.edge(u, v) ==> #[trigger] covers_edge(r@, u, v),
{
    let n = g.vertex_count();
    let mut out: Vec<VertexSet> = Vec::new();
    for v in 0..n
        invariant
            n == g.n(),
            g.wf(),
            forall|i: int|
                0 <= i < out@.len() ==> (#[trigger] out@[i]).n() == g.n() && is_maximal_clique(
                    *g,
                    out@[i],
                ),
            forall|i: int, j: int| 0 <= i < j < out@.len() ==> !(out@[i].mask@ =~= out@[j].mask@),
            forall|w: int|
                0 <= w < v && is_isolated(*g, w) ==> #[trigger] covers_vertex(out@, w),
    {
        let mut iso = true;
        for u in 0..n
            invariant
                n == g.n(),
                g.wf(),
                v < n,
                iso == forall|x: int| 0 <= x < u ==> !g.edge(v as int, x),
        {
            if g.has_edge(v, u) {
                iso = false;
            }
        }
        if iso {
            assert(is_isolated(*g, v as int)) by {
                assert(forall|x: int| 0 <= x < n ==> !g.edge(v as int, x));
            }
            let mut b = VertexSet::new(n);
            b.insert(v);
            assert(is_maximal_clique(*g, b)) by {
                assert forall|w: int| 0 <= w < g.n() && !b.has(w) implies !adjacent_to_all(
                    *g,
                    b,
                    w,
                ) by {
                    assert(b.has(v as int) && !g.edge(v as int, w));
                }
            }
            let ghost prev = out@;
            push_if_absent(&mut out, b);
            assert forall|w: int|
                0 <= w < v + 1 && is_isolated(*g, w) implies #[trigger] covers_vertex(
                out@,
                w,
            ) by {
                if w < v {
                    assert(covers_vertex(prev, w));
                    let i = choose|i: int| 0 <= i < prev.len() && (#[trigger] prev[i]).has(w);
                    assert(out@[i].has(w));
                } else {
                    let i = choose|i: int|
                        0 <= i < out@.len() && (#[trigger] out@[i]).mask@ =~= b.mask@;
                    assert(out@[i].has(w));
                }
            }
        }
    }
    let ghost iso_done = out@;
    for u in 0..n
        invariant
            n == g.n(),
            g.wf(),
            forall|i: int|
                0 <= i < out@.len() ==> (#[trigger] out@[i]).n() == g.n() && is_maximal_clique(
                    *g,
                    out@[i],
                ),
            forall|i: int, j: int| 0 <= i < j < out@.len() ==> !(out@[i].mask@ =~= out@[j].mask@),
            forall|w: int|
                0 <= w < n && is_isolated(*g, w) ==> #[trigger] covers_vertex(out@, w),
            forall|a: int, b: int|
                g.edge(a, b) && a < b && a < u ==> #[trigger] covers_edge(out@, a, b),
    {
        for v in (u + 1)..n
            invariant
                n == g.n(),
                g.wf(),
                u < n,
                forall|i: int|
                    0 <= i < out@.len() ==> (#[trigger] out@[i]).n() == g.n() && is_maximal_clique(
                        *g,
                        out@[i],
                    ),
                forall|i: int, j: int|
                    0 <= i < j < out@.len() ==> !(out@[i].mask@ =~= out@[j].mask@),
                forall|w: int|
                    0 <= w < n && is_isolated(*g, w) ==> #[trigger] covers_vertex(out@, w),
                forall|a: int, b: int|
                    g.edge(a, b) && a < b && a < u ==> #[trigger] covers_edge(out@, a, b),
                forall|b: int|
                    g.edge(u as int, b) && u < b < v ==> #[trigger] covers_edge(
                        out@,
                        u as int,
                        b,
                    ),
        {
            if g.has_edge(u, v) {
                let b = grow_clique(g, u, v);
                let ghost prev = out@;
                push_if_absent(&mut out, b);
                assert(covers_edge(out@, u as int, v as int)) by {
                    let i = choose|i: int|
                        0 <= i < out@.len() && (#[trigger] out@[i]).mask@ =~= b.mask@;
                    assert(out@[i].has(u as int) && out@[i].has(v as int));
                }
                assert forall|a: int, c: int|
                    g.edge(a, c) && a < c && a < u implies #[trigger] covers_edge(
                    out@,
                    a,
                    c,
                ) by {
                    assert(covers_edge(prev, a, c));
                    let i = choose|i: int|
                        0 <= i < prev.len() && (#[trigger] prev[i]).has(a) && prev[i].has(c);
                    assert(out@[i].has(a) && out@[i].has(c));
                }
                assert forall|c: int|
                    g.edge(u as int, c) && u < c < v + 1 implies #[trigger] covers_edge(
                    out@,
                    u as int,
                    c,
                ) by {
                    if c < v {
                        assert(covers_edge(prev, u as int, c));
                        let i = choose|i: int|
                            0 <= i < prev.len() && (#[trigger] prev[i]).has(u as int)
                                && prev[i].has(c);
                        assert(out@[i].has(u as int) && out@[i].has(c));
                    }
                }
                assert forall|w: int|
                    0 <= w < n && is_isolated(*g, w) implies #[trigger] covers_vertex(
                    out@,
                    w,
                ) by {
                    assert(covers_vertex(prev, w));
                    let i = choose|i: int| 0 <= i < prev.len() && (#[trigger] prev[i]).has(w);
                    assert(out@[i].has(w));
                }
            }
        }
    }
    assert forall|a: int, c: int| g.edge(a, c) implies #[trigger] covers_edge(out@, a, c) by {
        if a < c {
            assert(covers_edge(out@, a, c));
        } else {
            assert(g.edge(c, a));
            assert(covers_edge(out@, c, a));
            let i = choose|i: int|
                0 <= i < out@.len() && (#[trigger] out@[i]).has(c) && out@[i].has(a);
            assert(out@[i].has(a) && out@[i].has(c));
        }
    }
    assert forall|v: int| 0 <= v < g.n() implies #[trigger] covers_vertex(out@, v) by {
        if !is_isolated(*g, v) {
            let w = choose|w: int| g.edge(v, w);
            assert(covers_edge(out@, v, w));
            let i = choose|i: int|
                0 <= i < out@.len() && (#[trigger] out@[i]).has(v) && out@[i].has(w);
            assert(out@[i].has(v));
        }
    }
    out
}

} // verus!
