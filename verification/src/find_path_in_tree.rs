//! Paths between two nodes of the spanning tree.

use vstd::prelude::*;
use crate::spanning_tree::{linked, is_path, connected, lemma_popcount_all_unset};
use crate::vertex_set::{popcount, lemma_popcount_set, lemma_popcount_unset};

verus! {

/// A set of nodes closed under the edges of `es` and containing the first
/// node of a walk contains its last node.
proof fn lemma_closed_under_edges(
    es: Seq<(usize, usize, i64)>,
    vis: Seq<bool>,
    p: Seq<usize>,
    m: usize,
)
    requires
        is_path(es, p),
        forall|k: int| 0 <= k < es.len() ==> (#[trigger] es[k]).0 < m && es[k].1 < m,
        vis.len() == m,
        p.first() < m,
        vis[p.first() as int],
        forall|a: usize, b: usize|
            a < m && b < m && vis[a as int] && linked(es, a, b) ==> vis[b as int],
    ensures
        p.last() < m && vis[p.last() as int],
    decreases p.len(),
{
    if p.len() > 1 {
        assert(linked(es, p[0], p[1]));
        assert(p[1] < m) by {
            let k = choose|k: int|
                0 <= k < es.len() && (((#[trigger] es[k]).0 == p[0] && es[k].1 == p[1]) || (
                es[k].0 == p[1] && es[k].1 == p[0]));
        }
        assert(vis[p[1] as int]);
        let q = p.drop_first();
        assert(is_path(es, q)) by {
            assert forall|k: int| 0 <= k < q.len() - 1 implies #[trigger] linked(
                es,
                q[k],
                q[k + 1],
            ) by {
                assert(q[k] == p[k + 1] && q[k + 1] == p[(k + 1) + 1]);
                assert(linked(es, p[k + 1], p[(k + 1) + 1]));
            }
        }
        lemma_closed_under_edges(es, vis, q, m);
    }
}

/// Finds a walk from `a` to `b` along the edges of the spanning tree, if the
/// two nodes are connected; `None` exactly when they are not.
#[verifier::rlimit(100)]
pub fn find_path_in_tree(m: usize, t_edges: &Vec<(usize, usize, i64)>, a: usize, b: usize) -> (r:
    Option<Vec<usize>>)
    requires
        a < m,
        b < m,
        forall|k: int|
            0 <= k < t_edges@.len() ==> (#[trigger] t_edges@[k]).0 < m && t_edges@[k].1 < m,
    ensures
        match r {
            Some(p) => {
                &&& p@.len() >= 1
                &&& p@[0] == a
                &&& p@[p@.len() - 1] == b
                &&& forall|k: int| 0 <= k < p@.len() ==> (#[trigger] p@[k]) < m
                &&& is_path(t_edges@, p@)
            },
            None => !connected(t_edges@, a, b),
        },
{
    let ne = t_edges.len();
    let mut visited: Vec<bool> = Vec::new();
    let mut parent: Vec<usize> = Vec::new();
    let mut order: Vec<usize> = Vec::new();
    for i in 0..m
        invariant
            visited@.len() == i,
            parent@.len() == i,
            order@.len() == i,
            forall|x: int| 0 <= x < i ==> !(#[trigger] visited@[x]),
    {
        visited.push(false);
        parent.push(0);
        order.push(0);
    }
    proof {
        lemma_popcount_all_unset(visited@);
        lemma_popcount_unset(visited@, a as int);
        lemma_popcount_set(visited@, a as int);
    }
    visited[a] = true;
    order[a] = 0;
    let mut cnt: usize = 1;
    let mut stack: Vec<usize> = Vec::new();
    stack.push(a);
    let ghost mut frontier: Set<usize> = Set::empty().insert(a);
    while stack.len() > 0
        invariant
            ne == t_edges@.len(),
            forall|k: int|
                0 <= k < t_edges@.len() ==> (#[trigger] t_edges@[k]).0 < m && t_edges@[k].1 < m,
            visited@.len() == m,
            parent@.len() == m,
            order@.len() == m,
            a < m,
            b < m,
            cnt == popcount(visited@),
            cnt <= m,
            visited@[a as int],
            order@[a as int] == 0,
            frontier.finite(),
            frontier.len() == stack@.len(),
            forall|s: int, t: int|
                0 <= s < t < stack@.len() ==> (#[trigger] stack@[s]) != (#[trigger] stack@[t]),
            forall|s: int| 0 <= s < stack@.len() ==> frontier.contains(#[trigger] stack@[s]),
            forall|x: usize|
                #[trigger] frontier.contains(x) ==> x < m && visited@[x as int],
            forall|x: int|
                0 <= x < m && (#[trigger] visited@[x]) ==> order@[x] < cnt,
            forall|x: usize|
                x < m && (#[trigger] visited@[x as int]) && x != a ==> parent@[x as int] < m
                    && visited@[parent@[x as int] as int] && linked(t_edges@, parent@[x as int], x)
                    && order@[parent@[x as int] as int] < order@[x as int],
            // every visited node off the frontier has all neighbours visited
            forall|x: usize, y: usize|
                x < m && y < m && (#[trigger] visited@[x as int]) && !frontier.contains(x)
                    && linked(t_edges@, x, y) ==> (#[trigger] visited@[y as int]),
        decreases m - popcount(visited@), stack@.len(),
    {
        let ghost cnt0 = cnt as int;
        let ghost stack0_len = stack@.len() as int;
        let ghost stack_pre = stack@;
        let cur = stack.pop().unwrap();
        proof {
            assert(frontier.contains(cur)) by {
                assert(frontier.contains(stack_pre[stack_pre.len() - 1]));
            }
            frontier = frontier.remove(cur);
            assert forall|s: int| 0 <= s < stack@.len() implies frontier.contains(
                #[trigger] stack@[s],
            ) by {
                assert(stack@[s] == stack_pre[s]);
                assert(stack_pre[s] != stack_pre[stack_pre.len() - 1]);
            }
        }
        for k in 0..ne
            invariant
                ne == t_edges@.len(),
                forall|kk: int|
                    0 <= kk < t_edges@.len() ==> (#[trigger] t_edges@[kk]).0 < m && t_edges@[
                        kk].1 < m,
                visited@.len() == m,
                parent@.len() == m,
                order@.len() == m,
                a < m,
                b < m,
                cur < m,
                visited@[cur as int],
                visited@[a as int],
                order@[a as int] == 0,
                cnt == popcount(visited@),
                cnt <= m,
                cnt >= cnt0,
                frontier.finite(),
                frontier.len() == stack@.len(),
                stack@.len() == stack0_len - 1 + (cnt - cnt0),
                forall|s: int, t: int|
                    0 <= s < t < stack@.len() ==> (#[trigger] stack@[s]) != (#[trigger] stack@[t]),
                forall|s: int| 0 <= s < stack@.len() ==> frontier.contains(#[trigger] stack@[s]),
                forall|x: usize|
                    #[trigger] frontier.contains(x) ==> x < m && visited@[x as int],
                forall|x: int|
                    0 <= x < m && (#[trigger] visited@[x]) ==> order@[x] < cnt,
                forall|x: usize|
                    x < m && (#[trigger] visited@[x as int]) && x != a ==> parent@[x as int] < m
                        && visited@[parent@[x as int] as int] && linked(
                        t_edges@,
                        parent@[x as int],
                        x,
                    ) && order@[parent@[x as int] as int] < order@[x as int],
                forall|x: usize, y: usize|
                    x < m && y < m && (#[trigger] visited@[x as int]) && !frontier.contains(x) && x
                        != cur && linked(t_edges@, x, y) ==> (#[trigger] visited@[y as int]),
                // the neighbours of the popped node seen so far are visited
                forall|y: usize|
                    y < m && (exists|kk: int|
                        0 <= kk < k && (((#[trigger] t_edges@[kk]).0 == cur && t_edges@[kk].1
                            == y) || (t_edges@[kk].0 == y && t_edges@[kk].1 == cur)))
                        ==> visited@[y as int],
        {
            let e = t_edges[k];
            let nb_opt: Option<usize> = if e.0 == cur {
                Some(e.1)
            } else if e.1 == cur {
                Some(e.0)
            } else {
                None
            };
            if let Some(nb) = nb_opt {
                if !visited[nb] {
                    proof {
                        lemma_popcount_unset(visited@, nb as int);
                        lemma_popcount_set(visited@, nb as int);
                        assert(nb != a);
                        assert(nb != cur);
                        assert(!frontier.contains(nb));
                    }
                    visited[nb] = true;
                    parent[nb] = cur;
                    order[nb] = cnt;
                    cnt = cnt + 1;
                    stack.push(nb);
                    proof {
                        assert forall|s: int, t: int|
                            0 <= s < t < stack@.len() implies (#[trigger] stack@[s]) != (
                        #[trigger] stack@[t]) by {
                            if t == stack@.len() - 1 {
                                assert(frontier.contains(stack@[s]));
                            }
                        }
                        frontier = frontier.insert(nb);
                        assert(linked(t_edges@, cur, nb)) by {
                            assert(0 <= k < t_edges@.len());
                            assert((t_edges@[k as int].0 == cur && t_edges@[k as int].1 == nb) || (
                            t_edges@[k as int].0 == nb && t_edges@[k as int].1 == cur));
                        }
                    }
                }
            }
        }
        proof {
            assert forall|x: usize, y: usize|
                x < m && y < m && (#[trigger] visited@[x as int]) && !frontier.contains(x)
                    && linked(t_edges@, x, y) implies (#[trigger] visited@[y as int]) by {
                if x == cur {
                    let kk = choose|kk: int|
                        0 <= kk < t_edges@.len() && (((#[trigger] t_edges@[kk]).0 == x && t_edges@[
                        kk].1 == y) || (t_edges@[kk].0 == y && t_edges@[kk].1 == x));
                    assert(exists|kk: int|
                        0 <= kk < ne && (((#[trigger] t_edges@[kk]).0 == cur && t_edges@[kk].1
                            == y) || (t_edges@[kk].0 == y && t_edges@[kk].1 == cur)));
                }
            }
        }
    }
    if !visited[b] {
        proof {
            assert forall|x: usize| #[trigger] frontier.contains(x) implies false by {
                assert(frontier.len() >= 1) by {
                    assert(frontier.remove(x).len() == frontier.len() - 1);
                }
            }
            assert forall|x: usize, y: usize|
                x < m && y < m && visited@[x as int] && linked(t_edges@, x, y) implies visited@[
                y as int] by {
                assert(!frontier.contains(x));
            }
            if connected(t_edges@, a, b) {
                let p = choose|p: Seq<usize>|
                    #[trigger] is_path(t_edges@, p) && p.first() == a && p.last() == b;
                lemma_closed_under_edges(t_edges@, visited@, p, m);
            }
        }
        return None;
    }
    // reconstruct the path backwards along parent links, then reverse it
    let mut rev: Vec<usize> = Vec::new();
    let mut cur = b;
    rev.push(b);
    while cur != a
        invariant
            visited@.len() == m,
            parent@.len() == m,
            order@.len() == m,
            a < m,
            b < m,
            cur < m,
            visited@[cur as int],
            visited@[a as int],
            order@[a as int] == 0,
            forall|x: usize|
                x < m && (#[trigger] visited@[x as int]) && x != a ==> parent@[x as int] < m
                    && visited@[parent@[x as int] as int] && linked(t_edges@, parent@[x as int], x)
                    && order@[parent@[x as int] as int] < order@[x as int],
            rev@.len() >= 1,
            rev@[0] == b,
            rev@[rev@.len() - 1] == cur,
            forall|k: int| 0 <= k < rev@.len() ==> (#[trigger] rev@[k]) < m,
            forall|k: int|
                0 <= k < rev@.len() - 1 ==> #[trigger] linked(t_edges@, rev@[k + 1], rev@[k]),
        decreases order@[cur as int],
    {
        let p = parent[cur];
        rev.push(p);
        cur = p;
    }
    let mut path: Vec<usize> = Vec::new();
    let total = rev.len();
    for i in 0..total
        invariant
            total == rev@.len(),
            path@.len() == i,
            forall|k: int| 0 <= k < i ==> (#[trigger] path@[k]) == rev@[total - 1 - k],
    {
        path.push(rev[total - 1 - i]);
    }
    proof {
        assert(path@[0] == rev@[total - 1]);
        assert(path@[path@.len() - 1] == rev@[0]);
        assert forall|k: int| 0 <= k < path@.len() - 1 implies #[trigger] linked(
            t_edges@,
            path@[k],
            path@[k + 1],
        ) by {
            assert(path@[k] == rev@[total - 1 - k]);
            assert(path@[k + 1] == rev@[total - 1 - (k + 1)]);
            assert(linked(t_edges@, rev@[(total - 2 - k) + 1], rev@[total - 2 - k]));
        }
        assert(is_path(t_edges@, path@));
    }
    Some(path)
}

} // verus!
