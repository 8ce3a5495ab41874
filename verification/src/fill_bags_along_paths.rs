//! Path filling along the spanning tree.
//!
//! After the spanning forest is extracted, every vertex of the input graph
//! must induce a connected set of bags (the running-intersection property).
//! The structural filler roots the tree, builds a predecessor map, and walks
//! each vertex's bags up the tree to their common ancestor, inserting the
//! vertex into every bag along the way.  The walk pops the deepest pending
//! node first from an ordered set keyed by `(depth, node)`, so walks that meet
//! coalesce and progress towards the root is monotone.

use vstd::prelude::*;
use crate::vertex_set::VertexSet;
use crate::vertex_set::{popcount, lemma_popcount_set, lemma_popcount_unset};
use crate::spanning_tree::{linked, is_path, connected, lemma_popcount_all_unset};
use crate::find_path_in_tree::find_path_in_tree;
use crate::find_maximum_cliques::covers_vertex;

verus! {

/// A pending walker entry: a tree node together with its depth in the rooted
/// tree.
#[derive(PartialEq, Eq, Structural, Clone, Copy, Debug)]
pub struct Predecessor {
    pub node_index: usize,
    pub level_index: usize,
}

/// Strict order on walker entries: by depth, then by node.
pub open spec fn pred_lt(a: Predecessor, b: Predecessor) -> bool {
    a.level_index < b.level_index || (a.level_index == b.level_index && a.node_index
        < b.node_index)
}

impl Predecessor {
    /// Whether `self` comes strictly before `other`: shallower first, ties by
    /// node index (so entries of equal depth but different nodes are kept
    /// apart).
    pub fn precedes(&self, other: &Predecessor) -> (r: bool)
        ensures
            r == pred_lt(*self, *other),
    {
        self.level_index < other.level_index || (self.level_index == other.level_index
            && self.node_index < other.node_index)
    }
}

/// The sum of the depths of a sequence of entries (the walk's termination
/// measure).
pub open spec fn level_sum(s: Seq<Predecessor>) -> nat
    decreases s.len(),
{
    if s.len() == 0 {
        0
    } else {
        (level_sum(s.drop_last()) + s.last().level_index) as nat
    }
}

proof fn lemma_level_sum_insert(s: Seq<Predecessor>, i: int, p: Predecessor)
    requires
        0 <= i <= s.len(),
    ensures
        level_sum(s.insert(i, p)) == level_sum(s) + p.level_index,
    decreases s.len() - i,
{
    let t = s.insert(i, p);
    if i == s.len() {
        assert(t.drop_last() =~= s);
        assert(t.last() == p);
    } else {
        assert(t.drop_last() =~= s.drop_last().insert(i, p));
        assert(t.last() == s.last());
        lemma_level_sum_insert(s.drop_last(), i, p);
    }
}

/// An ordered set of walker entries, kept strictly sorted by `(depth, node)`.
/// Inserting an entry that is already present leaves the set unchanged, and
/// the deepest entry can be popped.
pub struct PredecessorSet {
    pub items: Vec<Predecessor>,
}

impl PredecessorSet {
    /// Entries are strictly increasing, so each entry occurs once.
    pub open spec fn wf(self) -> bool {
        forall|i: int, j: int|
            0 <= i < j < self.items@.len() ==> pred_lt(
                #[trigger] self.items@[i],
                #[trigger] self.items@[j],
            )
    }

    /// The empty set.
    pub fn new() -> (r: PredecessorSet)
        ensures
            r.wf(),
            r.items@.len() == 0,
    {
        PredecessorSet { items: Vec::new() }
    }

    /// The number of entries.
    pub fn len(&self) -> (r: usize)
        ensures
            r == self.items@.len(),
    {
        self.items.len()
    }

    /// The shallowest entry.
    pub fn first(&self) -> (r: Predecessor)
        requires
            self.items@.len() >= 1,
        ensures
            r == self.items@[0],
    {
        self.items[0]
    }

    /// Inserts an entry, unless it is already present.
    pub fn insert(&mut self, p: Predecessor)
        requires
            old(self).wf(),
        ensures
            final(self).wf(),
            forall|q: Predecessor|
                final(self).items@.contains(q) == (old(self).items@.contains(q) || q == p),
            old(self).items@.contains(p) ==> final(self).items@ == old(self).items@,
            !old(self).items@.contains(p) ==> final(self).items@.len() == old(
                self,
            ).items@.len() + 1 && level_sum(final(self).items@) == level_sum(
                old(self).items@,
            ) + p.level_index,
    {
        let len = self.items.len();
        let mut pos: usize = 0;
        while pos < len && self.items[pos].precedes(&p)
            invariant
                len == self.items@.len(),
                pos <= len,
                self.items@ == old(self).items@,
                forall|i: int| 0 <= i < pos ==> pred_lt(#[trigger] self.items@[i], p),
            decreases len - pos,
        {
            pos = pos + 1;
        }
        if pos < len && self.items[pos] == p {
            assert(self.items@.contains(p)) by {
                assert(self.items@[pos as int] == p);
            }
            return ;
        }
        assert(!self.items@.contains(p)) by {
            if self.items@.contains(p) {
                let i = choose|i: int| 0 <= i < self.items@.len() && self.items@[i] == p;
                assert(i >= pos);
                if i > pos {
                    assert(pred_lt(self.items@[pos as int], self.items@[i]));
                }
            }
        }
        let mut out: Vec<Predecessor> = Vec::new();
        for i in 0..pos
            invariant
                pos <= len,
                len == self.items@.len(),
                self.items@ == old(self).items@,
                out@.len() == i,
                forall|k: int| 0 <= k < i ==> out@[k] == self.items@[k],
        {
            out.push(self.items[i]);
        }
        out.push(p);
        for i in pos..len
            invariant
                pos <= i <= len,
                len == self.items@.len(),
                self.items@ == old(self).items@,
                out@.len() == i + 1,
                forall|k: int| 0 <= k < pos ==> out@[k] == self.items@[k],
                out@[pos as int] == p,
                forall|k: int| pos < k < i + 1 ==> out@[k] == self.items@[k - 1],
        {
            out.push(self.items[i]);
        }
        proof {
            assert(out@ =~= old(self).items@.insert(pos as int, p));
            lemma_level_sum_insert(old(self).items@, pos as int, p);
        }
        self.items = out;
        proof {
            assert forall|q: Predecessor| final(self).items@.contains(q) == (old(
                self,
            ).items@.contains(q) || q == p) by {
                if final(self).items@.contains(q) {
                    let i = choose|i: int|
                        0 <= i < final(self).items@.len() && final(self).items@[i] == q;
                    if i < pos {
                        assert(old(self).items@[i] == q);
                    } else if i == pos {
                    } else {
                        assert(old(self).items@[i - 1] == q);
                    }
                }
                if old(self).items@.contains(q) {
                    let i = choose|i: int|
                        0 <= i < old(self).items@.len() && old(self).items@[i] == q;
                    if i < pos {
                        assert(final(self).items@[i] == q);
                    } else {
                        assert(final(self).items@[i + 1] == q);
                    }
                }
                if q == p {
                    assert(final(self).items@[pos as int] == q);
                }
            }
            assert(final(self).wf()) by {
                assert forall|i: int, j: int|
                    0 <= i < j < final(self).items@.len() implies pred_lt(
                    #[trigger] final(self).items@[i],
                    #[trigger] final(self).items@[j],
                ) by {
                    if j < pos {
                    } else if i >= pos + 1 {
                    } else if j == pos {
                        assert(final(self).items@[j] == p);
                        assert(pred_lt(old(self).items@[i], p));
                    } else if i == pos {
                        // p precedes everything from position pos on: the scan
                        // stopped there and p is not equal to that entry
                        let b = old(self).items@[j - 1];
                        assert(!pred_lt(b, p));
                        assert(b != p);
                        assert(pred_lt(p, b));
                    } else {
                        // i < pos < j
                        assert(pred_lt(old(self).items@[i], p));
                        let b = old(self).items@[j - 1];
                        assert(!pred_lt(b, p));
                        assert(b != p);
                        assert(pred_lt(p, b));
                    }
                }
            }
        }
    }

    /// Removes and returns the deepest entry.
    pub fn pop_last(&mut self) -> (r: Predecessor)
        requires
            old(self).wf(),
            old(self).items@.len() >= 1,
        ensures
            final(self).wf(),
            r == old(self).items@.last(),
            final(self).items@ == old(self).items@.drop_last(),
            forall|q: Predecessor| final(self).items@.contains(q) ==> pred_lt(q, r),
            forall|q: Predecessor|
                final(self).items@.contains(q) == (old(self).items@.contains(q) && q != r),
            level_sum(final(self).items@) + r.level_index == level_sum(old(self).items@),
    {
        let r = self.items.pop().unwrap();
        proof {
            assert forall|q: Predecessor| final(self).items@.contains(q) implies pred_lt(
                q,
                r,
            ) by {
                let i = choose|i: int|
                    0 <= i < final(self).items@.len() && final(self).items@[i] == q;
                assert(old(self).items@[i] == q);
                assert(pred_lt(
                    old(self).items@[i],
                    old(self).items@[old(self).items@.len() - 1],
                ));
            }
            assert forall|q: Predecessor| final(self).items@.contains(q) == (old(
                self,
            ).items@.contains(q) && q != r) by {
                if final(self).items@.contains(q) {
                    let i = choose|i: int|
                        0 <= i < final(self).items@.len() && final(self).items@[i] == q;
                    assert(old(self).items@[i] == q);
                }
                if old(self).items@.contains(q) && q != r {
                    let i = choose|i: int|
                        0 <= i < old(self).items@.len() && old(self).items@[i] == q;
                    assert(i < old(self).items@.len() - 1);
                    assert(final(self).items@[i] == q);
                }
            }
        }
        r
    }
}

/// Some entry of the sequence stands for tree node `x`.
pub open spec fn pending_has(s: Seq<Predecessor>, x: usize) -> bool {
    exists|i: int| 0 <= i < s.len() && (#[trigger] s[i]).node_index == x
}

/// Well-formed predecessor map over `m` tree nodes: `pm[x]` is the parent of
/// `x` and the parent's depth, absent exactly at the roots, and depths grow by
/// one along parent edges.
pub open spec fn pm_wf(pm: Seq<Option<(usize, usize)>>, depths: Seq<usize>, m: nat) -> bool {
    &&& pm.len() == m
    &&& depths.len() == m
    &&& forall|x: int|
        0 <= x < m ==> match #[trigger] pm[x] {
            Some(pd) => pd.0 < m && depths[pd.0 as int] == pd.1 && depths[x] == pd.1 + 1,
            None => depths[x] == 0,
        }
}

/// The node reached from `x` by following at most `fuel` parent links.
pub open spec fn chain_root(pm: Seq<Option<(usize, usize)>>, x: usize, fuel: nat) -> usize
    decreases fuel,
{
    if fuel == 0 {
        x
    } else {
        match pm[x as int] {
            None => x,
            Some(pd) => chain_root(pm, pd.0, (fuel - 1) as nat),
        }
    }
}

/// The root of the tree that node `x` belongs to.
pub open spec fn root_of(pm: Seq<Option<(usize, usize)>>, depths: Seq<usize>, x: usize) -> usize {
    chain_root(pm, x, depths[x as int] as nat)
}

/// A node and its parent have the same root.
pub proof fn lemma_root_step(pm: Seq<Option<(usize, usize)>>, depths: Seq<usize>, m: nat, x: usize)
    requires
        pm_wf(pm, depths, m),
        x < m,
        pm[x as int] is Some,
    ensures
        match pm[x as int] {
            Some(pd) => root_of(pm, depths, x) == root_of(pm, depths, pd.0),
            None => true,
        },
{
    match pm[x as int] {
        Some(pd) => {
            assert(depths[x as int] == pd.1 + 1);
            assert(root_of(pm, depths, x) == chain_root(pm, x, depths[x as int] as nat));
            assert(chain_root(pm, x, depths[x as int] as nat) == chain_root(
                pm,
                pd.0,
                (depths[x as int] - 1) as nat,
            ));
        },
        None => {},
    }
}

/// Starting at `x`, following parent links whose bags all contain `v` reaches
/// `hub` within `fuel` steps.
pub open spec fn climb(
    pm: Seq<Option<(usize, usize)>>,
    bags: Seq<VertexSet>,
    v: usize,
    x: usize,
    hub: usize,
    fuel: nat,
) -> bool
    decreases fuel,
{
    if x == hub {
        true
    } else if fuel == 0 {
        false
    } else {
        match pm[x as int] {
            None => false,
            Some(pd) => bags[pd.0 as int].has(v as int) && climb(
                pm,
                bags,
                v,
                pd.0,
                hub,
                (fuel - 1) as nat,
            ),
        }
    }
}

/// The parent chain from `x` to `hub` stays within the bags containing `v`.
pub open spec fn climbs_to(
    pm: Seq<Option<(usize, usize)>>,
    depths: Seq<usize>,
    bags: Seq<VertexSet>,
    v: usize,
    x: usize,
    hub: usize,
) -> bool {
    climb(pm, bags, v, x, hub, depths[x as int] as nat)
}

/// Every bag containing `v` reaches the hub by parent links within the bags
/// containing `v`: the set of bags containing `v` is connected in the rooted
/// tree.
pub open spec fn v_nodes_rooted(
    pm: Seq<Option<(usize, usize)>>,
    depths: Seq<usize>,
    bags: Seq<VertexSet>,
    v: usize,
    hub: usize,
) -> bool {
    forall|x: usize|
        x < bags.len() && (#[trigger] bags[x as int].has(v as int)) ==> climbs_to(
            pm,
            depths,
            bags,
            v,
            x,
            hub,
        )
}

/// The bags containing `v` form a connected subtree: they all climb to one
/// hub (the running-intersection property at `v`).
pub open spec fn running_intersection_at(
    pm: Seq<Option<(usize, usize)>>,
    depths: Seq<usize>,
    bags: Seq<VertexSet>,
    v: usize,
) -> bool {
    exists|hub: usize| #[trigger] v_nodes_rooted(pm, depths, bags, v, hub)
}

/// All bags containing `v` lie in the same tree of the rooted forest.
pub open spec fn same_root_for(
    pm: Seq<Option<(usize, usize)>>,
    depths: Seq<usize>,
    bags: Seq<VertexSet>,
    v: usize,
) -> bool {
    forall|a: usize, b: usize|
        a < bags.len() && b < bags.len() && (#[trigger] bags[a as int].has(v as int)) && (
        #[trigger] bags[b as int].has(v as int)) ==> root_of(pm, depths, a) == root_of(
            pm,
            depths,
            b,
        )
}

/// If every bag containing `v` other than the hub has a parent whose bag also
/// contains `v`, then every bag containing `v` climbs to the hub.
proof fn lemma_climb_from_closure(
    pm: Seq<Option<(usize, usize)>>,
    depths: Seq<usize>,
    bags: Seq<VertexSet>,
    v: usize,
    m: nat,
    hub: usize,
    x: usize,
)
    requires
        pm_wf(pm, depths, m),
        bags.len() == m,
        x < m,
        bags[x as int].has(v as int),
        forall|y: usize|
            y < m && (#[trigger] bags[y as int].has(v as int)) && y != hub ==> match pm[y as int] {
                Some(pd) => bags[pd.0 as int].has(v as int),
                None => false,
            },
    ensures
        climbs_to(pm, depths, bags, v, x, hub),
    decreases depths[x as int],
{
    if x != hub {
        match pm[x as int] {
            Some(pd) => {
                assert(depths[pd.0 as int] == depths[x as int] - 1);
                lemma_climb_from_closure(pm, depths, bags, v, m, hub, pd.0);
            },
            None => {
                assert(false);
            },
        }
    }
}

/// A climb only looks at which bags contain `v`, so it is unchanged when the
/// bags change only at other vertices.
proof fn lemma_climb_agree(
    pm: Seq<Option<(usize, usize)>>,
    depths: Seq<usize>,
    bags1: Seq<VertexSet>,
    bags2: Seq<VertexSet>,
    v: usize,
    x: usize,
    hub: usize,
    m: nat,
)
    requires
        pm_wf(pm, depths, m),
        bags1.len() == m,
        bags2.len() == m,
        x < m,
        forall|i: int|
            0 <= i < m ==> ((#[trigger] bags1[i].has(v as int)) == bags2[i].has(v as int)),
    ensures
        climbs_to(pm, depths, bags1, v, x, hub) == climbs_to(pm, depths, bags2, v, x, hub),
    decreases depths[x as int],
{
    if x != hub {
        match pm[x as int] {
            Some(pd) => {
                assert(depths[pd.0 as int] == depths[x as int] - 1);
                lemma_climb_agree(pm, depths, bags1, bags2, v, pd.0, hub, m);
            },
            None => {},
        }
    }
}

/// Walks the clique-graph nodes whose bags contain `vertex` up the rooted
/// tree until they meet, inserting `vertex` into every bag along the way.
/// The pending walkers are kept in an ordered set keyed by `(depth, node)`,
/// and the deepest walker moves first, so walkers that meet coalesce.
///
/// When all bags containing `vertex` lie in one tree of the rooted forest,
/// the bags containing `vertex` afterwards form a connected subtree (the
/// running-intersection property at `vertex`).
#[verifier::rlimit(100)]
pub fn fill_bags_until_common_predecessor(
    clique_graph_bags: &mut Vec<VertexSet>,
    predecessors: &Vec<Option<(usize, usize)>>,
    depths: &Vec<usize>,
    vertex: usize,
    vertices_in_clique_graph: &Vec<usize>,
)
    requires
        pm_wf(predecessors@, depths@, old(clique_graph_bags)@.len() as nat),
        forall|i: int|
            0 <= i < old(clique_graph_bags)@.len() ==> vertex < (#[trigger] old(
                clique_graph_bags,
            )@[i]).n(),
        forall|k: int|
            0 <= k < vertices_in_clique_graph@.len() ==> (#[trigger] vertices_in_clique_graph@[k])
                < old(clique_graph_bags)@.len() && old(clique_graph_bags)@[
                vertices_in_clique_graph@[k] as int].has(vertex as int),
        forall|x: usize|
            x < old(clique_graph_bags)@.len() && (#[trigger] old(clique_graph_bags)@[
                x as int].has(vertex as int)) ==> vertices_in_clique_graph@.contains(x),
        forall|a: int, b: int|
            0 <= a < b < vertices_in_clique_graph@.len() ==> vertices_in_clique_graph@[a]
                < vertices_in_clique_graph@[b],
    ensures
        final(clique_graph_bags)@.len() == old(clique_graph_bags)@.len(),
        forall|i: int|
            0 <= i < old(clique_graph_bags)@.len() ==> (#[trigger] final(clique_graph_bags)@[i]).n()
                == old(clique_graph_bags)@[i].n(),
        forall|i: int, w: int|
            0 <= i < old(clique_graph_bags)@.len() && w != vertex ==> ((#[trigger] final(clique_graph_bags)@[i].has(w))
                == old(clique_graph_bags)@[i].has(w)),
        forall|i: int|
            0 <= i < old(clique_graph_bags)@.len() && old(clique_graph_bags)@[i].has(
                vertex as int,
            ) ==> (#[trigger] final(clique_graph_bags)@[i]).has(vertex as int),
        same_root_for(predecessors@, depths@, old(clique_graph_bags)@, vertex)
            ==> running_intersection_at(
            predecessors@,
            depths@,
            final(clique_graph_bags)@,
            vertex,
        ),
        vertices_in_clique_graph@.len() <= 1 ==> final(clique_graph_bags)@ == old(
            clique_graph_bags,
        )@,
{
    let m = clique_graph_bags.len();
    let cnt = vertices_in_clique_graph.len();
    if cnt == 0 {
        proof {
            assert forall|x: usize|
                x < m && (#[trigger] clique_graph_bags@[x as int].has(
                    vertex as int,
                )) implies climbs_to(
                predecessors@,
                depths@,
                clique_graph_bags@,
                vertex,
                x,
                0,
            ) by {
                assert(vertices_in_clique_graph@.contains(x));
                assert(false);
            }
            assert(v_nodes_rooted(predecessors@, depths@, clique_graph_bags@, vertex, 0));
        }
        return ;
    }
    if cnt == 1 {
        let ghost hub = vertices_in_clique_graph@[0];
        proof {
            assert forall|x: usize|
                x < m && (#[trigger] clique_graph_bags@[x as int].has(
                    vertex as int,
                )) implies climbs_to(
                predecessors@,
                depths@,
                clique_graph_bags@,
                vertex,
                x,
                hub,
            ) by {
                assert(vertices_in_clique_graph@.contains(x));
                let k = choose|k: int|
                    0 <= k < vertices_in_clique_graph@.len() && vertices_in_clique_graph@[k] == x;
                assert(k == 0);
                assert(x == hub);
            }
            assert(v_nodes_rooted(predecessors@, depths@, clique_graph_bags@, vertex, hub));
        }
        return ;
    }
    let ghost hyp = same_root_for(predecessors@, depths@, old(clique_graph_bags)@, vertex);
    let ghost rt = root_of(predecessors@, depths@, vertices_in_clique_graph@[0] as usize);
    let mut pending = PredecessorSet::new();
    for idx in 0..cnt
        invariant
            cnt == vertices_in_clique_graph@.len(),
            m == clique_graph_bags@.len(),
            clique_graph_bags@ == old(clique_graph_bags)@,
            pm_wf(predecessors@, depths@, m as nat),
            pending.wf(),
            forall|k: int|
                0 <= k < vertices_in_clique_graph@.len() ==> (
                #[trigger] vertices_in_clique_graph@[k]) < m && old(clique_graph_bags)@[
                    vertices_in_clique_graph@[k] as int].has(vertex as int),
            hyp == same_root_for(predecessors@, depths@, old(clique_graph_bags)@, vertex),
            rt == root_of(predecessors@, depths@, vertices_in_clique_graph@[0] as usize),
            forall|q: Predecessor|
                #[trigger] pending.items@.contains(q) ==> q.node_index < m && q.level_index
                    == depths@[q.node_index as int] && old(clique_graph_bags)@[
                    q.node_index as int].has(vertex as int),
            forall|k: int|
                0 <= k < idx ==> pending_has(
                    pending.items@,
                    #[trigger] vertices_in_clique_graph@[k],
                ),
            hyp ==> forall|q: Predecessor|
                #[trigger] pending.items@.contains(q) ==> root_of(
                    predecessors@,
                    depths@,
                    q.node_index,
                ) == rt,
    {
        let node = vertices_in_clique_graph[idx];
        let lv = depths[node];
        let ghost before = pending.items@;
        pending.insert(Predecessor { node_index: node, level_index: lv });
        proof {
            let p = Predecessor { node_index: node, level_index: lv };
            assert(pending.items@.contains(p));
            assert(pending_has(pending.items@, node));
            assert forall|k: int| 0 <= k < idx + 1 implies pending_has(
                pending.items@,
                #[trigger] vertices_in_clique_graph@[k],
            ) by {
                if k < idx {
                    assert(pending_has(before, vertices_in_clique_graph@[k]));
                    let i = choose|i: int|
                        0 <= i < before.len() && (#[trigger] before[i]).node_index
                            == vertices_in_clique_graph@[k];
                    assert(before.contains(before[i]));
                    assert(pending.items@.contains(before[i]));
                    let j = choose|j: int|
                        0 <= j < pending.items@.len() && pending.items@[j] == before[i];
                    assert((pending.items@[j]).node_index == vertices_in_clique_graph@[k]);
                }
            }
            if hyp {
                assert(old(clique_graph_bags)@[vertices_in_clique_graph@[0] as int].has(
                    vertex as int,
                ));
                assert(root_of(predecessors@, depths@, node) == rt);
            }
        }
    }
    proof {
        let p0 = Predecessor {
            node_index: vertices_in_clique_graph@[0],
            level_index: depths@[vertices_in_clique_graph@[0] as int],
        };
        let p1 = Predecessor {
            node_index: vertices_in_clique_graph@[1],
            level_index: depths@[vertices_in_clique_graph@[1] as int],
        };
        assert(pending_has(pending.items@, vertices_in_clique_graph@[0]));
        assert(pending_has(pending.items@, vertices_in_clique_graph@[1]));
        let i0 = choose|i: int|
            0 <= i < pending.items@.len() && (#[trigger] pending.items@[i]).node_index
                == vertices_in_clique_graph@[0];
        let i1 = choose|i: int|
            0 <= i < pending.items@.len() && (#[trigger] pending.items@[i]).node_index
                == vertices_in_clique_graph@[1];
        assert(vertices_in_clique_graph@[0] != vertices_in_clique_graph@[1]);
        assert(i0 != i1);
        assert(pending.items@.len() >= 2);
    }
    let ghost mut popped: Set<usize> = Set::empty();
    while pending.len() > 1
        invariant
            pending.wf(),
            pending.items@.len() >= 1,
            m == clique_graph_bags@.len(),
            pm_wf(predecessors@, depths@, m as nat),
            predecessors@.len() == m,
            depths@.len() == m,
            forall|i: int|
                0 <= i < m ==> (#[trigger] clique_graph_bags@[i]).n() == old(
                    clique_graph_bags,
                )@[i].n(),
            forall|i: int|
                0 <= i < m ==> vertex < (#[trigger] old(clique_graph_bags)@[i]).n(),
            forall|q: Predecessor|
                #[trigger] pending.items@.contains(q) ==> q.node_index < m && q.level_index
                    == depths@[q.node_index as int],
            forall|x: usize| #[trigger] popped.contains(x) ==> x < m,
            forall|x: int|
                0 <= x < m ==> ((#[trigger] clique_graph_bags@[x].has(vertex as int)) == (old(
                    clique_graph_bags,
                )@[x].has(vertex as int) || popped.contains(x as usize))),
            forall|i: int, w: int|
                0 <= i < m && w != vertex ==> ((#[trigger] clique_graph_bags@[i].has(w)) == old(
                    clique_graph_bags,
                )@[i].has(w)),
            forall|x: usize|
                x < m && (#[trigger] old(clique_graph_bags)@[x as int].has(vertex as int))
                    ==> popped.contains(x) || pending_has(pending.items@, x),
            hyp == same_root_for(predecessors@, depths@, old(clique_graph_bags)@, vertex),
            hyp ==> forall|x: usize|
                #[trigger] popped.contains(x) ==> (match predecessors@[x as int] {
                    Some(pd) => pending_has(pending.items@, pd.0) || popped.contains(pd.0),
                    None => false,
                }),
            hyp ==> (forall|q: Predecessor|
                #[trigger] pending.items@.contains(q) ==> root_of(
                    predecessors@,
                    depths@,
                    q.node_index,
                ) == rt) && (forall|x: usize|
                #[trigger] popped.contains(x) ==> root_of(predecessors@, depths@, x) == rt),
        decreases level_sum(pending.items@) + pending.items@.len(),
    {
        let ghost pend0 = pending.items@;
        let top = pending.pop_last();
        let ghost pend1 = pending.items@;
        let x = top.node_index;
        proof {
            assert(pend0.contains(top)) by {
                assert(pend0[pend0.len() - 1] == top);
            }
        }
        clique_graph_bags[x].insert(vertex);
        proof {
            popped = popped.insert(x);
        }
        match predecessors[x] {
            Some(pd) => {
                let parent = pd.0;
                let plv = pd.1;
                let ghost pnew = Predecessor { node_index: parent, level_index: plv };
                pending.insert(Predecessor { node_index: parent, level_index: plv });
                proof {
                    assert(pending.items@.contains(pnew));
                    assert(pending_has(pending.items@, parent));
                    // entries removed by the pop stand for other nodes, so
                    // every node still pending before is pending or popped now
                    assert forall|z: usize|
                        pending_has(pend0, z) && z != x implies pending_has(
                        pending.items@,
                        z,
                    ) by {
                        let i = choose|i: int|
                            0 <= i < pend0.len() && (#[trigger] pend0[i]).node_index == z;
                        assert(pend0.contains(pend0[i]));
                        assert(pend0[i] != top);
                        assert(pend1.contains(pend0[i]));
                        assert(pending.items@.contains(pend0[i]));
                        let j = choose|j: int|
                            0 <= j < pending.items@.len() && pending.items@[j] == pend0[i];
                    }
                    if hyp {
                        lemma_root_step(predecessors@, depths@, m as nat, x);
                        assert(root_of(predecessors@, depths@, x) == rt);
                        assert forall|q: Predecessor|
                            #[trigger] pending.items@.contains(q) implies root_of(
                            predecessors@,
                            depths@,
                            q.node_index,
                        ) == rt by {
                            if q != pnew {
                                assert(pend1.contains(q));
                                assert(pend0.contains(q));
                            }
                        }
                    }
                }
            },
            None => {
                proof {
                    assert forall|z: usize|
                        pending_has(pend0, z) && z != x implies pending_has(
                        pending.items@,
                        z,
                    ) by {
                        let i = choose|i: int|
                            0 <= i < pend0.len() && (#[trigger] pend0[i]).node_index == z;
                        assert(pend0.contains(pend0[i]));
                        assert(pend0[i] != top);
                        assert(pend1.contains(pend0[i]));
                        let j = choose|j: int|
                            0 <= j < pending.items@.len() && pending.items@[j] == pend0[i];
                    }
                    if hyp {
                        // only roots sit at depth zero, and two distinct
                        // pending roots would contradict the common root
                        assert(depths@[x as int] == 0);
                        assert(top.level_index == 0);
                        assert(pend1.len() >= 1);
                        let q = pend1[0];
                        assert(pend1.contains(q));
                        assert(pend0.contains(q));
                        assert(q != top);
                        assert(pred_lt(q, top));
                        assert(q.level_index == 0);
                        assert(depths@[q.node_index as int] == 0);
                        assert(root_of(predecessors@, depths@, q.node_index) == q.node_index);
                        assert(root_of(predecessors@, depths@, x) == x);
                        assert(q.node_index == x);
                        assert(q.level_index == top.level_index);
                        assert(false);
                    }
                }
            },
        }
        proof {
            assert forall|y: usize|
                y < m && (#[trigger] old(clique_graph_bags)@[y as int].has(
                    vertex as int,
                )) implies popped.contains(y) || pending_has(pending.items@, y) by {
                if y == x {
                } else if !popped.contains(y) {
                    assert(pending_has(pend0, y));
                }
            }
        }
    }
    let hubp = pending.first();
    let hub = hubp.node_index;
    proof {
        assert(pending.items@.contains(hubp)) by {
            assert(pending.items@[0] == hubp);
        }
    }
    clique_graph_bags[hub].insert(vertex);
    proof {
        if hyp {
            assert forall|y: usize|
                y < m && (#[trigger] clique_graph_bags@[y as int].has(vertex as int)) && y
                    != hub implies (match predecessors@[y as int] {
                Some(pd) => clique_graph_bags@[pd.0 as int].has(vertex as int),
                None => false,
            }) by {
                if popped.contains(y) {
                    match predecessors@[y as int] {
                        Some(pd) => {
                            if pending_has(pending.items@, pd.0) {
                                let i = choose|i: int|
                                    0 <= i < pending.items@.len() && (
                                    #[trigger] pending.items@[i]).node_index == pd.0;
                                assert(i == 0);
                                assert(pd.0 == hub);
                            }
                            assert(clique_graph_bags@[pd.0 as int].has(vertex as int));
                        },
                        None => {},
                    }
                } else {
                    assert(old(clique_graph_bags)@[y as int].has(vertex as int));
                    assert(pending_has(pending.items@, y));
                    let i = choose|i: int|
                        0 <= i < pending.items@.len() && (#[trigger] pending.items@[i]).node_index
                            == y;
                    assert(i == 0);
                    assert(y == hub);
                    assert(false);
                }
            }
            assert forall|x: usize|
                x < m && (#[trigger] clique_graph_bags@[x as int].has(
                    vertex as int,
                )) implies climbs_to(
                predecessors@,
                depths@,
                clique_graph_bags@,
                vertex,
                x,
                hub,
            ) by {
                lemma_climb_from_closure(
                    predecessors@,
                    depths@,
                    clique_graph_bags@,
                    vertex,
                    m as nat,
                    hub,
                    x,
                );
            }
            assert(v_nodes_rooted(predecessors@, depths@, clique_graph_bags@, vertex, hub));
        }
    }
}

/// The invariant tying the predecessor map, depths and discovery mask
/// together while the forest is being rooted.
pub open spec fn rooting_wf(
    pm: Seq<Option<(usize, usize)>>,
    depths: Seq<usize>,
    discovered: Seq<bool>,
    t_edges: Seq<(usize, usize, i64)>,
    m: nat,
    cnt: nat,
) -> bool {
    &&& pm.len() == m
    &&& depths.len() == m
    &&& discovered.len() == m
    &&& cnt == popcount(discovered)
    &&& cnt <= m
    &&& forall|x: int|
        0 <= x < m && !discovered[x] ==> (#[trigger] pm[x]) is None && depths[x] == 0
    &&& forall|x: int| 0 <= x < m && (#[trigger] discovered[x]) ==> depths[x] < cnt
    &&& forall|x: int|
        0 <= x < m && (#[trigger] discovered[x]) ==> match pm[x] {
            Some(pd) => pd.0 < m && discovered[pd.0 as int] && depths[pd.0 as int] == pd.1
                && depths[x] == pd.1 + 1 && linked(t_edges, x as usize, pd.0),
            None => depths[x] == 0,
        }
}

/// The discovered set is closed under the edges of the forest.
pub open spec fn edges_closed(
    t_edges: Seq<(usize, usize, i64)>,
    discovered: Seq<bool>,
    m: nat,
) -> bool {
    forall|a: usize, b: usize|
        a < m && b < m && discovered[a as int] && #[trigger] linked(t_edges, a, b)
            ==> discovered[b as int]
}

/// Discovered nodes joined by a forest edge share their root.
pub open spec fn linked_same_root(
    t_edges: Seq<(usize, usize, i64)>,
    pm: Seq<Option<(usize, usize)>>,
    depths: Seq<usize>,
    discovered: Seq<bool>,
    m: nat,
) -> bool {
    forall|a: usize, b: usize|
        a < m && b < m && discovered[a as int] && discovered[b as int] && #[trigger] linked(
            t_edges,
            a,
            b,
        ) ==> root_of(pm, depths, a) == root_of(pm, depths, b)
}

/// Every node discovered in the current phase has the phase's root.
pub open spec fn phase_rooted(
    pm: Seq<Option<(usize, usize)>>,
    depths: Seq<usize>,
    disc_old: Seq<bool>,
    disc: Seq<bool>,
    m: nat,
    root: usize,
) -> bool {
    forall|x: usize|
        x < m && (#[trigger] disc[x as int]) && !disc_old[x as int] ==> root_of(pm, depths, x)
            == root
}

/// A well-formed rooting is a well-formed predecessor map: undiscovered nodes
/// are roots of depth zero.
proof fn lemma_rooting_implies_pm_wf(
    pm: Seq<Option<(usize, usize)>>,
    depths: Seq<usize>,
    discovered: Seq<bool>,
    t_edges: Seq<(usize, usize, i64)>,
    m: nat,
    cnt: nat,
)
    requires
        rooting_wf(pm, depths, discovered, t_edges, m, cnt),
    ensures
        pm_wf(pm, depths, m),
{
    assert forall|x: int| 0 <= x < m implies match #[trigger] pm[x] {
        Some(pd) => pd.0 < m && depths[pd.0 as int] == pd.1 && depths[x] == pd.1 + 1,
        None => depths[x] == 0,
    } by {
        if discovered[x] {
        } else {
        }
    }
}

/// A parent chain that stays within the discovered nodes is unchanged when
/// the map changes only at undiscovered nodes.
proof fn lemma_chain_root_frame(
    pm1: Seq<Option<(usize, usize)>>,
    pm2: Seq<Option<(usize, usize)>>,
    disc: Seq<bool>,
    m: nat,
    x: usize,
    fuel: nat,
)
    requires
        pm1.len() == m,
        pm2.len() == m,
        disc.len() == m,
        x < m,
        disc[x as int],
        forall|y: int| 0 <= y < m && disc[y] ==> pm2[y] == (#[trigger] pm1[y]),
        forall|y: int|
            0 <= y < m && (#[trigger] disc[y]) ==> match pm1[y] {
                Some(pd) => pd.0 < m && disc[pd.0 as int],
                None => true,
            },
    ensures
        chain_root(pm1, x, fuel) == chain_root(pm2, x, fuel),
    decreases fuel,
{
    if fuel > 0 {
        match pm1[x as int] {
            Some(pd) => {
                lemma_chain_root_frame(pm1, pm2, disc, m, pd.0, (fuel - 1) as nat);
            },
            None => {},
        }
    }
}

/// One discovery step of the traversal: recording `cur` as the parent of the
/// fresh node `nb` keeps every existing root unchanged, gives `nb` the
/// phase's root, and keeps discovered forest neighbours at equal roots.
proof fn lemma_discover_step(
    t_edges: Seq<(usize, usize, i64)>,
    pm1: Seq<Option<(usize, usize)>>,
    pm2: Seq<Option<(usize, usize)>>,
    depths1: Seq<usize>,
    depths2: Seq<usize>,
    disc1: Seq<bool>,
    disc2: Seq<bool>,
    disc_orig: Seq<bool>,
    m: nat,
    root: usize,
    cur: usize,
    nb: usize,
)
    requires
        pm1.len() == m,
        depths1.len() == m,
        disc1.len() == m,
        disc_orig.len() == m,
        cur < m,
        nb < m,
        nb != cur,
        disc1[cur as int],
        !disc1[nb as int],
        !disc_orig[cur as int],
        forall|x: int| 0 <= x < m && disc_orig[x] ==> (#[trigger] disc1[x]),
        forall|y: int|
            0 <= y < m && (#[trigger] disc1[y]) ==> match pm1[y] {
                Some(pd) => pd.0 < m && disc1[pd.0 as int],
                None => true,
            },
        pm2 == pm1.update(nb as int, Some((cur, depths1[cur as int]))),
        depths2 == depths1.update(nb as int, ((depths1[cur as int] + 1) as usize)),
        disc2 == disc1.update(nb as int, true),
        depths1[cur as int] + 1 <= usize::MAX,
        pm_wf(pm2, depths2, m),
        phase_rooted(pm1, depths1, disc_orig, disc1, m, root),
        linked_same_root(t_edges, pm1, depths1, disc1, m),
        edges_closed(t_edges, disc_orig, m),
        linked(t_edges, nb, cur),
    ensures
        forall|x: usize|
            x < m && (#[trigger] disc1[x as int]) ==> root_of(pm2, depths2, x) == root_of(
                pm1,
                depths1,
                x,
            ),
        root_of(pm2, depths2, nb) == root,
        phase_rooted(pm2, depths2, disc_orig, disc2, m, root),
        linked_same_root(t_edges, pm2, depths2, disc2, m),
{
    assert forall|x: usize| x < m && (#[trigger] disc1[x as int]) implies root_of(
        pm2,
        depths2,
        x,
    ) == root_of(pm1, depths1, x) by {
        lemma_chain_root_frame(pm1, pm2, disc1, m, x, depths1[x as int] as nat);
        assert(depths2[x as int] == depths1[x as int]);
    }
    assert(root_of(pm2, depths2, nb) == root) by {
        lemma_root_step(pm2, depths2, m, nb);
        assert(root_of(pm2, depths2, nb) == root_of(pm2, depths2, cur));
        assert(root_of(pm2, depths2, cur) == root_of(pm1, depths1, cur));
        assert(root_of(pm1, depths1, cur) == root);
    }
    assert forall|x: usize|
        x < m && (#[trigger] disc2[x as int]) && !disc_orig[x as int] implies root_of(
        pm2,
        depths2,
        x,
    ) == root by {
        if x != nb {
            assert(disc1[x as int]);
            assert(root_of(pm1, depths1, x) == root);
        }
    }
    assert forall|a: usize, b: usize|
        a < m && b < m && disc2[a as int] && disc2[b as int] && #[trigger] linked(
            t_edges,
            a,
            b,
        ) implies root_of(pm2, depths2, a) == root_of(pm2, depths2, b) by {
        if a != nb && b != nb {
            assert(disc1[a as int] && disc1[b as int]);
            assert(root_of(pm1, depths1, a) == root_of(pm1, depths1, b));
        } else if a == nb && b != nb {
            assert(disc1[b as int]);
            if disc_orig[b as int] {
                assert(linked(t_edges, b, a)) by {
                    let kk = choose|kk: int|
                        0 <= kk < t_edges.len() && (((#[trigger] t_edges[kk]).0 == a && t_edges[
                        kk].1 == b) || (t_edges[kk].0 == b && t_edges[kk].1 == a));
                }
                assert(disc_orig[a as int]);
                assert(false);
            } else {
                assert(root_of(pm1, depths1, b) == root);
                assert(root_of(pm2, depths2, b) == root);
            }
        } else if b == nb && a != nb {
            assert(disc1[a as int]);
            if disc_orig[a as int] {
                assert(linked(t_edges, b, a)) by {
                    let kk = choose|kk: int|
                        0 <= kk < t_edges.len() && (((#[trigger] t_edges[kk]).0 == a && t_edges[
                        kk].1 == b) || (t_edges[kk].0 == b && t_edges[kk].1 == a));
                }
                assert(disc_orig[b as int]);
                assert(false);
            } else {
                assert(root_of(pm1, depths1, a) == root);
                assert(root_of(pm2, depths2, a) == root);
            }
        }
    }
}

/// Along a walk of the forest whose edges all join nodes of equal root, the
/// endpoints have equal roots.
pub proof fn lemma_connected_same_root(
    t_edges: Seq<(usize, usize, i64)>,
    pm: Seq<Option<(usize, usize)>>,
    depths: Seq<usize>,
    m: nat,
    p: Seq<usize>,
)
    requires
        is_path(t_edges, p),
        forall|k: int|
            0 <= k < t_edges.len() ==> (#[trigger] t_edges[k]).0 < m && t_edges[k].1 < m,
        p.first() < m,
        forall|a: usize, b: usize|
            a < m && b < m && #[trigger] linked(t_edges, a, b) ==> root_of(pm, depths, a)
                == root_of(pm, depths, b),
    ensures
        p.last() < m,
        root_of(pm, depths, p.first()) == root_of(pm, depths, p.last()),
    decreases p.len(),
{
    if p.len() > 1 {
        assert(linked(t_edges, p[0], p[1]));
        assert(p[1] < m) by {
            let k = choose|k: int|
                0 <= k < t_edges.len() && (((#[trigger] t_edges[k]).0 == p[0] && t_edges[k].1
                    == p[1]) || (t_edges[k].0 == p[1] && t_edges[k].1 == p[0]));
        }
        let q = p.drop_first();
        assert(is_path(t_edges, q)) by {
            assert forall|k: int| 0 <= k < q.len() - 1 implies linked(
                t_edges,
                #[trigger] q[k],
                q[k + 1],
            ) by {
                assert(q[k] == p[k + 1] && q[k + 1] == p[(k + 1) + 1]);
                assert(linked(t_edges, p[k + 1], p[(k + 1) + 1]));
            }
        }
        lemma_connected_same_root(t_edges, pm, depths, m, q);
    }
}

/// Depth-first traversal of one component of the forest, rooted at `root`:
/// records parent and depth for every node newly reached.  The new nodes all
/// get the root `root`, the discovered set stays closed under forest edges,
/// and discovered forest neighbours share their roots.
#[verifier::rlimit(100)]
#[verifier::spinoff_prover]
fn explore_component(
    root: usize,
    pm: &mut Vec<Option<(usize, usize)>>,
    depths: &mut Vec<usize>,
    discovered: &mut Vec<bool>,
    cnt: &mut usize,
    t_edges: &Vec<(usize, usize, i64)>,
    m: usize,
)
    requires
        root < m,
        !old(discovered)@[root as int],
        forall|k: int|
            0 <= k < t_edges@.len() ==> (#[trigger] t_edges@[k]).0 < m && t_edges@[k].1 < m,
        rooting_wf(
            old(pm)@,
            old(depths)@,
            old(discovered)@,
            t_edges@,
            m as nat,
            *old(cnt) as nat,
        ),
        edges_closed(t_edges@, old(discovered)@, m as nat),
        linked_same_root(t_edges@, old(pm)@, old(depths)@, old(discovered)@, m as nat),
    ensures
        rooting_wf(
            final(pm)@,
            final(depths)@,
            final(discovered)@,
            t_edges@,
            m as nat,
            *final(cnt) as nat,
        ),
        forall|x: int|
            0 <= x < m && old(discovered)@[x] ==> (#[trigger] final(discovered)@[x]),
        final(discovered)@[root as int],
        edges_closed(t_edges@, final(discovered)@, m as nat),
        linked_same_root(t_edges@, final(pm)@, final(depths)@, final(discovered)@, m as nat),
{
    let ne = t_edges.len();
    proof {
        lemma_popcount_unset(discovered@, root as int);
        lemma_popcount_set(discovered@, root as int);
    }
    discovered[root] = true;
    *cnt = *cnt + 1;
    proof {
        assert forall|x: int|
            0 <= x < m && (#[trigger] discovered@[x]) implies depths@[x] < *cnt as nat by {
            if x != root {
                assert(old(discovered)@[x]);
            } else {
                assert(!old(discovered)@[x]);
                assert(old(pm)@[x] is None);
                assert(depths@[x] == 0);
            }
        }
        assert(rooting_wf(pm@, depths@, discovered@, t_edges@, m as nat, *cnt as nat));
        assert(root_of(pm@, depths@, root) == root);
        assert forall|a: usize, b: usize|
            a < m && b < m && discovered@[a as int] && discovered@[b as int] && #[trigger] linked(
                t_edges@,
                a,
                b,
            ) implies root_of(pm@, depths@, a) == root_of(pm@, depths@, b) by {
            if a != root && b != root {
                assert(old(discovered)@[a as int] && old(discovered)@[b as int]);
            } else if a == root && b != root {
                assert(old(discovered)@[b as int]);
                assert(linked(t_edges@, b, a)) by {
                    let kk = choose|kk: int|
                        0 <= kk < t_edges@.len() && (((#[trigger] t_edges@[kk]).0 == a && t_edges@[
                        kk].1 == b) || (t_edges@[kk].0 == b && t_edges@[kk].1 == a));
                }
                assert(old(discovered)@[a as int]);
                assert(false);
            } else if b == root && a != root {
                assert(old(discovered)@[a as int]);
                assert(old(discovered)@[b as int]);
                assert(false);
            }
        }
    }
    let mut stack: Vec<usize> = Vec::new();
    stack.push(root);
    let ghost mut frontier: Set<usize> = Set::empty().insert(root);
    while stack.len() > 0
        invariant
            ne == t_edges@.len(),
            forall|k: int|
                0 <= k < t_edges@.len() ==> (#[trigger] t_edges@[k]).0 < m && t_edges@[k].1 < m,
            rooting_wf(pm@, depths@, discovered@, t_edges@, m as nat, *cnt as nat),
            old(discovered)@.len() == m,
            edges_closed(t_edges@, old(discovered)@, m as nat),
            forall|x: int|
                0 <= x < m && old(discovered)@[x] ==> (#[trigger] discovered@[x]),
            root < m,
            discovered@[root as int],
            !old(discovered)@[root as int],
            frontier.finite(),
            frontier.len() == stack@.len(),
            forall|s: int, t: int|
                0 <= s < t < stack@.len() ==> (#[trigger] stack@[s]) != (#[trigger] stack@[t]),
            forall|s: int| 0 <= s < stack@.len() ==> frontier.contains(#[trigger] stack@[s]),
            forall|x: usize|
                #[trigger] frontier.contains(x) ==> x < m && discovered@[x as int] && !old(
                    discovered,
                )@[x as int],
            phase_rooted(pm@, depths@, old(discovered)@, discovered@, m as nat, root),
            linked_same_root(t_edges@, pm@, depths@, discovered@, m as nat),
            forall|a: usize, b: usize|
                a < m && b < m && discovered@[a as int] && !frontier.contains(a)
                    && #[trigger] linked(t_edges@, a, b) ==> discovered@[b as int],
        decreases m - popcount(discovered@), stack@.len(),
    {
        let ghost cnt0 = *cnt as int;
        let ghost stack0_len = stack@.len() as int;
        let ghost stack_pre = stack@;
        let cur = stack.pop().unwrap();
        proof {
            assert(frontier.contains(cur)) by {
                assert(frontier.contains(stack_pre[stack_pre.len() - 1]));
            }
            frontier = frontier.remove(cur);
            assert forall|s: int| 0 <= s < stack@.len() implies frontier.contains(
                #[trigger] stack@[s],
            ) by {
                assert(stack@[s] == stack_pre[s]);
                assert(stack_pre[s] != stack_pre[stack_pre.len() - 1]);
            }
        }
        let dcur = depths[cur];
        for k in 0..ne
            invariant
                ne == t_edges@.len(),
                forall|kk: int|
                    0 <= kk < t_edges@.len() ==> (#[trigger] t_edges@[kk]).0 < m && t_edges@[
                        kk].1 < m,
                cur < m,
                discovered@[cur as int],
                !old(discovered)@[cur as int],
                dcur == depths@[cur as int],
                rooting_wf(pm@, depths@, discovered@, t_edges@, m as nat, *cnt as nat),
                old(discovered)@.len() == m,
                edges_closed(t_edges@, old(discovered)@, m as nat),
                forall|x: int|
                    0 <= x < m && old(discovered)@[x] ==> (#[trigger] discovered@[x]),
                root < m,
                discovered@[root as int],
                !old(discovered)@[root as int],
                *cnt >= cnt0,
                frontier.finite(),
                frontier.len() == stack@.len(),
                stack@.len() == stack0_len - 1 + (*cnt - cnt0),
                forall|s: int, t: int|
                    0 <= s < t < stack@.len() ==> (#[trigger] stack@[s]) != (#[trigger] stack@[t]),
                forall|s: int| 0 <= s < stack@.len() ==> frontier.contains(#[trigger] stack@[s]),
                forall|x: usize|
                    #[trigger] frontier.contains(x) ==> x < m && discovered@[x as int] && !old(
                        discovered,
                    )@[x as int],
                phase_rooted(pm@, depths@, old(discovered)@, discovered@, m as nat, root),
                linked_same_root(t_edges@, pm@, depths@, discovered@, m as nat),
                forall|a: usize, b: usize|
                    a < m && b < m && discovered@[a as int] && !frontier.contains(a) && a != cur
                        && #[trigger] linked(t_edges@, a, b) ==> discovered@[b as int],
                forall|y: usize|
                    y < m && (exists|kk: int|
                        0 <= kk < k && (((#[trigger] t_edges@[kk]).0 == cur && t_edges@[kk].1
                            == y) || (t_edges@[kk].0 == y && t_edges@[kk].1 == cur)))
                        ==> discovered@[y as int],
        {
            let e = t_edges[k];
            let nb_opt: Option<usize> = if e.0 == cur {
                Some(e.1)
            } else if e.1 == cur {
                Some(e.0)
            } else {
                None
            };
            if let Some(nb) = nb_opt {
                if !discovered[nb] {
                    proof {
                        lemma_popcount_unset(discovered@, nb as int);
                        lemma_popcount_set(discovered@, nb as int);
                        assert(nb != root);
                        assert(nb != cur);
                        assert(!frontier.contains(nb));
                    }
                    let ghost pm1 = pm@;
                    let ghost depths1 = depths@;
                    let ghost disc1 = discovered@;
                    discovered[nb] = true;
                    *cnt = *cnt + 1;
                    pm[nb] = Some((cur, dcur));
                    depths[nb] = dcur + 1;
                    stack.push(nb);
                    proof {
                        assert forall|s: int, t: int|
                            0 <= s < t < stack@.len() implies (#[trigger] stack@[s]) != (
                        #[trigger] stack@[t]) by {
                            if t == stack@.len() - 1 {
                                assert(frontier.contains(stack@[s]));
                            }
                        }
                        frontier = frontier.insert(nb);
                        assert(linked(t_edges@, nb, cur) && linked(t_edges@, cur, nb)) by {
                            assert(0 <= k < t_edges@.len());
                            assert((t_edges@[k as int].0 == cur && t_edges@[k as int].1 == nb) || (
                            t_edges@[k as int].0 == nb && t_edges@[k as int].1 == cur));
                        }
                        assert forall|x: int|
                            0 <= x < m && (#[trigger] discovered@[x]) implies depths@[x] < *cnt
                            as nat by {
                            if x != nb {
                                assert(disc1[x]);
                            }
                        }
                        assert(rooting_wf(
                            pm@,
                            depths@,
                            discovered@,
                            t_edges@,
                            m as nat,
                            *cnt as nat,
                        ));
                        lemma_rooting_implies_pm_wf(
                            pm@,
                            depths@,
                            discovered@,
                            t_edges@,
                            m as nat,
                            *cnt as nat,
                        );
                        lemma_discover_step(
                            t_edges@,
                            pm1,
                            pm@,
                            depths1,
                            depths@,
                            disc1,
                            discovered@,
                            old(discovered)@,
                            m as nat,
                            root,
                            cur,
                            nb,
                        );
                    }
                }
            }
        }
        proof {
            assert forall|a: usize, b: usize|
                a < m && b < m && discovered@[a as int] && !frontier.contains(a)
                    && #[trigger] linked(t_edges@, a, b) implies discovered@[b as int] by {
                if a == cur {
                    let kk = choose|kk: int|
                        0 <= kk < t_edges@.len() && (((#[trigger] t_edges@[kk]).0 == a && t_edges@[
                        kk].1 == b) || (t_edges@[kk].0 == b && t_edges@[kk].1 == a));
                    assert(exists|kk: int|
                        0 <= kk < ne && (((#[trigger] t_edges@[kk]).0 == cur && t_edges@[kk].1
                            == b) || (t_edges@[kk].0 == b && t_edges@[kk].1 == cur)));
                }
            }
        }
    }
    proof {
        assert forall|x: usize| #[trigger] frontier.contains(x) implies false by {
            assert(frontier.len() >= 1) by {
                assert(frontier.remove(x).len() == frontier.len() - 1);
            }
        }
    }
}

/// Roots the spanning forest and records, for every non-root node, its parent
/// and the parent's depth; depths are also returned for every node.  The
/// first root is a node of maximum degree in the forest (a heuristic that
/// keeps walks short); remaining components are rooted in index order.
pub fn setup_predecessors(m: usize, t_edges: &Vec<(usize, usize, i64)>) -> (r: (
    Vec<Option<(usize, usize)>>,
    Vec<usize>,
))
    requires
        forall|k: int|
            0 <= k < t_edges@.len() ==> (#[trigger] t_edges@[k]).0 < m && t_edges@[k].1 < m,
    ensures
        pm_wf(r.0@, r.1@, m as nat),
        forall|x: int|
            0 <= x < m ==> match #[trigger] r.0@[x] {
                Some(pd) => linked(t_edges@, x as usize, pd.0),
                None => true,
            },
        forall|a: usize, b: usize|
            a < m && b < m && #[trigger] linked(t_edges@, a, b) ==> root_of(r.0@, r.1@, a)
                == root_of(r.0@, r.1@, b),
        forall|a: usize, b: usize|
            a < m && b < m && #[trigger] connected(t_edges@, a, b) ==> root_of(r.0@, r.1@, a)
                == root_of(r.0@, r.1@, b),
{
    let ne = t_edges.len();
    let mut pm: Vec<Option<(usize, usize)>> = Vec::new();
    let mut depths: Vec<usize> = Vec::new();
    let mut discovered: Vec<bool> = Vec::new();
    for i in 0..m
        invariant
            pm@.len() == i,
            depths@.len() == i,
            discovered@.len() == i,
            forall|x: int| 0 <= x < i ==> (#[trigger] pm@[x]) is None,
            forall|x: int| 0 <= x < i ==> (#[trigger] depths@[x]) == 0,
            forall|x: int| 0 <= x < i ==> !(#[trigger] discovered@[x]),
    {
        pm.push(None);
        depths.push(0);
        discovered.push(false);
    }
    // pick a node of maximum degree as the first root
    let mut start: usize = 0;
    let mut best_deg: usize = 0;
    for v in 0..m
        invariant
            ne == t_edges@.len(),
            m > 0 ==> start < m,
    {
        let mut deg: usize = 0;
        for k in 0..ne
            invariant
                ne == t_edges@.len(),
                deg <= k,
        {
            let e = t_edges[k];
            if e.0 == v || e.1 == v {
                deg = deg + 1;
            }
        }
        if v == 0 || deg > best_deg {
            start = v;
            best_deg = deg;
        }
    }
    let mut cnt: usize = 0;
    proof {
        lemma_popcount_all_unset(discovered@);
        assert(edges_closed(t_edges@, discovered@, m as nat));
        assert(linked_same_root(t_edges@, pm@, depths@, discovered@, m as nat));
    }
    if m > 0 && !discovered[start] {
        explore_component(start, &mut pm, &mut depths, &mut discovered, &mut cnt, t_edges, m);
    }
    for sweep in 0..m
        invariant
            ne == t_edges@.len(),
            forall|k: int|
                0 <= k < t_edges@.len() ==> (#[trigger] t_edges@[k]).0 < m && t_edges@[k].1 < m,
            rooting_wf(pm@, depths@, discovered@, t_edges@, m as nat, cnt as nat),
            edges_closed(t_edges@, discovered@, m as nat),
            linked_same_root(t_edges@, pm@, depths@, discovered@, m as nat),
            forall|x: int| 0 <= x < sweep ==> discovered@[x],
    {
        if !discovered[sweep] {
            explore_component(sweep, &mut pm, &mut depths, &mut discovered, &mut cnt, t_edges, m);
        }
    }
    proof {
        assert(pm_wf(pm@, depths@, m as nat)) by {
            assert forall|x: int| 0 <= x < m implies match #[trigger] pm@[x] {
                Some(pd) => pd.0 < m && depths@[pd.0 as int] == pd.1 && depths@[x] == pd.1 + 1,
                None => depths@[x] == 0,
            } by {
                assert(discovered@[x]);
            }
        }
        assert forall|x: int| 0 <= x < m implies match #[trigger] pm@[x] {
            Some(pd) => linked(t_edges@, x as usize, pd.0),
            None => true,
        } by {
            assert(discovered@[x]);
        }
        assert forall|a: usize, b: usize|
            a < m && b < m && #[trigger] linked(t_edges@, a, b) implies root_of(pm@, depths@, a)
            == root_of(pm@, depths@, b) by {
            assert(discovered@[a as int] && discovered@[b as int]);
        }
        assert forall|a: usize, b: usize|
            a < m && b < m && #[trigger] connected(t_edges@, a, b) implies root_of(
            pm@,
            depths@,
            a,
        ) == root_of(pm@, depths@, b) by {
            let p = choose|p: Seq<usize>|
                #[trigger] is_path(t_edges@, p) && p.first() == a && p.last() == b;
            lemma_connected_same_root(t_edges@, pm@, depths@, m as nat, p);
        }
    }
    (pm, depths)
}

/// Fills bags along tree paths via the rooted tree: builds the predecessor
/// map, then, for every vertex of the input graph, walks the clique-graph
/// nodes whose bag contains it up to their common ancestor, inserting the
/// vertex along the way.  Returns the predecessor map and the node depths.
///
/// Bags only grow.  For every vertex whose bags lie in one tree of the rooted
/// forest, the bags containing it afterwards form a connected subtree: the
/// running-intersection property.
#[verifier::rlimit(100)]
pub fn fill_bags_along_paths_using_structure(
    clique_graph_bags: &mut Vec<VertexSet>,
    t_edges: &Vec<(usize, usize, i64)>,
    n: usize,
    clique_graph_map: &Vec<Vec<usize>>,
) -> (r: (Vec<Option<(usize, usize)>>, Vec<usize>))
    requires
        forall|i: int|
            0 <= i < old(clique_graph_bags)@.len() ==> (#[trigger] old(
                clique_graph_bags,
            )@[i]).n() == n,
        forall|k: int|
            0 <= k < t_edges@.len() ==> (#[trigger] t_edges@[k]).0 < old(
                clique_graph_bags,
            )@.len() && t_edges@[k].1 < old(clique_graph_bags)@.len(),
        clique_graph_map@.len() == n,
        forall|v: int, a: int, b: int|
            0 <= v < n && 0 <= a < b < clique_graph_map@[v]@.len() ==> (
            #[trigger] clique_graph_map@[v]@[a]) < (#[trigger] clique_graph_map@[v]@[b]),
        forall|v: int, a: int|
            0 <= v < n && 0 <= a < clique_graph_map@[v]@.len() ==> (
            #[trigger] clique_graph_map@[v]@[a]) < old(clique_graph_bags)@.len() && old(
                clique_graph_bags,
            )@[clique_graph_map@[v]@[a] as int].has(v),
        forall|v: int, i: int|
            0 <= v < n && 0 <= i < old(clique_graph_bags)@.len() && (#[trigger] old(
                clique_graph_bags,
            )@[i].has(v)) ==> clique_graph_map@[v]@.contains(i as usize),
    ensures
        final(clique_graph_bags)@.len() == old(clique_graph_bags)@.len(),
        forall|i: int|
            0 <= i < old(clique_graph_bags)@.len() ==> (#[trigger] final(clique_graph_bags)@[
                i]).n() == n,
        forall|i: int, w: int|
            0 <= i < old(clique_graph_bags)@.len() && old(clique_graph_bags)@[i].has(w) ==> (
            #[trigger] final(clique_graph_bags)@[i].has(w)),
        forall|i: int, w: int|
            0 <= i < old(clique_graph_bags)@.len() && !(0 <= w < n) ==> ((#[trigger] final(
            clique_graph_bags)@[i].has(w)) == old(clique_graph_bags)@[i].has(w)),
        pm_wf(r.0@, r.1@, old(clique_graph_bags)@.len() as nat),
        forall|x: int|
            0 <= x < old(clique_graph_bags)@.len() ==> match #[trigger] r.0@[x] {
                Some(pd) => linked(t_edges@, x as usize, pd.0),
                None => true,
            },
        forall|a: usize, b: usize|
            a < old(clique_graph_bags)@.len() && b < old(clique_graph_bags)@.len()
                && #[trigger] connected(t_edges@, a, b) ==> root_of(r.0@, r.1@, a) == root_of(
                r.0@,
                r.1@,
                b,
            ),
        forall|v: usize|
            v < n && #[trigger] same_root_for(r.0@, r.1@, old(clique_graph_bags)@, v)
                ==> running_intersection_at(r.0@, r.1@, final(clique_graph_bags)@, v),
{
    let m = clique_graph_bags.len();
    let (pm, depths) = setup_predecessors(m, t_edges);
    for v in 0..n
        invariant
            m == clique_graph_bags@.len(),
            clique_graph_bags@.len() == old(clique_graph_bags)@.len(),
            pm_wf(pm@, depths@, m as nat),
            clique_graph_map@.len() == n,
            forall|i: int|
                0 <= i < m ==> (#[trigger] clique_graph_bags@[i]).n() == n,
            forall|i: int|
                0 <= i < m ==> (#[trigger] old(clique_graph_bags)@[i]).n() == n,
            forall|w: int, a: int, b: int|
                0 <= w < n && 0 <= a < b < clique_graph_map@[w]@.len() ==> (
                #[trigger] clique_graph_map@[w]@[a]) < (#[trigger] clique_graph_map@[w]@[b]),
            forall|w: int, a: int|
                0 <= w < n && 0 <= a < clique_graph_map@[w]@.len() ==> (
                #[trigger] clique_graph_map@[w]@[a]) < m && old(clique_graph_bags)@[
                    clique_graph_map@[w]@[a] as int].has(w),
            forall|w: int, i: int|
                0 <= w < n && 0 <= i < m && (#[trigger] old(clique_graph_bags)@[i].has(w))
                    ==> clique_graph_map@[w]@.contains(i as usize),
            // vertices not yet walked are untouched
            forall|i: int, w: int|
                0 <= i < m && !(0 <= w < v) ==> ((#[trigger] clique_graph_bags@[i].has(w)) == old(
                    clique_graph_bags,
                )@[i].has(w)),
            // bags only grow
            forall|i: int, w: int|
                0 <= i < m && old(clique_graph_bags)@[i].has(w) ==> (
                #[trigger] clique_graph_bags@[i].has(w)),
            // walked vertices already enjoy the running-intersection property
            forall|w: usize|
                w < v && #[trigger] same_root_for(pm@, depths@, old(clique_graph_bags)@, w)
                    ==> running_intersection_at(pm@, depths@, clique_graph_bags@, w),
    {
        let ghost bags_before = clique_graph_bags@;
        proof {
            assert forall|k: int|
                0 <= k < clique_graph_map@[v as int]@.len() implies (
            #[trigger] clique_graph_map@[v as int]@[k]) < m && clique_graph_bags@[
                clique_graph_map@[v as int]@[k] as int].has(v as int) by {
                assert(old(clique_graph_bags)@[clique_graph_map@[v as int]@[k] as int].has(
                    v as int,
                ));
            }
            assert forall|x: usize|
                x < m && (#[trigger] clique_graph_bags@[x as int].has(
                    v as int,
                )) implies clique_graph_map@[v as int]@.contains(x) by {
                assert(old(clique_graph_bags)@[x as int].has(v as int));
            }
        }
        fill_bags_until_common_predecessor(clique_graph_bags, &pm, &depths, v, &clique_graph_map[v]);
        proof {
            // the walk at v left every other vertex's bags alone, so the
            // conclusions of earlier walks carry over
            assert forall|w: usize|
                w < v + 1 && #[trigger] same_root_for(pm@, depths@, old(clique_graph_bags)@, w)
                    implies running_intersection_at(pm@, depths@, clique_graph_bags@, w) by {
                if w < v {
                    assert(running_intersection_at(pm@, depths@, bags_before, w));
                    let hub = choose|hub: usize|
                        #[trigger] v_nodes_rooted(pm@, depths@, bags_before, w, hub);
                    assert forall|x: usize|
                        x < clique_graph_bags@.len() && (#[trigger] clique_graph_bags@[
                            x as int].has(w as int)) implies climbs_to(
                        pm@,
                        depths@,
                        clique_graph_bags@,
                        w,
                        x,
                        hub,
                    ) by {
                        assert(bags_before[x as int].has(w as int));
                        assert(climbs_to(pm@, depths@, bags_before, w, x, hub));
                        lemma_climb_agree(
                            pm@,
                            depths@,
                            bags_before,
                            clique_graph_bags@,
                            w,
                            x,
                            hub,
                            m as nat,
                        );
                    }
                    assert(v_nodes_rooted(pm@, depths@, clique_graph_bags@, w, hub));
                } else {
                    // the walk's own guarantee, transported to the hypothesis
                    // over the bags at entry of this function
                    assert(same_root_for(pm@, depths@, bags_before, w)) by {
                        assert forall|a: usize, b: usize|
                            a < bags_before.len() && b < bags_before.len() && (
                            #[trigger] bags_before[a as int].has(w as int)) && (
                            #[trigger] bags_before[b as int].has(w as int)) implies root_of(
                            pm@,
                            depths@,
                            a,
                        ) == root_of(pm@, depths@, b) by {
                            assert(old(clique_graph_bags)@[a as int].has(w as int));
                            assert(old(clique_graph_bags)@[b as int].has(w as int));
                        }
                    }
                    assert(running_intersection_at(pm@, depths@, clique_graph_bags@, w));
                }
            }
        }
    }
    (pm, depths)
}


/// Two distinct bags hold `w`.
pub open spec fn two_bags_share(bags: Seq<VertexSet>, w: int) -> bool {
    exists|a: int, b: int|
        0 <= a < bags.len() && 0 <= b < bags.len() && a != b && (#[trigger] bags[a].has(w)) && (
        #[trigger] bags[b].has(w))
}

/// Some walk from `a` to `b` along the forest has `w` in every bag it meets
/// after the start.
pub open spec fn path_filled(
    es: Seq<(usize, usize, i64)>,
    bags: Seq<VertexSet>,
    a: usize,
    b: usize,
    w: int,
) -> bool {
    exists|p: Seq<usize>|
        #[trigger] is_path(es, p) && p.first() == a && p.last() == b && (forall|k: int|
            0 <= k < p.len() ==> (#[trigger] p[k]) < bags.len()) && (forall|k: int|
            1 <= k < p.len() ==> bags[(#[trigger] p[k]) as int].has(w))
}


/// Every vertex the two entry bags share has been pushed along some walk
/// between them, wherever one exists.
pub open spec fn pair_filled_now(
    es: Seq<(usize, usize, i64)>,
    old_bags: Seq<VertexSet>,
    bags: Seq<VertexSet>,
    a: usize,
    b: usize,
) -> bool {
    forall|w: int|
        (#[trigger] old_bags[a as int].has(w)) && (#[trigger] old_bags[b as int].has(w))
            && connected(es, a, b) ==> path_filled(es, bags, a, b, w)
}

/// A filled walk stays filled when bags only grow.
proof fn lemma_path_filled_monotone(
    es: Seq<(usize, usize, i64)>,
    bags1: Seq<VertexSet>,
    bags2: Seq<VertexSet>,
    a: usize,
    b: usize,
    w: int,
)
    requires
        path_filled(es, bags1, a, b, w),
        bags2.len() == bags1.len(),
        forall|i: int| 0 <= i < bags1.len() && bags1[i].has(w) ==> (#[trigger] bags2[i].has(w)),
    ensures
        path_filled(es, bags2, a, b, w),
{
    let p = choose|p: Seq<usize>|
        #[trigger] is_path(es, p) && p.first() == a && p.last() == b && (forall|k: int|
            0 <= k < p.len() ==> (#[trigger] p[k]) < bags1.len()) && (forall|k: int|
            1 <= k < p.len() ==> bags1[(#[trigger] p[k]) as int].has(w));
    assert forall|k: int| 1 <= k < p.len() implies bags2[(#[trigger] p[k]) as int].has(w) by {
        assert(bags1[p[k] as int].has(w));
    }
}

/// Fills bags along tree paths pair by pair: for every two bags that share
/// vertices, their current intersection is inserted into every interior bag
/// of the connecting tree path (the endpoints already contain it).  Bags only
/// grow, and no vertex appears that no original bag held.
#[verifier::rlimit(100)]
pub fn fill_bags_along_paths(
    clique_graph_bags: &mut Vec<VertexSet>,
    t_edges: &Vec<(usize, usize, i64)>,
    n: usize,
)
    requires
        forall|i: int|
            0 <= i < old(clique_graph_bags)@.len() ==> (#[trigger] old(
                clique_graph_bags,
            )@[i]).n() == n,
        forall|k: int|
            0 <= k < t_edges@.len() ==> (#[trigger] t_edges@[k]).0 < old(
                clique_graph_bags,
            )@.len() && t_edges@[k].1 < old(clique_graph_bags)@.len(),
    ensures
        final(clique_graph_bags)@.len() == old(clique_graph_bags)@.len(),
        forall|i: int|
            0 <= i < old(clique_graph_bags)@.len() ==> (#[trigger] final(clique_graph_bags)@[
                i]).n() == n,
        forall|i: int, w: int|
            0 <= i < old(clique_graph_bags)@.len() && old(clique_graph_bags)@[i].has(w) ==> (
            #[trigger] final(clique_graph_bags)@[i].has(w)),
        forall|i: int, w: int|
            0 <= i < old(clique_graph_bags)@.len() && (#[trigger] final(clique_graph_bags)@[
                i].has(w)) ==> old(clique_graph_bags)@[i].has(w) || two_bags_share(
                old(clique_graph_bags)@,
                w,
            ),
        forall|a: usize, b: usize, w: int|
            a < b && b < old(clique_graph_bags)@.len() && (#[trigger] old(clique_graph_bags)@[
                a as int].has(w)) && (#[trigger] old(clique_graph_bags)@[b as int].has(w))
                && connected(t_edges@, a, b) ==> path_filled(
                t_edges@,
                final(clique_graph_bags)@,
                a,
                b,
                w,
            ),
{
    let m = clique_graph_bags.len();
    for a in 0..m
        invariant
            m == clique_graph_bags@.len(),
            clique_graph_bags@.len() == old(clique_graph_bags)@.len(),
            forall|k: int|
                0 <= k < t_edges@.len() ==> (#[trigger] t_edges@[k]).0 < m && t_edges@[k].1 < m,
            forall|i: int|
                0 <= i < m ==> (#[trigger] clique_graph_bags@[i]).n() == n,
            forall|i: int, w: int|
                0 <= i < m && old(clique_graph_bags)@[i].has(w) ==> (#[trigger] clique_graph_bags@[
                    i].has(w)),
            forall|i: int, w: int|
                0 <= i < m && (#[trigger] clique_graph_bags@[i].has(w)) ==> old(
                    clique_graph_bags,
                )@[i].has(w) || two_bags_share(old(clique_graph_bags)@, w),
            forall|x: usize, y: usize, w: int|
                x < y && y < m && x < a && (#[trigger] old(clique_graph_bags)@[x as int].has(w))
                    && (#[trigger] old(clique_graph_bags)@[y as int].has(w)) && connected(
                    t_edges@,
                    x,
                    y,
                ) ==> path_filled(t_edges@, clique_graph_bags@, x, y, w),
    {
        for b in (a + 1)..m
            invariant
                m == clique_graph_bags@.len(),
                clique_graph_bags@.len() == old(clique_graph_bags)@.len(),
                a < m,
                forall|k: int|
                    0 <= k < t_edges@.len() ==> (#[trigger] t_edges@[k]).0 < m && t_edges@[k].1
                        < m,
                forall|i: int|
                    0 <= i < m ==> (#[trigger] clique_graph_bags@[i]).n() == n,
                forall|i: int, w: int|
                    0 <= i < m && old(clique_graph_bags)@[i].has(w) ==> (
                    #[trigger] clique_graph_bags@[i].has(w)),
                forall|i: int, w: int|
                    0 <= i < m && (#[trigger] clique_graph_bags@[i].has(w)) ==> old(
                        clique_graph_bags,
                    )@[i].has(w) || two_bags_share(old(clique_graph_bags)@, w),
                forall|x: usize, y: usize, w: int|
                    x < y && y < m && x < a && (#[trigger] old(clique_graph_bags)@[x as int].has(
                        w,
                    )) && (#[trigger] old(clique_graph_bags)@[y as int].has(w)) && connected(
                        t_edges@,
                        x,
                        y,
                    ) ==> path_filled(t_edges@, clique_graph_bags@, x, y, w),
                forall|y: usize, w: int|
                    (a as usize) < y && y < m && y < b && (#[trigger] old(clique_graph_bags)@[
                        a as int].has(w)) && (#[trigger] old(clique_graph_bags)@[y as int].has(
                        w,
                    )) && connected(t_edges@, a as usize, y) ==> path_filled(
                        t_edges@,
                        clique_graph_bags@,
                        a as usize,
                        y,
                        w,
                    ),
        {
            let ghost bags_pair0 = clique_graph_bags@;
            let share = clique_graph_bags[a].intersects(&clique_graph_bags[b]);
            if share {
                let inter = clique_graph_bags[a].intersect(&clique_graph_bags[b]);
                proof {
                    assert forall|w: int| #[trigger] inter.has(w) implies two_bags_share(
                        old(clique_graph_bags)@,
                        w,
                    ) by {
                        assert(clique_graph_bags@[a as int].has(w));
                        assert(clique_graph_bags@[b as int].has(w));
                        if old(clique_graph_bags)@[a as int].has(w) && old(clique_graph_bags)@[
                            b as int].has(w) {
                            assert(two_bags_share(old(clique_graph_bags)@, w));
                        }
                    }
                }
                if let Some(path) = find_path_in_tree(m, t_edges, a, b) {
                    let plen = path.len();
                    let mut idx: usize = 1;
                    while idx < plen && idx + 1 < plen
                        invariant
                            m == clique_graph_bags@.len(),
                            clique_graph_bags@.len() == old(clique_graph_bags)@.len(),
                            plen == path@.len(),
                            inter.n() == n,
                            forall|k: int| 0 <= k < path@.len() ==> (#[trigger] path@[k]) < m,
                            forall|w: int|
                                #[trigger] inter.has(w) ==> two_bags_share(
                                    old(clique_graph_bags)@,
                                    w,
                                ),
                            forall|i: int|
                                0 <= i < m ==> (#[trigger] clique_graph_bags@[i]).n() == n,
                            forall|i: int, w: int|
                                0 <= i < m && old(clique_graph_bags)@[i].has(w) ==> (
                                #[trigger] clique_graph_bags@[i].has(w)),
                            forall|i: int, w: int|
                                0 <= i < m && bags_pair0[i].has(w) ==> (
                                #[trigger] clique_graph_bags@[i].has(w)),
                            forall|i: int, w: int|
                                0 <= i < m && (#[trigger] clique_graph_bags@[i].has(w)) ==> old(
                                    clique_graph_bags,
                                )@[i].has(w) || two_bags_share(old(clique_graph_bags)@, w),
                            forall|k: int, w: int|
                                1 <= k < idx && #[trigger] inter.has(w) ==> clique_graph_bags@[(
                                #[trigger] path@[k]) as int].has(w),
                            idx >= 1,
                        decreases plen - idx,
                    {
                        let node = path[idx];
                        clique_graph_bags[node].extend_from(&inter);
                        idx = idx + 1;
                    }
                    proof {
                        assert forall|w: int|
                            (#[trigger] old(clique_graph_bags)@[a as int].has(w)) && (
                            #[trigger] old(clique_graph_bags)@[b as int].has(w)) && connected(
                            t_edges@,
                            a,
                            b,
                        ) implies path_filled(t_edges@, clique_graph_bags@, a, b, w) by {
                            assert(bags_pair0[a as int].has(w) && bags_pair0[b as int].has(w));
                            assert(inter.has(w));
                            assert forall|k: int|
                                1 <= k < path@.len() implies clique_graph_bags@[(
                            #[trigger] path@[k]) as int].has(w) by {
                                if k == path@.len() - 1 {
                                    assert(path@[k] == b);
                                    assert(clique_graph_bags@[b as int].has(w));
                                }
                            }
                            assert(is_path(t_edges@, path@) && path@.first() == a
                                && path@.last() == b);
                        }
                        assert(pair_filled_now(
                            t_edges@,
                            old(clique_graph_bags)@,
                            clique_graph_bags@,
                            a,
                            b,
                        ));
                    }
                } else {
                    proof {
                        assert forall|w: int|
                            (#[trigger] old(clique_graph_bags)@[a as int].has(w)) && (
                            #[trigger] old(clique_graph_bags)@[b as int].has(w)) && connected(
                            t_edges@,
                            a,
                            b,
                        ) implies path_filled(t_edges@, clique_graph_bags@, a, b, w) by {
                            assert(false);
                        }
                        assert(pair_filled_now(
                            t_edges@,
                            old(clique_graph_bags)@,
                            clique_graph_bags@,
                            a,
                            b,
                        ));
                    }
                }
            } else {
                proof {
                    assert forall|w: int|
                        (#[trigger] old(clique_graph_bags)@[a as int].has(w)) && (
                        #[trigger] old(clique_graph_bags)@[b as int].has(w)) && connected(
                        t_edges@,
                        a,
                        b,
                    ) implies path_filled(t_edges@, clique_graph_bags@, a, b, w) by {
                        assert(clique_graph_bags@[a as int].has(w));
                        assert(clique_graph_bags@[b as int].has(w));
                        assert(false);
                    }
                    assert(pair_filled_now(
                        t_edges@,
                        old(clique_graph_bags)@,
                        clique_graph_bags@,
                        a,
                        b,
                    ));
                }
            }
            proof {
                assert(pair_filled_now(
                    t_edges@,
                    old(clique_graph_bags)@,
                    clique_graph_bags@,
                    a,
                    b,
                ));
                assert forall|x: usize, y: usize, w: int|
                    x < y && y < m && (x < a || (x == a && y < b + 1)) && (#[trigger] old(
                        clique_graph_bags,
                    )@[x as int].has(w)) && (#[trigger] old(clique_graph_bags)@[y as int].has(w))
                        && connected(t_edges@, x, y) implies path_filled(
                    t_edges@,
                    clique_graph_bags@,
                    x,
                    y,
                    w,
                ) by {
                    if x < a || y < b {
                        assert(path_filled(t_edges@, bags_pair0, x, y, w));
                        lemma_path_filled_monotone(t_edges@, bags_pair0, clique_graph_bags@, x, y, w);
                    }
                }
            }
        }
    }
}

} // verus!
