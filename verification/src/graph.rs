//! A simple undirected, loop-free graph on the vertices `0 .. n`, stored as a
//! symmetric adjacency matrix.

use vstd::prelude::*;

verus! {

/// Undirected graph.  `adj[u][v]` holds exactly when `{u, v}` is an edge.
pub struct Graph {
    pub adj: Vec<Vec<bool>>,
}

impl Graph {
    /// Number of vertices.
    pub open spec fn n(self) -> nat {
        self.adj@.len()
    }

    /// Well-formedness: the matrix is square, symmetric and loop-free.
    pub open spec fn wf(self) -> bool {
        &&& forall|i: int|
            0 <= i < self.n() ==> (#[trigger] self.adj@[i])@.len() == self.n()
        &&& forall|u: int, v: int|
            0 <= u < self.n() && 0 <= v < self.n() ==> (#[trigger] self.adj@[u]@[v])
                == self.adj@[v]@[u]
        &&& forall|u: int| 0 <= u < self.n() ==> !(#[trigger] self.adj@[u]@[u])
    }

    /// The edge relation.
    pub open spec fn edge(self, u: int, v: int) -> bool {
        &&& 0 <= u < self.n()
        &&& 0 <= v < self.n()
        &&& self.adj@[u]@[v]
    }

    /// Creates a graph with `n` vertices and no edges.
    pub fn new(n: usize) -> (g: Graph)
        ensures
            g.wf(),
            g.n() == n,
            forall|u: int, v: int| !g.edge(u, v),
    {
        let mut adj: Vec<Vec<bool>> = Vec::new();
        for i in 0..n
            invariant
                adj@.len() == i,
                forall|a: int|
                    0 <= a < i ==> (#[trigger] adj@[a])@.len() == n,
                forall|a: int, b: int|
                    0 <= a < i && 0 <= b < n ==> !(#[trigger] adj@[a]@[b]),
        {
            let mut row: Vec<bool> = Vec::new();
            for j in 0..n
                invariant
                    row@.len() == j,
                    forall|b: int| 0 <= b < j ==> !(#[trigger] row@[b]),
            {
                row.push(false);
            }
            adj.push(row);
        }
        Graph { adj }
    }

    /// Number of vertices.
    pub fn vertex_count(&self) -> (r: usize)
        ensures
            r == self.n(),
    {
        self.adj.len()
    }

    /// Whether `{u, v}` is an edge.
    pub fn has_edge(&self, u: usize, v: usize) -> (r: bool)
        requires
            self.wf(),
            u < self.n(),
            v < self.n(),
        ensures
            r == self.edge(u as int, v as int),
    {
        self.adj[u][v]
    }

    /// Inserts the edge `{u, v}`.
    pub fn add_edge(&mut self, u: usize, v: usize)
        requires
            old(self).wf(),
            u < old(self).n(),
            v < old(self).n(),
            u != v,
        ensures
            final(self).wf(),
            final(self).n() == old(self).n(),
            forall|a: int, b: int|
                #[trigger] final(self).edge(a, b) == (old(self).edge(a, b) || (a == u && b == v)
                    || (a == v && b == u)),
    {
        self.adj[u][v] = true;
        self.adj[v][u] = true;
    }

    /// Removes the edge `{u, v}`.
    pub fn remove_edge(&mut self, u: usize, v: usize)
        requires
            old(self).wf(),
            u < old(self).n(),
            v < old(self).n(),
            u != v,
        ensures
            final(self).wf(),
            final(self).n() == old(self).n(),
            forall|a: int, b: int|
                #[trigger] final(self).edge(a, b) == (old(self).edge(a, b) && !(a == u && b == v)
                    && !(a == v && b == u)),
    {
        self.adj[u][v] = false;
        self.adj[v][u] = false;
    }
}

} // verus!
