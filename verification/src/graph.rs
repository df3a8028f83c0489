//! The graph itself: construction, edge insertion, and the basic metrics.
use vstd::prelude::*;
use crate::adjacency::{
    degrees, edgeless, greatest, has_edge, insert_edge, least, lemma_insert_edge_degrees,
    lemma_insert_edge_lists, lemma_insert_edge_simple, lemma_lists, lemma_prefix_sums,
    lemma_sum_zeros, simple_graph, sum, sum_of_squares, zagreb,
};

verus! {

/// Why an edge or a vertex was rejected.
#[derive(Clone, Copy, Debug, PartialEq, Eq, Structural)]
pub enum GraphError {
    /// A vertex id is not below the vertex count.
    InvalidVertex,
    /// Both ends of an edge are the same vertex.
    SelfLoop,
}

impl GraphError {
    /// The text of the message for each error.
    pub open spec fn spec_message(self) -> Seq<char> {
        match self {
            GraphError::InvalidVertex => "Vertex index out of bounds"@,
            GraphError::SelfLoop => "Self-loops are not allowed"@,
        }
    }

    /// A short message that names the error.
    pub fn message(&self) -> (text: &'static str)
        ensures
            text@ == self.spec_message(),
    {
        match self {
            GraphError::InvalidVertex => "Vertex index out of bounds",
            GraphError::SelfLoop => "Self-loops are not allowed",
        }
    }
}

/// A simple undirected graph on the vertices `0..n`, stored as adjacency lists.
#[derive(Clone, Debug)]
pub struct Graph {
    pub(crate) adj: Vec<Vec<usize>>,
    pub(crate) n_edges: usize,
}

impl View for Graph {
    type V = Seq<Seq<usize>>;

    /// The adjacency lists.
    open(crate) spec fn view(&self) -> Seq<Seq<usize>> {
        self.adj.deep_view()
    }
}

impl Graph {
    /// The number of edges the graph records.
    pub open(crate) spec fn spec_edge_count(&self) -> nat {
        self.n_edges as nat
    }

    /// The number of vertices.
    pub open spec fn spec_vertex_count(&self) -> nat {
        self@.len()
    }

    /// The number of neighbours of `v`.
    pub open spec fn spec_degree(&self, v: usize) -> nat
        recommends
            v < self@.len(),
    {
        self@[v as int].len()
    }

    /// Validity: the lists describe a simple undirected graph, and the edge
    /// count is half the sum of the degrees.
    pub open spec fn wf(&self) -> bool {
        &&& simple_graph(self@)
        &&& 2 * self.spec_edge_count() == sum(degrees(self@))
    }

    /// Create a graph with `n` vertices and no edges.
    pub fn new(n: usize) -> (g: Graph)
        ensures
            g.wf(),
            g@ == edgeless(n as nat),
            g.spec_edge_count() == 0,
            g.spec_first_zagreb_index() == 0,
    {
        let mut adj: Vec<Vec<usize>> = Vec::new();
        let mut i: usize = 0;
        while i < n
            invariant
                i <= n,
                adj.deep_view() == edgeless(i as nat),
            decreases n - i,
        {
            let ghost before = adj;
            adj.push(Vec::new());
            i += 1;
            proof {
                lemma_lists(before);
                lemma_lists(adj);
                assert forall|j: int| 0 <= j < i implies adj.deep_view()[j] == edgeless(
                    i as nat,
                )[j] by {
                    if j < i - 1 {
                        assert(adj[j] == before[j]);
                        assert(before.deep_view()[j] == edgeless((i - 1) as nat)[j]);
                    }
                }
                assert(adj.deep_view() =~= edgeless(i as nat));
            }
        }
        let g = Graph { adj, n_edges: 0 };
        proof {
            lemma_sum_zeros(degrees(g@));
        }
        g
    }

    /// The outcome of linking `u` and `v` in a graph on `n` vertices: a vertex
    /// out of range is reported first, then a self-loop.
    pub open spec fn link_outcome(n: nat, u: usize, v: usize) -> Result<(), GraphError> {
        if u >= n || v >= n {
            Err(GraphError::InvalidVertex)
        } else if u == v {
            Err(GraphError::SelfLoop)
        } else {
            Ok(())
        }
    }

    /// Whether linking `u` and `v` adds an edge: both are vertices, they
    /// differ, and they are not linked yet.
    pub open spec fn adds_edge(&self, u: usize, v: usize) -> bool {
        Self::link_outcome(self@.len(), u, v).is_ok() && !has_edge(self@, u, v)
    }

    /// Add the edge between `u` and `v`. An edge that is already there is
    /// accepted and changes nothing; a rejected edge changes nothing either.
    /// Where the call adds an edge, the edge count must be able to grow.
    pub fn add_edge(&mut self, u: usize, v: usize) -> (r: Result<(), GraphError>)
        requires
            old(self).wf(),
            old(self).adds_edge(u, v) ==> old(self).spec_edge_count() < usize::MAX,
        ensures
            final(self).wf(),
            r == Self::link_outcome(old(self)@.len(), u, v),
            final(self)@ == insert_edge(old(self)@, u, v),
            final(self).spec_edge_count() == old(self).spec_edge_count() + if old(self).adds_edge(
                u,
                v,
            ) {
                1nat
            } else {
                0nat
            },
            r.is_ok() ==> has_edge(final(self)@, u, v) && has_edge(final(self)@, v, u),
            final(self).spec_first_zagreb_index() == old(self).spec_first_zagreb_index()
                + if old(self).adds_edge(u, v) {
                2 * old(self).spec_degree(u) + 2 * old(self).spec_degree(v) + 2
            } else {
                0
            },
    {
        let n = self.adj.len();
        if u >= n || v >= n {
            return Err(GraphError::InvalidVertex);
        }
        if u == v {
            return Err(GraphError::SelfLoop);
        }
        proof {
            lemma_lists(self.adj);
        }
        if list_contains(&self.adj[u], v) {
            assert(has_edge(self@, u, v));
            assert(has_edge(self@, v, u));
            return Ok(());
        }
        let ghost before = self.adj;
        self.adj[u].push(v);
        self.adj[v].push(u);
        self.n_edges += 1;
        proof {
            lemma_lists(before);
            lemma_lists(self.adj);
            lemma_insert_edge_lists(old(self)@, u, v);
            assert(self@ =~= insert_edge(old(self)@, u, v));
            lemma_insert_edge_simple(old(self)@, u, v);
            lemma_insert_edge_degrees(old(self)@, u, v);
            assert(self@[u as int].last() == v);
            assert(self@[v as int].last() == u);
        }
        Ok(())
    }

    /// The number of vertices.
    pub fn vertex_count(&self) -> (n: usize)
        ensures
            n == self.spec_vertex_count(),
    {
        self.adj.len()
    }

    /// The number of edges.
    pub fn edge_count(&self) -> (e: usize)
        ensures
            e == self.spec_edge_count(),
    {
        self.n_edges
    }

    /// The degree of vertex `v`, or `InvalidVertex` when `v` is no vertex.
    pub fn degree(&self, v: usize) -> (r: Result<usize, GraphError>)
        ensures
            v < self.spec_vertex_count() ==> r == Ok::<usize, GraphError>(self.spec_degree(v) as usize),
            v >= self.spec_vertex_count() ==> r == Err::<usize, GraphError>(GraphError::InvalidVertex),
    {
        if v >= self.adj.len() {
            return Err(GraphError::InvalidVertex);
        }
        proof {
            lemma_lists(self.adj);
        }
        Ok(self.adj[v].len())
    }

    /// The first Zagreb index: the sum of the squared degrees.
    pub open spec fn spec_first_zagreb_index(&self) -> nat {
        zagreb(self@)
    }

    /// The least degree, 0 for a graph without vertices.
    pub open spec fn spec_min_degree(&self) -> nat {
        least(degrees(self@))
    }

    /// The greatest degree, 0 for a graph without vertices.
    pub open spec fn spec_max_degree(&self) -> nat {
        greatest(degrees(self@))
    }

    /// The first Zagreb index. The index has to fit the machine word.
    pub fn first_zagreb_index(&self) -> (z: usize)
        requires
            self.spec_first_zagreb_index() <= usize::MAX,
        ensures
            z == self.spec_first_zagreb_index(),
    {
        let ghost ds = degrees(self@);
        let n = self.adj.len();
        let mut total: usize = 0;
        let mut v: usize = 0;
        proof {
            lemma_lists(self.adj);
        }
        while v < n
            invariant
                v <= n,
                n == self.adj.len(),
                ds == degrees(self@),
                ds.len() == n,
                forall|i: int| 0 <= i < n ==> #[trigger] self@[i] == self.adj[i]@,
                total == sum_of_squares(ds.take(v as int)),
                sum_of_squares(ds) <= usize::MAX,
            decreases n - v,
        {
            proof {
                lemma_prefix_sums(ds, v as int);
                lemma_prefix_sums(ds, v + 1);
                assert(self@[v as int] == self.adj[v as int]@);
            }
            let d = self.adj[v].len();
            assert(d == ds[v as int]);
            assert(total + d * d <= usize::MAX);
            assert(d * d <= usize::MAX) by (nonlinear_arith)
                requires
                    total + d * d <= usize::MAX,
                    total >= 0,
            ;
            total = total + d * d;
            v += 1;
        }
        assert(ds.take(n as int) =~= ds);
        total
    }

    /// The first Zagreb index, or `None` where it does not fit the machine word.
    pub fn checked_first_zagreb_index(&self) -> (r: Option<usize>)
        ensures
            match r {
                Some(z) => z == self.spec_first_zagreb_index(),
                None => self.spec_first_zagreb_index() > usize::MAX,
            },
    {
        let ghost ds = degrees(self@);
        let n = self.adj.len();
        let mut total: usize = 0;
        let mut v: usize = 0;
        proof {
            lemma_lists(self.adj);
        }
        while v < n
            invariant
                v <= n,
                n == self.adj.len(),
                ds == degrees(self@),
                ds.len() == n,
                forall|i: int| 0 <= i < n ==> #[trigger] self@[i] == self.adj[i]@,
                total == sum_of_squares(ds.take(v as int)),
            decreases n - v,
        {
            proof {
                lemma_prefix_sums(ds, v as int);
                lemma_prefix_sums(ds, v + 1);
                assert(self@[v as int] == self.adj[v as int]@);
            }
            let d = self.adj[v].len();
            let next = match d.checked_mul(d) {
                Some(square) => total.checked_add(square),
                None => None,
            };
            match next {
                Some(sum) => {
                    total = sum;
                },
                None => {
                    assert(total + d * d > usize::MAX) by (nonlinear_arith)
                        requires
                            d * d > usize::MAX || total + d * d > usize::MAX,
                            total >= 0,
                    ;
                    return None;
                },
            }
            v += 1;
        }
        assert(ds.take(n as int) =~= ds);
        Some(total)
    }

    /// The neighbours of `v` in the order in which their edges were added,
    /// or `InvalidVertex` when `v` is no vertex.
    pub fn neighbors(&self, v: usize) -> (r: Result<Vec<usize>, GraphError>)
        ensures
            match r {
                Ok(list) => v < self.spec_vertex_count() && list@ == self@[v as int],
                Err(e) => v >= self.spec_vertex_count() && e == GraphError::InvalidVertex,
            },
    {
        if v >= self.adj.len() {
            return Err(GraphError::InvalidVertex);
        }
        proof {
            lemma_lists(self.adj);
        }
        let list = &self.adj[v];
        let mut copy: Vec<usize> = Vec::new();
        let mut i: usize = 0;
        while i < list.len()
            invariant
                i <= list.len(),
                copy@ == list@.take(i as int),
            decreases list.len() - i,
        {
            copy.push(list[i]);
            i += 1;
            assert(copy@ =~= list@.take(i as int));
        }
        assert(list@.take(list.len() as int) =~= list@);
        Ok(copy)
    }

    /// The least degree over all vertices, 0 for a graph without vertices.
    pub fn min_degree(&self) -> (d: usize)
        ensures
            d == self.spec_min_degree(),
    {
        let ghost ds = degrees(self@);
        let n = self.adj.len();
        proof {
            lemma_lists(self.adj);
        }
        if n == 0 {
            return 0;
        }
        let mut best: usize = self.adj[0].len();
        let mut v: usize = 1;
        assert(ds.take(1).drop_last() =~= Seq::<nat>::empty());
        while v < n
            invariant
                1 <= v <= n,
                n == self.adj.len(),
                ds == degrees(self@),
                ds.len() == n,
                forall|i: int| 0 <= i < n ==> #[trigger] self@[i] == self.adj[i]@,
                best == least(ds.take(v as int)),
            decreases n - v,
        {
            let d = self.adj[v].len();
            proof {
                assert(ds.take(v + 1).drop_last() =~= ds.take(v as int));
                assert(ds.take(v + 1).last() == ds[v as int]);
                assert(self@[v as int] == self.adj[v as int]@);
            }
            if d < best {
                best = d;
            }
            v += 1;
        }
        assert(ds.take(n as int) =~= ds);
        best
    }

    /// The greatest degree over all vertices, 0 for a graph without vertices.
    pub fn max_degree(&self) -> (d: usize)
        ensures
            d == self.spec_max_degree(),
    {
        let ghost ds = degrees(self@);
        let n = self.adj.len();
        proof {
            lemma_lists(self.adj);
        }
        let mut best: usize = 0;
        let mut v: usize = 0;
        while v < n
            invariant
                v <= n,
                n == self.adj.len(),
                ds == degrees(self@),
                ds.len() == n,
                forall|i: int| 0 <= i < n ==> #[trigger] self@[i] == self.adj[i]@,
                best == greatest(ds.take(v as int)),
            decreases n - v,
        {
            let d = self.adj[v].len();
            proof {
                assert(ds.take(v + 1).drop_last() =~= ds.take(v as int));
                assert(ds.take(v + 1).last() == ds[v as int]);
                assert(self@[v as int] == self.adj[v as int]@);
            }
            if d > best {
                best = d;
            }
            v += 1;
        }
        assert(ds.take(n as int) =~= ds);
        best
    }
}

/// Whether `x` occurs in `list`.
pub(crate) fn list_contains(list: &Vec<usize>, x: usize) -> (found: bool)
    ensures
        found == list@.contains(x),
{
    let mut i: usize = 0;
    while i < list.len()
        invariant
            i <= list.len(),
            forall|j: int| 0 <= j < i ==> list@[j] != x,
        decreases list.len() - i,
    {
        if list[i] == x {
            return true;
        }
        i += 1;
    }
    false
}

} // verus!
