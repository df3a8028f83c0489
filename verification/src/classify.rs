//! Recognition of graph shapes by their degree signature: complete graphs,
//! cycles, paths, stars, and cubic graphs of girth five on ten vertices.
use vstd::prelude::*;
use crate::adjacency::{
    closed_lists, count_of, degrees, greatest, has_edge, least, lemma_lists, lemma_prefix_sums,
    sum,
};
use crate::graph::{list_contains, Graph};

verus! {

/// The number of edges of a simple graph: half the sum of its degrees.
pub open spec fn edges_of(adj: Seq<Seq<usize>>) -> nat {
    sum(degrees(adj)) / 2
}

/// Every vertex has degree `n - 1` and there are `n (n - 1) / 2` edges; a
/// graph with at most one vertex counts as complete.
pub open spec fn complete(adj: Seq<Seq<usize>>) -> bool {
    let n = adj.len();
    n <= 1 || ((forall|v: int| 0 <= v < n ==> (#[trigger] adj[v]).len() == n - 1) && edges_of(adj)
        == n * (n - 1) / 2)
}

/// Least and greatest degree are 2 and there are as many edges as vertices.
/// Nothing is asked about the graph being in one piece.
pub open spec fn cycle(adj: Seq<Seq<usize>>) -> bool {
    least(degrees(adj)) == 2 && greatest(degrees(adj)) == 2 && edges_of(adj) == adj.len()
}

/// There are `n - 1` edges, two vertices of degree 1 and `n - 2` of degree 2.
/// Nothing is asked about the graph being in one piece.
pub open spec fn path(adj: Seq<Seq<usize>>) -> bool {
    let n = adj.len();
    edges_of(adj) == n - 1 && count_of(degrees(adj), 1) == 2 && count_of(degrees(adj), 2) == n - 2
}

/// There are at least two vertices, one of degree `n - 1` and `n - 1` of degree 1.
pub open spec fn star(adj: Seq<Seq<usize>>) -> bool {
    let n = adj.len();
    n > 1 && count_of(degrees(adj), 1) == n - 1 && count_of(degrees(adj), (n - 1) as nat) == 1
}

/// `v` and `w` are two neighbours of `u` that are neighbours of each other.
pub open spec fn triangle(adj: Seq<Seq<usize>>, u: usize, v: usize, w: usize) -> bool {
    has_edge(adj, u, v) && has_edge(adj, u, w) && v != w && has_edge(adj, v, w)
}

/// `x` is a neighbour of `w` other than `v` and `u` that has `u` as a neighbour.
pub open spec fn closing(adj: Seq<Seq<usize>>, u: usize, v: usize, w: usize, x: usize) -> bool {
    has_edge(adj, w, x) && x != v && x != u && has_edge(adj, x, u)
}

/// `w` is a neighbour of `v` other than `u`, and `x` leads from `w` back to `u`.
pub open spec fn turning(adj: Seq<Seq<usize>>, u: usize, v: usize, w: usize, x: usize) -> bool {
    has_edge(adj, v, w) && w != u && closing(adj, u, v, w, x)
}

/// `u v w x` is a closed walk of length four that turns back neither at `v`
/// nor at `w` and does not pass `u` on the way.
pub open spec fn square(adj: Seq<Seq<usize>>, u: usize, v: usize, w: usize, x: usize) -> bool {
    has_edge(adj, u, v) && turning(adj, u, v, w, x)
}

/// Whether the graph holds a triangle.
pub open spec fn has_triangle(adj: Seq<Seq<usize>>) -> bool {
    exists|u: usize, v: usize, w: usize| triangle(adj, u, v, w)
}

/// Whether the graph holds a cycle of length four.
pub open spec fn has_square(adj: Seq<Seq<usize>>) -> bool {
    exists|u: usize, v: usize, w: usize, x: usize| square(adj, u, v, w, x)
}

/// The fingerprint of the Petersen graph: ten vertices, fifteen edges, every
/// degree 3, and neither a triangle nor a cycle of length four. Every cubic
/// graph of girth five on ten vertices has it.
pub open spec fn petersen(adj: Seq<Seq<usize>>) -> bool {
    &&& adj.len() == 10
    &&& edges_of(adj) == 15
    &&& least(degrees(adj)) == 3
    &&& greatest(degrees(adj)) == 3
    &&& !has_triangle(adj)
    &&& !has_square(adj)
}

impl Graph {
    /// Whether the graph has the signature of a complete graph.
    pub open spec fn spec_is_complete(&self) -> bool {
        complete(self@)
    }

    /// Whether the graph has the signature of a cycle.
    pub open spec fn spec_is_cycle(&self) -> bool {
        cycle(self@)
    }

    /// Whether the graph has the signature of a path.
    pub open spec fn spec_is_path(&self) -> bool {
        path(self@)
    }

    /// Whether the graph has the signature of a star.
    pub open spec fn spec_is_star(&self) -> bool {
        star(self@)
    }

    /// Whether the graph has the fingerprint of the Petersen graph.
    pub open spec fn spec_is_petersen(&self) -> bool {
        petersen(self@)
    }

    /// How many vertices have degree `d`.
    pub fn count_degree(&self, d: usize) -> (c: usize)
        ensures
            c == count_of(degrees(self@), d as nat),
            c <= self.spec_vertex_count(),
    {
        let ghost ds = degrees(self@);
        let n = self.adj.len();
        let mut c: usize = 0;
        let mut v: usize = 0;
        proof {
            lemma_lists(self.adj);
        }
        while v < n
            invariant
                v <= n,
                n == self.adj.len(),
                ds == degrees(self@),
                ds.len() == n,
                forall|i: int| 0 <= i < n ==> #[trigger] self@[i] == self.adj[i]@,
                c == count_of(ds.take(v as int), d as nat),
                c <= v,
            decreases n - v,
        {
            proof {
                lemma_prefix_sums(ds, v as int);
                assert(self@[v as int] == self.adj[v as int]@);
            }
            if self.adj[v].len() == d {
                c += 1;
            }
            v += 1;
        }
        assert(ds.take(n as int) =~= ds);
        c
    }

    /// Whether some neighbour of `u` other than `v` is a neighbour of `v`.
    fn triangle_with(&self, u: usize, v: usize) -> (b: bool)
        requires
            closed_lists(self@),
            u < self@.len(),
            v < self@.len(),
        ensures
            b == exists|w: usize| has_edge(self@, u, w) && v != w && #[trigger] has_edge(self@, v, w),
    {
        proof {
            lemma_lists(self.adj);
        }
        let list = &self.adj[u];
        let mut i: usize = 0;
        while i < list.len()
            invariant
                i <= list.len(),
                u < self@.len(),
                v < self@.len(),
                self@ == self.adj.deep_view(),
                list@ == self@[u as int],
                forall|k: int| 0 <= k < self.adj.len() ==> #[trigger] self@[k] == self.adj[k]@,
                forall|j: int| 0 <= j < i ==> !(v != list@[j] && has_edge(self@, v, #[trigger] list@[j])),
            decreases list.len() - i,
        {
            let w = list[i];
            if v != w && list_contains(&self.adj[v], w) {
                assert(list@.contains(w));
                assert(has_edge(self@, u, w) && v != w && has_edge(self@, v, w));
                return true;
            }
            i += 1;
        }
        proof {
            assert forall|w: usize| has_edge(self@, u, w) && v != w implies !#[trigger] has_edge(
                self@,
                v,
                w,
            ) by {
                let j = choose|j: int| 0 <= j < list@.len() && list@[j] == w;
                assert(!(v != list@[j] && has_edge(self@, v, list@[j])));
            }
        }
        false
    }

    /// Whether two neighbours of `u` are neighbours of each other.
    fn triangle_at(&self, u: usize) -> (b: bool)
        requires
            closed_lists(self@),
            u < self@.len(),
        ensures
            b == exists|v: usize, w: usize| triangle(self@, u, v, w),
    {
        proof {
            lemma_lists(self.adj);
        }
        let list = &self.adj[u];
        let mut i: usize = 0;
        while i < list.len()
            invariant
                i <= list.len(),
                u < self@.len(),
                closed_lists(self@),
                list@ == self@[u as int],
                forall|j: int, w: usize| 0 <= j < i ==> !#[trigger] triangle(self@, u, list@[j], w),
            decreases list.len() - i,
        {
            let v = list[i];
            assert(self@[u as int][i as int] < self@.len());
            if self.triangle_with(u, v) {
                proof {
                    let w = choose|w: usize|
                        has_edge(self@, u, w) && v != w && #[trigger] has_edge(self@, v, w);
                    assert(list@.contains(v));
                    assert(triangle(self@, u, v, w));
                }
                return true;
            }
            i += 1;
        }
        proof {
            assert forall|v: usize, w: usize| !triangle(self@, u, v, w) by {
                if has_edge(self@, u, v) {
                    let j = choose|j: int| 0 <= j < list@.len() && list@[j] == v;
                    assert(!triangle(self@, u, list@[j], w));
                }
            }
        }
        false
    }

    /// Whether three vertices are pairwise neighbours.
    pub fn has_triangle(&self) -> (b: bool)
        requires
            closed_lists(self@),
        ensures
            b == has_triangle(self@),
    {
        let n = self.adj.len();
        let mut u: usize = 0;
        while u < n
            invariant
                u <= n,
                n == self@.len(),
                closed_lists(self@),
                forall|a: usize, v: usize, w: usize| a < u ==> !triangle(self@, a, v, w),
            decreases n - u,
        {
            if self.triangle_at(u) {
                return true;
            }
            u += 1;
        }
        false
    }

    /// Whether a neighbour of `w` other than `v` and `u` has `u` as a neighbour.
    fn square_closes(&self, u: usize, v: usize, w: usize) -> (b: bool)
        requires
            closed_lists(self@),
            w < self@.len(),
        ensures
            b == exists|x: usize| closing(self@, u, v, w, x),
    {
        proof {
            lemma_lists(self.adj);
        }
        let list = &self.adj[w];
        let mut i: usize = 0;
        while i < list.len()
            invariant
                i <= list.len(),
                w < self@.len(),
                closed_lists(self@),
                self@ == self.adj.deep_view(),
                list@ == self@[w as int],
                forall|k: int| 0 <= k < self.adj.len() ==> #[trigger] self@[k] == self.adj[k]@,
                forall|j: int| 0 <= j < i ==> !closing(self@, u, v, w, #[trigger] list@[j]),
            decreases list.len() - i,
        {
            let x = list[i];
            assert(self@[w as int][i as int] < self@.len());
            if x != v && x != u && list_contains(&self.adj[x], u) {
                assert(list@.contains(x));
                assert(closing(self@, u, v, w, x));
                return true;
            }
            assert(!closing(self@, u, v, w, x));
            i += 1;
        }
        proof {
            assert forall|x: usize| !closing(self@, u, v, w, x) by {
                if has_edge(self@, w, x) {
                    let j = choose|j: int| 0 <= j < list@.len() && list@[j] == x;
                    assert(!closing(self@, u, v, w, list@[j]));
                }
            }
        }
        false
    }

    /// Whether a walk `v w x` leads from `v` back to `u` without passing `u` or turning back.
    fn square_through(&self, u: usize, v: usize) -> (b: bool)
        requires
            closed_lists(self@),
            v < self@.len(),
        ensures
            b == exists|w: usize, x: usize| turning(self@, u, v, w, x),
    {
        proof {
            lemma_lists(self.adj);
        }
        let list = &self.adj[v];
        let mut i: usize = 0;
        while i < list.len()
            invariant
                i <= list.len(),
                v < self@.len(),
                closed_lists(self@),
                list@ == self@[v as int],
                forall|j: int, x: usize| 0 <= j < i ==> !#[trigger] turning(self@, u, v, list@[j], x),
            decreases list.len() - i,
        {
            let w = list[i];
            assert(self@[v as int][i as int] < self@.len());
            if w != u && self.square_closes(u, v, w) {
                proof {
                    let x = choose|x: usize| closing(self@, u, v, w, x);
                    assert(list@.contains(w));
                    assert(turning(self@, u, v, w, x));
                }
                return true;
            }
            i += 1;
        }
        proof {
            assert forall|w: usize, x: usize| !turning(self@, u, v, w, x) by {
                if has_edge(self@, v, w) {
                    let j = choose|j: int| 0 <= j < list@.len() && list@[j] == w;
                    assert(!turning(self@, u, v, list@[j], x));
                }
            }
        }
        false
    }

    /// Whether a cycle of length four passes through `u`.
    fn square_at(&self, u: usize) -> (b: bool)
        requires
            closed_lists(self@),
            u < self@.len(),
        ensures
            b == exists|v: usize, w: usize, x: usize| square(self@, u, v, w, x),
    {
        proof {
            lemma_lists(self.adj);
        }
        let list = &self.adj[u];
        let mut i: usize = 0;
        while i < list.len()
            invariant
                i <= list.len(),
                u < self@.len(),
                closed_lists(self@),
                list@ == self@[u as int],
                forall|j: int, w: usize, x: usize|
                    0 <= j < i ==> !#[trigger] square(self@, u, list@[j], w, x),
            decreases list.len() - i,
        {
            let v = list[i];
            assert(self@[u as int][i as int] < self@.len());
            if self.square_through(u, v) {
                proof {
                    let (w, x) = choose|w: usize, x: usize| turning(self@, u, v, w, x);
                    assert(list@.contains(v));
                    assert(square(self@, u, v, w, x));
                }
                return true;
            }
            i += 1;
        }
        proof {
            assert forall|v: usize, w: usize, x: usize| !square(self@, u, v, w, x) by {
                if has_edge(self@, u, v) {
                    let j = choose|j: int| 0 <= j < list@.len() && list@[j] == v;
                    assert(!square(self@, u, list@[j], w, x));
                }
            }
        }
        false
    }

    /// Whether the graph holds a cycle of length four.
    pub fn has_square(&self) -> (b: bool)
        requires
            closed_lists(self@),
        ensures
            b == has_square(self@),
    {
        let n = self.adj.len();
        let mut u: usize = 0;
        while u < n
            invariant
                u <= n,
                n == self@.len(),
                closed_lists(self@),
                forall|a: usize, v: usize, w: usize, x: usize| a < u ==> !square(self@, a, v, w, x),
            decreases n - u,
        {
            if self.square_at(u) {
                return true;
            }
            u += 1;
        }
        false
    }

    /// Whether the graph has ten vertices, fifteen edges, all degrees 3, and
    /// neither a triangle nor a cycle of length four.
    pub fn is_petersen(&self) -> (b: bool)
        requires
            self.wf(),
        ensures
            b == self.spec_is_petersen(),
    {
        if self.adj.len() != 10 || self.n_edges != 15 {
            return false;
        }
        if self.min_degree() != 3 || self.max_degree() != 3 {
            return false;
        }
        if self.has_triangle() {
            return false;
        }
        !self.has_square()
    }

    /// Whether every vertex is joined to every other.
    pub fn is_complete(&self) -> (b: bool)
        requires
            self.wf(),
        ensures
            b == self.spec_is_complete(),
    {
        let n = self.adj.len();
        if n <= 1 {
            return true;
        }
        proof {
            lemma_lists(self.adj);
        }
        let mut v: usize = 0;
        while v < n
            invariant
                v <= n,
                n > 1,
                n == self.adj.len(),
                n == self@.len(),
                forall|i: int| 0 <= i < n ==> #[trigger] self@[i] == self.adj[i]@,
                forall|i: int| 0 <= i < v ==> (#[trigger] self@[i]).len() == n - 1,
            decreases n - v,
        {
            if self.adj[v].len() != n - 1 {
                assert(self@[v as int].len() != n - 1);
                return false;
            }
            v += 1;
        }
        let wide: u128 = n as u128;
        assert(wide * (wide - 1) <= u128::MAX) by (nonlinear_arith)
            requires
                1 <= wide <= 0xffff_ffff_ffff_ffff,
        ;
        let expected: u128 = wide * (wide - 1) / 2;
        self.n_edges as u128 == expected
    }

    /// Whether the graph has the degrees and the edge count of a cycle.
    pub fn is_cycle(&self) -> (b: bool)
        requires
            self.wf(),
        ensures
            b == self.spec_is_cycle(),
    {
        self.min_degree() == 2 && self.max_degree() == 2 && self.n_edges == self.adj.len()
    }

    /// Whether the graph has the degrees and the edge count of a star.
    pub fn is_star(&self) -> (b: bool)
        requires
            self.wf(),
        ensures
            b == self.spec_is_star(),
    {
        let n = self.adj.len();
        if n <= 1 {
            return false;
        }
        let leaves = self.count_degree(1);
        let hubs = self.count_degree(n - 1);
        leaves == n - 1 && hubs == 1
    }

    /// Whether the graph has the degrees and the edge count of a path.
    pub fn is_path(&self) -> (b: bool)
        requires
            self.wf(),
        ensures
            b == self.spec_is_path(),
    {
        let n = self.adj.len();
        if n == 0 || self.n_edges != n - 1 {
            return false;
        }
        let ends = self.count_degree(1);
        let inner = self.count_degree(2);
        n >= 2 && ends == 2 && inner == n - 2
    }
}

} // verus!
