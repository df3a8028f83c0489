//! Summaries for callers that report on a graph: the figures of an analysis
//! in one value, the vertices with few neighbours, how far the heuristic
//! connectivity reaches, and how the average degree compares with a bound.
use vstd::prelude::*;
use crate::adjacency::{degrees, least, lemma_degree_below, lemma_least, lemma_lists};
use crate::connectivity::k_connected;
use crate::graph::Graph;

verus! {

/// The figures of one analysis of a graph.
#[derive(Clone, Copy, Debug, PartialEq, Eq)]
pub struct Analysis {
    pub vertex_count: usize,
    pub edge_count: usize,
    pub zagreb_index: usize,
    pub min_degree: usize,
    pub max_degree: usize,
    pub is_likely_hamiltonian: bool,
    pub is_likely_traceable: bool,
    pub independence_number: usize,
}

/// How a graph is taken to be traversable.
#[derive(Clone, Copy, Debug, PartialEq, Eq, Structural)]
pub enum Traversal {
    /// A Hamiltonian cycle is likely.
    Hamiltonian,
    /// A Hamiltonian path is likely, a Hamiltonian cycle is not.
    Traceable,
    /// Neither is likely.
    Neither,
}

/// The vertices below `k` whose degree is at most `bound`, in rising order.
pub open spec fn low_vertices(adj: Seq<Seq<usize>>, bound: nat, k: nat) -> Seq<usize>
    decreases k,
{
    if k == 0 {
        Seq::empty()
    } else {
        let before = low_vertices(adj, bound, (k - 1) as nat);
        if adj[k - 1].len() <= bound {
            before.push((k - 1) as usize)
        } else {
            before
        }
    }
}

/// How many of the tests for 1-, 2-, ... connectivity the graph passes in a
/// row, counted up to `limit`.
pub open spec fn connectivity_run(adj: Seq<Seq<usize>>, exact: bool, limit: nat) -> nat
    decreases limit,
{
    if limit == 0 {
        0
    } else {
        let before = connectivity_run(adj, exact, (limit - 1) as nat);
        if before == limit - 1 && k_connected(adj, limit, exact) {
            limit
        } else {
            before
        }
    }
}

impl Graph {
    /// The vertices whose degree is at most the least degree plus one.
    pub open spec fn spec_low_connectivity_vertices(&self) -> Seq<usize> {
        low_vertices(self@, self.spec_min_degree() + 1, self@.len())
    }

    /// The classification by likely traversal.
    pub open spec fn spec_traversal(&self, exact: bool) -> Traversal {
        if self.spec_is_likely_hamiltonian(exact) {
            Traversal::Hamiltonian
        } else if self.spec_is_likely_traceable(exact) {
            Traversal::Traceable
        } else {
            Traversal::Neither
        }
    }

    /// The figures of an analysis, with the heuristic connectivity test
    /// behind the two traversal answers. The first Zagreb index has to fit
    /// the machine word.
    pub fn analyze(&self) -> (a: Analysis)
        requires
            self.wf(),
            self.spec_first_zagreb_index() <= usize::MAX,
        ensures
            a.vertex_count == self.spec_vertex_count(),
            a.edge_count == self.spec_edge_count(),
            a.zagreb_index == self.spec_first_zagreb_index(),
            a.min_degree == self.spec_min_degree(),
            a.max_degree == self.spec_max_degree(),
            a.is_likely_hamiltonian == self.spec_is_likely_hamiltonian(false),
            a.is_likely_traceable == self.spec_is_likely_traceable(false),
            a.independence_number == self.spec_independence_number_approx(),
    {
        Analysis {
            vertex_count: self.vertex_count(),
            edge_count: self.edge_count(),
            zagreb_index: self.first_zagreb_index(),
            min_degree: self.min_degree(),
            max_degree: self.max_degree(),
            is_likely_hamiltonian: self.is_likely_hamiltonian(false),
            is_likely_traceable: self.is_likely_traceable(false),
            independence_number: self.independence_number_approx(),
        }
    }

    /// The vertices with few neighbours: those whose degree is at most the
    /// least degree plus one, in rising order.
    pub fn low_connectivity_vertices(&self) -> (low: Vec<usize>)
        requires
            self.wf(),
        ensures
            low@ == self.spec_low_connectivity_vertices(),
    {
        let n = self.adj.len();
        let mut low: Vec<usize> = Vec::new();
        if n == 0 {
            return low;
        }
        let least_degree = self.min_degree();
        proof {
            let ds = degrees(self@);
            lemma_least(ds);
            let i = choose|i: int| 0 <= i < ds.len() && #[trigger] ds[i] == least(ds);
            lemma_degree_below(self@, i);
            lemma_lists(self.adj);
        }
        let bound = least_degree + 1;
        let mut v: usize = 0;
        while v < n
            invariant
                v <= n,
                n == self.adj.len(),
                n == self@.len(),
                forall|i: int| 0 <= i < n ==> #[trigger] self@[i] == self.adj[i]@,
                low@ == low_vertices(self@, bound as nat, v as nat),
            decreases n - v,
        {
            assert(self@[v as int] == self.adj[v as int]@);
            if self.adj[v].len() <= bound {
                low.push(v);
            }
            v += 1;
        }
        low
    }

    /// Whether a Hamiltonian cycle is likely, or else a Hamiltonian path, or neither.
    pub fn traversal(&self, use_exact_connectivity: bool) -> (t: Traversal)
        requires
            self.wf(),
        ensures
            t == self.spec_traversal(use_exact_connectivity),
    {
        if self.is_likely_hamiltonian(use_exact_connectivity) {
            Traversal::Hamiltonian
        } else if self.is_likely_traceable(use_exact_connectivity) {
            Traversal::Traceable
        } else {
            Traversal::Neither
        }
    }

    /// How many of the tests for 1-, 2-, ... connectivity the graph passes
    /// in a row, up to `limit`: the graph passes each test up to the result
    /// and, if the result is below `limit`, fails the next.
    pub fn connectivity_level(&self, limit: usize, use_exact: bool) -> (level: usize)
        requires
            self.wf(),
        ensures
            level == connectivity_run(self@, use_exact, limit as nat),
            level <= limit,
            forall|k: usize| 1 <= k <= level ==> self.spec_is_k_connected(k, use_exact),
            level < limit ==> !self.spec_is_k_connected((level + 1) as usize, use_exact),
    {
        let mut level: usize = 0;
        while level < limit
            invariant
                level <= limit,
                self.wf(),
                level == connectivity_run(self@, use_exact, level as nat),
                forall|k: usize| 1 <= k <= level ==> self.spec_is_k_connected(k, use_exact),
            decreases limit - level,
        {
            if !self.is_k_connected(level + 1, use_exact) {
                proof {
                    lemma_run_stops(self@, use_exact, level as nat, limit as nat);
                }
                return level;
            }
            level += 1;
        }
        level
    }

    /// Whether the average degree `2 e / n` is below `bound`. A graph without
    /// vertices has no average degree, and the answer is `false`.
    pub fn average_degree_below(&self, bound: usize) -> (b: bool)
        ensures
            b == (self.spec_vertex_count() > 0 && 2 * self.spec_edge_count() < bound
                * self.spec_vertex_count()),
    {
        let n = self.adj.len();
        if n == 0 {
            return false;
        }
        assert(bound * n <= 0xffff_ffff_ffff_ffff * 0xffff_ffff_ffff_ffff) by (nonlinear_arith)
            requires
                0 <= bound <= 0xffff_ffff_ffff_ffff,
                0 <= n <= 0xffff_ffff_ffff_ffff,
        ;
        2 * (self.n_edges as u128) < (bound as u128) * (n as u128)
    }

    /// Whether the average degree `2 e / n` is above `bound`. A graph without
    /// vertices has no average degree, and the answer is `false`.
    pub fn average_degree_above(&self, bound: usize) -> (b: bool)
        ensures
            b == (self.spec_vertex_count() > 0 && 2 * self.spec_edge_count() > bound
                * self.spec_vertex_count()),
    {
        let n = self.adj.len();
        if n == 0 {
            return false;
        }
        assert(bound * n <= 0xffff_ffff_ffff_ffff * 0xffff_ffff_ffff_ffff) by (nonlinear_arith)
            requires
                0 <= bound <= 0xffff_ffff_ffff_ffff,
                0 <= n <= 0xffff_ffff_ffff_ffff,
        ;
        2 * (self.n_edges as u128) > (bound as u128) * (n as u128)
    }
}

/// A run of passed tests that ends below `level + 1` stays where it is,
/// however far the count goes.
pub proof fn lemma_run_stops(adj: Seq<Seq<usize>>, exact: bool, level: nat, limit: nat)
    requires
        level < limit,
        connectivity_run(adj, exact, level) == level,
        !k_connected(adj, level + 1, exact),
    ensures
        connectivity_run(adj, exact, limit) == level,
    decreases limit,
{
    if limit > level + 1 {
        lemma_run_stops(adj, exact, level, (limit - 1) as nat);
    }
}

} // verus!
