//! Laws of the library: what holds of every valid graph, and of the graphs of
//! a given shape, stated over the same models as the contracts.
use vstd::prelude::*;
use crate::adjacency::{
    count_of, degrees, greatest, has_edge, insert_edge, least, lemma_constant_sums,
    lemma_counted_occurs, lemma_degree_below, lemma_degree_bounds, lemma_greatest,
    lemma_insert_edge_degrees, lemma_insert_edge_lists, lemma_least, lemma_lists,
    lemma_push_contains,
    lemma_two_values, sum, zagreb,
};
use crate::classify::{complete, cycle, edges_of, path, star};
use crate::graph::{Graph, GraphError};
use crate::independence::{
    greedy_taken, independent, lemma_greedy_independent_bound, lemma_greedy_taken,
    lemma_pool_size,
};
use crate::theorems::lemma_threshold_out_of_reach;

verus! {

/// The first Zagreb index is never negative. It lies between twice the edge
/// count and twice the edge count times the greatest degree, and never
/// exceeds `n (n - 1)^2`.
pub proof fn lemma_first_zagreb_index_bounds(g: Graph)
    requires
        g.wf(),
    ensures
        0 <= g.spec_first_zagreb_index(),
        2 * g.spec_edge_count() <= g.spec_first_zagreb_index() <= 2 * g.spec_edge_count()
            * g.spec_max_degree(),
        g.spec_first_zagreb_index() <= g.spec_vertex_count() * (g.spec_vertex_count() - 1) * (
        g.spec_vertex_count() - 1),
{
    let adj = g@;
    let n = adj.len() as int;
    let ds = degrees(adj);
    let top = greatest(ds) as int;
    let e = g.spec_edge_count() as int;
    let z = zagreb(adj) as int;
    lemma_degree_bounds(adj);
    lemma_greatest(ds);
    assert(top * (2 * e) == 2 * e * top) by (nonlinear_arith);
    if n > 0 {
        let i = choose|i: int| 0 <= i < ds.len() && #[trigger] ds[i] == greatest(ds);
        lemma_degree_below(adj, i);
        assert(z <= n * (n - 1) * (n - 1)) by (nonlinear_arith)
            requires
                z <= top * (2 * e),
                2 * e <= n * top,
                0 <= top <= n - 1,
                n > 0,
        {
            assert(top * (2 * e) <= top * (n * top));
            assert(top * (n * top) == n * (top * top));
            assert(top * top <= (n - 1) * (n - 1));
            assert(n * (top * top) <= n * ((n - 1) * (n - 1)));
        }
    } else {
        assert(n * (n - 1) * (n - 1) == 0) by (nonlinear_arith)
            requires
                n == 0,
        ;
    }
}

/// The edge count of a valid graph is the number of edges of its adjacency lists.
pub proof fn lemma_edge_count(g: Graph)
    requires
        g.wf(),
    ensures
        g.spec_edge_count() == edges_of(g@),
        2 * g.spec_edge_count() <= g.spec_vertex_count() * (g.spec_vertex_count() - 1),
{
    let adj = g@;
    let n = adj.len() as int;
    let ds = degrees(adj);
    let top = greatest(ds) as int;
    lemma_degree_bounds(adj);
    lemma_greatest(ds);
    if n > 0 {
        let i = choose|i: int| 0 <= i < ds.len() && #[trigger] ds[i] == greatest(ds);
        lemma_degree_below(adj, i);
        assert(n * top <= n * (n - 1)) by (nonlinear_arith)
            requires
                0 <= top <= n - 1,
                n > 0,
        ;
    } else {
        assert(n * top == 0) by (nonlinear_arith)
            requires
                n == 0,
        ;
    }
}

/// Adding an edge a second time changes nothing: the adjacency lists, and
/// with them every degree and the edge count, are those after the first call.
pub proof fn lemma_add_edge_idempotent(g: Graph, u: usize, v: usize)
    ensures
        insert_edge(insert_edge(g@, u, v), u, v) == insert_edge(g@, u, v),
        Graph::link_outcome(g@.len(), u, v).is_ok() ==> has_edge(insert_edge(g@, u, v), u, v),
{
    let adj = g@;
    let once = insert_edge(adj, u, v);
    if u < adj.len() && v < adj.len() && u != v && !has_edge(adj, u, v) {
        lemma_insert_edge_lists(adj, u, v);
        lemma_push_contains(adj[u as int], v, v);
    }
}

/// Adding an edge is symmetric: afterwards each end lists the other, and the
/// order in which the two ends are named makes no difference.
pub proof fn lemma_add_edge_symmetric(g: Graph, u: usize, v: usize)
    requires
        g.wf(),
    ensures
        Graph::link_outcome(g@.len(), u, v).is_ok() ==> has_edge(insert_edge(g@, u, v), u, v)
            && has_edge(insert_edge(g@, u, v), v, u),
        insert_edge(g@, u, v) == insert_edge(g@, v, u),
        Graph::link_outcome(g@.len(), u, v) == Graph::link_outcome(g@.len(), v, u),
{
    let adj = g@;
    if u < adj.len() && v < adj.len() && u != v {
        if has_edge(adj, u, v) {
            assert(has_edge(adj, v, u));
        } else {
            if has_edge(adj, v, u) {
                assert(has_edge(adj, u, v));
            }
            lemma_insert_edge_lists(adj, u, v);
            lemma_insert_edge_lists(adj, v, u);
            lemma_push_contains(adj[u as int], v, v);
            lemma_push_contains(adj[v as int], u, u);
            assert(insert_edge(adj, u, v) =~= insert_edge(adj, v, u));
        }
    }
}

/// An edge from a vertex to itself is refused as a self-loop wherever the
/// vertex exists, and any edge with an end that is no vertex is refused as
/// invalid. Where both hold, the invalid vertex is reported.
pub proof fn lemma_add_edge_refusals(g: Graph, u: usize, v: usize)
    ensures
        u >= g.spec_vertex_count() || v >= g.spec_vertex_count() ==> Graph::link_outcome(
            g@.len(),
            u,
            v,
        ) == Err::<(), GraphError>(GraphError::InvalidVertex),
        u == v && u < g.spec_vertex_count() ==> Graph::link_outcome(g@.len(), u, v) == Err::<
            (),
            GraphError,
        >(GraphError::SelfLoop),
        Graph::link_outcome(g@.len(), u, v).is_err() ==> insert_edge(g@, u, v) == g@,
{
}

/// A new edge between `u` and `v` raises the first Zagreb index by
/// `2 (deg u + deg v) + 2` and the degree sum by 2.
pub proof fn lemma_add_edge_index(g: Graph, u: usize, v: usize)
    requires
        Graph::link_outcome(g@.len(), u, v).is_ok(),
        !has_edge(g@, u, v),
    ensures
        zagreb(insert_edge(g@, u, v)) == zagreb(g@) + 2 * g.spec_degree(u) + 2 * g.spec_degree(v)
            + 2,
        sum(degrees(insert_edge(g@, u, v))) == sum(degrees(g@)) + 2,
{
    lemma_insert_edge_degrees(g@, u, v);
}

/// A complete graph on `n` vertices has first Zagreb index `n (n - 1)^2`.
pub proof fn lemma_complete_graph_index(g: Graph)
    requires
        g.wf(),
        g.spec_is_complete(),
    ensures
        g.spec_first_zagreb_index() == g.spec_vertex_count() * (g.spec_vertex_count() - 1) * (
        g.spec_vertex_count() - 1),
        g.spec_vertex_count() > 0 ==> g.spec_min_degree() == g.spec_vertex_count() - 1
            && g.spec_max_degree() == g.spec_vertex_count() - 1,
{
    let adj = g@;
    let n = adj.len() as int;
    let ds = degrees(adj);
    if n == 0 {
        assert(n * (n - 1) * (n - 1) == 0) by (nonlinear_arith)
            requires
                n == 0,
        ;
    } else {
        let d = (n - 1) as nat;
        assert forall|i: int| 0 <= i < ds.len() implies ds[i] == d by {
            if n == 1 {
                lemma_degree_below(adj, i);
            } else {
                assert(adj[i].len() == n - 1);
            }
        }
        lemma_constant_sums(ds, d);
        lemma_least(ds);
        lemma_greatest(ds);
        assert(n * ((n - 1) * (n - 1)) == n * (n - 1) * (n - 1)) by (nonlinear_arith);
    }
}

/// A path graph on `n` vertices has two vertices of degree 1 and `n - 2` of
/// degree 2, and first Zagreb index `2 + 4 (n - 2)`.
pub proof fn lemma_path_graph_index(g: Graph)
    requires
        g.wf(),
        g.spec_is_path(),
    ensures
        count_of(degrees(g@), 1) == 2,
        count_of(degrees(g@), 2) == g.spec_vertex_count() - 2,
        g.spec_first_zagreb_index() == 2 * 1 + (g.spec_vertex_count() - 2) * 4,
{
    let ds = degrees(g@);
    lemma_two_values(ds, 1, 2);
    let inner = count_of(ds, 2);
    assert(inner * (2 * 2) == (g@.len() - 2) * 4) by (nonlinear_arith)
        requires
            inner == g@.len() - 2,
    ;
}

/// The approximate independence number is the size of an independent set:
/// there are that many vertices no two of which are linked. With a vertex in
/// the graph it is at least 1, and it never exceeds the number of vertices.
pub proof fn lemma_independence_number_sound(g: Graph)
    requires
        g.wf(),
    ensures
        exists|set: Seq<usize>|
            set.len() == g.spec_independence_number_approx() && #[trigger] independent(g@, set),
        g.spec_independence_number_approx() <= g.spec_vertex_count(),
        g.spec_vertex_count() > 0 ==> g.spec_independence_number_approx() >= 1,
{
    let pool = Seq::new(g@.len(), |u: int| true);
    lemma_greedy_independent_bound(g@, pool);
    lemma_pool_size(pool);
    if g@.len() > 0 {
        assert(pool[0]);
    }
    lemma_lists(g.adj);
    lemma_greedy_taken(g@, pool);
    assert(independent(g@, greedy_taken(g@, pool)));
}

/// A cycle graph on at least three vertices passes the exact test for 1- and
/// for 2-connectivity and fails it for 3-connectivity, and it is taken to
/// have a Hamiltonian cycle whichever connectivity test is chosen.
pub proof fn lemma_cycle_graph(g: Graph, exact: bool)
    requires
        g.wf(),
        g.spec_is_cycle(),
        g.spec_is_connected(),
        g.spec_vertex_count() >= 3,
    ensures
        g.spec_is_k_connected_exact(1),
        g.spec_is_k_connected_exact(2),
        !g.spec_is_k_connected_exact(3),
        g.spec_is_likely_hamiltonian(exact),
        g.spec_is_likely_traceable(exact),
{
}

/// A star on more than three vertices is not taken to have a Hamiltonian
/// cycle and is taken to have a Hamiltonian path, whichever connectivity
/// test is chosen.
pub proof fn lemma_star_graph(g: Graph, exact: bool)
    requires
        g.wf(),
        g.spec_is_star(),
        g.spec_vertex_count() > 3,
    ensures
        !g.spec_is_likely_hamiltonian(exact),
        g.spec_is_likely_traceable(exact),
{
    let adj = g@;
    let ds = degrees(adj);
    lemma_counted_occurs(ds, 1);
    let leaf = choose|i: int| 0 <= i < ds.len() && #[trigger] ds[i] == 1;
    assert(adj[leaf].len() == 1);
    lemma_least(ds);
    assert(!complete(adj));
    assert(!cycle(adj));
}

/// A complete graph on at least three vertices is taken to have a
/// Hamiltonian cycle and a Hamiltonian path, and it is `k`-connected by every
/// test exactly for `k` below the number of vertices.
pub proof fn lemma_complete_graph(g: Graph, k: usize, exact: bool)
    requires
        g.wf(),
        g.spec_is_complete(),
    ensures
        g.spec_is_k_connected(k, exact) <==> k < g.spec_vertex_count(),
        g.spec_vertex_count() >= 3 ==> g.spec_is_likely_hamiltonian(exact)
            && g.spec_is_likely_traceable(exact),
{
}

/// A graph with the signature of a path on at least two vertices is taken to
/// have a Hamiltonian path, and from three vertices on it is not taken to
/// have a Hamiltonian cycle.
pub proof fn lemma_path_graph(g: Graph, exact: bool)
    requires
        g.wf(),
        g.spec_is_path(),
    ensures
        g.spec_is_likely_traceable(exact),
        g.spec_vertex_count() >= 3 ==> !g.spec_is_likely_hamiltonian(exact),
{
    let adj = g@;
    let n = adj.len();
    let ds = degrees(adj);
    lemma_counted_occurs(ds, 1);
    let end = choose|i: int| 0 <= i < ds.len() && #[trigger] ds[i] == 1;
    assert(adj[end].len() == 1);
    lemma_least(ds);
    assert(least(ds) <= 1);
    if n >= 3 {
        assert(!complete(adj));
        assert(!cycle(adj));
    }
}

/// Past the shapes with a known answer, the heuristic test for
/// `k`-connectivity with `k` of at least 2 accepts every graph whose least
/// degree is at least `k`: such a graph always has `(n - 1) k / 2 + 1` edges.
pub proof fn lemma_heuristic_by_degree(g: Graph, k: usize)
    requires
        g.wf(),
        k >= 2,
        !g.spec_is_complete(),
        !g.spec_is_cycle(),
        !g.spec_is_path(),
        !g.spec_is_star(),
    ensures
        g.spec_is_k_connected_approx(k) <==> k < g.spec_vertex_count() && g.spec_min_degree()
            >= k,
{
    let adj = g@;
    let n = adj.len() as int;
    let e = edges_of(adj) as int;
    let low = least(degrees(adj)) as int;
    lemma_degree_bounds(adj);
    if k < n && low >= k {
        assert(n * k <= 2 * e) by (nonlinear_arith)
            requires
                n * low <= 2 * e,
                k <= low,
                n >= 0,
        ;
        assert(n * k == (n - 1) * k + k) by (nonlinear_arith);
        assert(e >= (n - 1) * k / 2 + 1);
    }
}

/// From nine vertices on, the Zagreb threshold decides nothing about
/// Hamiltonian paths: a connected graph never reaches it, so the answer is
/// that of the shapes and of the Dirac-like condition.
pub proof fn lemma_traceable_without_threshold(g: Graph, exact: bool)
    requires
        g.wf(),
        g.spec_vertex_count() >= 9,
    ensures
        g.spec_is_likely_traceable(exact) <==> g.spec_is_likely_hamiltonian(exact)
            || g.spec_is_complete() || g.spec_is_path() || g.spec_is_star()
            || g.spec_is_petersen() || (g.spec_is_k_connected(1, exact) && g.spec_min_degree() >= (
        g.spec_vertex_count() - 1) / 2),
{
    let adj = g@;
    lemma_degree_bounds(adj);
    if g.spec_is_k_connected(1, exact) && !g.spec_is_complete() {
        assert(least(degrees(adj)) >= 1);
        lemma_threshold_out_of_reach(adj, 1, 2);
    }
}

} // verus!
