//! Builders for the graphs of a given shape: complete graphs, cycles, stars,
//! and the Petersen graph.
use vstd::prelude::*;
use crate::adjacency::{
    count_of, degrees, has_edge, least, lemma_constant_sums, lemma_greatest,
    lemma_insert_edge_edges, lemma_least, lemma_room_for_edge, lemma_same_items, simple_graph, sum,
};
use crate::classify::{complete, cycle, edges_of, star};
use crate::graph::{Graph, GraphError};
use crate::search::{connected, is_walk, reachable, walk_between};

verus! {

/// Every two different vertices are linked.
pub open spec fn all_linked(adj: Seq<Seq<usize>>) -> bool {
    forall|a: usize, b: usize| #[trigger]
        has_edge(adj, a, b) <==> a < adj.len() && b < adj.len() && a != b
}

/// Exactly the edges between vertex 0 and the other vertices are there.
pub open spec fn hub_linked(adj: Seq<Seq<usize>>) -> bool {
    forall|a: usize, b: usize| #[trigger]
        has_edge(adj, a, b) <==> a < adj.len() && b < adj.len() && a != b && (a == 0 || b == 0)
}

/// The vertex after `a` on the ring of the vertices `0..n`.
pub open spec fn ring_next(a: usize, n: nat) -> usize {
    if a + 1 == n {
        0usize
    } else {
        (a + 1) as usize
    }
}

/// Exactly the edges between each vertex and the next one on the ring are there.
pub open spec fn ring_linked(adj: Seq<Seq<usize>>) -> bool {
    forall|a: usize, b: usize| #[trigger]
        has_edge(adj, a, b) <==> a < adj.len() && b < adj.len() && a != b && (b == ring_next(
            a,
            adj.len(),
        ) || a == ring_next(b, adj.len()))
}

/// The adjacency lists of the Petersen graph: an outer pentagon `0..5`, an
/// inner pentagram `5..10`, and a spoke from each outer vertex `i` to `i + 5`.
pub open spec fn petersen_lists() -> Seq<Seq<usize>> {
    seq![
        seq![1usize, 4, 5],
        seq![0usize, 2, 6],
        seq![1usize, 3, 7],
        seq![2usize, 4, 8],
        seq![3usize, 0, 9],
        seq![0usize, 7, 8],
        seq![1usize, 9, 8],
        seq![2usize, 5, 9],
        seq![3usize, 6, 5],
        seq![4usize, 7, 6],
    ]
}

/// The list of the vertices of a graph on `n` vertices other than `u`.
pub open spec fn others(n: nat, u: usize) -> Seq<usize> {
    Seq::new((n - 1) as nat, |i: int| if i < u { i as usize } else { (i + 1) as usize })
}

/// A simple graph in which every two different vertices are linked is complete.
pub proof fn lemma_all_linked_complete(adj: Seq<Seq<usize>>)
    requires
        simple_graph(adj),
        all_linked(adj),
        adj.len() <= usize::MAX,
    ensures
        complete(adj),
        forall|u: int| 0 <= u < adj.len() ==> (#[trigger] adj[u]).len() == adj.len() - 1,
{
    let n = adj.len();
    if n >= 1 {
        assert forall|u: int| 0 <= u < n implies (#[trigger] adj[u]).len() == n - 1 by {
            let rest = others(n, u as usize);
            assert forall|x: usize| adj[u].contains(x) <==> rest.contains(x) by {
                assert(has_edge(adj, u as usize, x) == adj[u].contains(x));
                if x < n && x != u {
                    if x < u {
                        assert(rest[x as int] == x);
                    } else {
                        assert(rest[x - 1] == x);
                    }
                }
            }
            lemma_same_items(adj[u], rest);
        }
        let ds = degrees(adj);
        lemma_constant_sums(ds, (n - 1) as nat);
    }
}

/// What a sequence with one entry `hub` at the front and entries 1 behind it counts.
pub proof fn lemma_hub_counts(ds: Seq<nat>, hub: nat)
    requires
        ds.len() >= 1,
        hub != 1,
        ds[0] == hub,
        forall|i: int| 1 <= i < ds.len() ==> ds[i] == 1,
    ensures
        count_of(ds, 1) == ds.len() - 1,
        count_of(ds, hub) == 1,
        sum(ds) == hub + ds.len() - 1,
    decreases ds.len(),
{
    let front = ds.drop_last();
    if ds.len() == 1 {
        assert(count_of(front, 1) == 0 && count_of(front, hub) == 0 && sum(front) == 0);
    } else {
        assert(front[0] == ds[0]);
        assert forall|i: int| 1 <= i < front.len() implies front[i] == 1 by {
            assert(front[i] == ds[i]);
        }
        lemma_hub_counts(front, hub);
        assert(ds[ds.len() - 1] == 1);
    }
}

/// A simple graph on at least three vertices with exactly the edges at
/// vertex 0 has the signature of a star.
pub proof fn lemma_hub_linked_star(adj: Seq<Seq<usize>>)
    requires
        simple_graph(adj),
        hub_linked(adj),
        3 <= adj.len() <= usize::MAX,
    ensures
        star(adj),
        edges_of(adj) == adj.len() - 1,
{
    let n = adj.len();
    let ds = degrees(adj);
    let rest = others(n, 0);
    assert forall|x: usize| adj[0].contains(x) <==> rest.contains(x) by {
        assert(has_edge(adj, 0, x) == adj[0].contains(x));
        if 0 < x < n {
            assert(rest[x - 1] == x);
        }
    }
    lemma_same_items(adj[0], rest);
    assert forall|i: int| 1 <= i < ds.len() implies ds[i] == 1 by {
        let only = seq![0usize];
        assert forall|x: usize| adj[i].contains(x) <==> only.contains(x) by {
            assert(has_edge(adj, i as usize, x) == adj[i].contains(x));
            assert(only[0] == 0);
        }
        lemma_same_items(adj[i], only);
    }
    lemma_hub_counts(ds, (n - 1) as nat);
}

/// A simple graph on at least three vertices with exactly the edges of the
/// ring has the signature of a cycle and is connected.
pub proof fn lemma_ring_linked_cycle(adj: Seq<Seq<usize>>)
    requires
        simple_graph(adj),
        ring_linked(adj),
        3 <= adj.len() <= usize::MAX,
    ensures
        cycle(adj),
        connected(adj),
{
    let n = adj.len();
    let ds = degrees(adj);
    assert forall|i: int| 0 <= i < ds.len() implies ds[i] == 2 by {
        let u = i as usize;
        let before: usize = if u == 0 { (n - 1) as usize } else { (u - 1) as usize };
        let pair = seq![ring_next(u, n), before];
        assert forall|x: usize| adj[i].contains(x) <==> pair.contains(x) by {
            assert(has_edge(adj, u, x) == adj[i].contains(x));
            assert(pair[0] == ring_next(u, n));
            assert(pair[1] == before);
        }
        lemma_same_items(adj[i], pair);
    }
    lemma_constant_sums(ds, 2);
    lemma_least(ds);
    lemma_greatest(ds);
    assert(ds[0] == 2);
    assert forall|v: usize| v < n implies reachable(adj, 0, v) by {
        let p = Seq::new((v + 1) as nat, |i: int| i as usize);
        assert forall|i: int| 0 <= i < p.len() - 1 implies has_edge(adj, #[trigger] p[i], p[i + 1]) by {
            assert(p[i + 1] == ring_next(p[i], n));
        }
        assert(is_walk(adj, p));
        assert(walk_between(adj, p, 0, v));
    }
}

impl Graph {
    /// The complete graph on `n` vertices. Its number of edges has to fit the machine word.
    pub fn create_complete(n: usize) -> (g: Graph)
        requires
            n * (n - 1) / 2 <= usize::MAX,
        ensures
            g.wf(),
            g.spec_vertex_count() == n,
            all_linked(g@),
            g.spec_is_complete(),
    {
        let mut g = Graph::new(n);
        let mut i: usize = 0;
        while i < n
            invariant
                i <= n,
                g.wf(),
                g@.len() == n,
                n * (n - 1) / 2 <= usize::MAX,
                forall|a: usize, b: usize| #[trigger]
                    has_edge(g@, a, b) <==> a < n && b < n && a != b && (a < i || b < i),
            decreases n - i,
        {
            let mut j: usize = i + 1;
            while j < n
                invariant
                    i < j <= n,
                    g.wf(),
                    g@.len() == n,
                    n * (n - 1) / 2 <= usize::MAX,
                    forall|a: usize, b: usize| #[trigger]
                        has_edge(g@, a, b) <==> a < n && b < n && a != b && (a < i || b < i || (a
                            == i && b < j) || (b == i && a < j)),
                decreases n - j,
            {
                proof {
                    assert(!has_edge(g@, i, j));
                    lemma_room_for_edge(g@, i, j);
                    lemma_insert_edge_edges(g@, i, j);
                }
                let _ = g.add_edge(i, j);
                j += 1;
            }
            i += 1;
        }
        proof {
            lemma_all_linked_complete(g@);
        }
        g
    }

    /// The star on `n` vertices with vertex 0 at its centre.
    pub fn create_star(n: usize) -> (g: Graph)
        ensures
            g.wf(),
            g.spec_vertex_count() == n,
            hub_linked(g@),
            n >= 3 ==> g.spec_is_star(),
    {
        let mut g = Graph::new(n);
        let mut i: usize = 1;
        while i < n
            invariant
                1 <= i,
                i <= n || n == 0,
                g.wf(),
                g@.len() == n,
                g.spec_edge_count() < i,
                forall|a: usize, b: usize| #[trigger]
                    has_edge(g@, a, b) <==> a < n && b < n && a != b && ((a == 0 && b < i) || (b
                        == 0 && a < i)),
            decreases n - i,
        {
            proof {
                lemma_insert_edge_edges(g@, 0, i);
            }
            let _ = g.add_edge(0, i);
            i += 1;
        }
        proof {
            if n >= 3 {
                lemma_hub_linked_star(g@);
            }
        }
        g
    }

    /// The cycle on `n` vertices, each linked to the next and the last to
    /// vertex 0. A single vertex would have to be linked to itself, which is
    /// refused; two vertices are linked by one edge.
    pub fn create_cycle(n: usize) -> (r: Result<Graph, GraphError>)
        ensures
            match r {
                Ok(g) => n != 1 && g.wf() && g.spec_vertex_count() == n && ring_linked(g@) && (n
                    >= 3 ==> g.spec_is_cycle() && g.spec_is_connected()),
                Err(e) => n == 1 && e == GraphError::SelfLoop,
            },
    {
        if n == 1 {
            return Err(GraphError::SelfLoop);
        }
        let mut g = Graph::new(n);
        let mut i: usize = 0;
        while i < n
            invariant
                i <= n,
                n != 1,
                g.wf(),
                g@.len() == n,
                g.spec_edge_count() <= i,
                forall|a: usize, b: usize| #[trigger]
                    has_edge(g@, a, b) <==> a < n && b < n && a != b && ((a < i && b == ring_next(
                        a,
                        n as nat,
                    )) || (b < i && a == ring_next(b, n as nat))),
            decreases n - i,
        {
            let j = (i + 1) % n;
            proof {
                assert(j == ring_next(i, n as nat)) by {
                    if i + 1 == n {
                        vstd::arithmetic::div_mod::lemma_mod_self_0(n as int);
                    } else {
                        vstd::arithmetic::div_mod::lemma_small_mod((i + 1) as nat, n as nat);
                    }
                }
                lemma_insert_edge_edges(g@, i, j);
            }
            let _ = g.add_edge(i, j);
            i += 1;
        }
        proof {
            if n >= 3 {
                lemma_ring_linked_cycle(g@);
            }
        }
        Ok(g)
    }

    /// The Petersen graph on the vertices `0..10`.
    pub fn create_petersen() -> (g: Graph)
        ensures
            g.wf(),
            g@ == petersen_lists(),
            g.spec_edge_count() == 15,
            g.spec_first_zagreb_index() == 90,
    {
        let mut g = Graph::new(10);
        assert(!g@[0].contains(1usize));
        let _ = g.add_edge(0, 1);
        assert(g@[0] =~= seq![1usize] && g@[1] =~= seq![0usize]);
        assert(!g@[1].contains(2usize));
        let _ = g.add_edge(1, 2);
        assert(g@[1] =~= seq![0usize, 2] && g@[2] =~= seq![1usize]);
        assert(!g@[2].contains(3usize));
        let _ = g.add_edge(2, 3);
        assert(g@[2] =~= seq![1usize, 3] && g@[3] =~= seq![2usize]);
        assert(!g@[3].contains(4usize));
        let _ = g.add_edge(3, 4);
        assert(g@[3] =~= seq![2usize, 4] && g@[4] =~= seq![3usize]);
        assert(!g@[4].contains(0usize));
        let _ = g.add_edge(4, 0);
        assert(g@[4] =~= seq![3usize, 0] && g@[0] =~= seq![1usize, 4]);
        assert(!g@[0].contains(5usize));
        let _ = g.add_edge(0, 5);
        assert(g@[0] =~= seq![1usize, 4, 5] && g@[5] =~= seq![0usize]);
        assert(!g@[1].contains(6usize));
        let _ = g.add_edge(1, 6);
        assert(g@[1] =~= seq![0usize, 2, 6] && g@[6] =~= seq![1usize]);
        assert(!g@[2].contains(7usize));
        let _ = g.add_edge(2, 7);
        assert(g@[2] =~= seq![1usize, 3, 7] && g@[7] =~= seq![2usize]);
        assert(!g@[3].contains(8usize));
        let _ = g.add_edge(3, 8);
        assert(g@[3] =~= seq![2usize, 4, 8] && g@[8] =~= seq![3usize]);
        assert(!g@[4].contains(9usize));
        let _ = g.add_edge(4, 9);
        assert(g@[4] =~= seq![3usize, 0, 9] && g@[9] =~= seq![4usize]);
        assert(!g@[5].contains(7usize));
        let _ = g.add_edge(5, 7);
        assert(g@[5] =~= seq![0usize, 7] && g@[7] =~= seq![2usize, 5]);
        assert(!g@[7].contains(9usize));
        let _ = g.add_edge(7, 9);
        assert(g@[7] =~= seq![2usize, 5, 9] && g@[9] =~= seq![4usize, 7]);
        assert(!g@[9].contains(6usize));
        let _ = g.add_edge(9, 6);
        assert(g@[9] =~= seq![4usize, 7, 6] && g@[6] =~= seq![1usize, 9]);
        assert(!g@[6].contains(8usize));
        let _ = g.add_edge(6, 8);
        assert(g@[6] =~= seq![1usize, 9, 8] && g@[8] =~= seq![3usize, 6]);
        assert(!g@[8].contains(5usize));
        let _ = g.add_edge(8, 5);
        assert(g@[8] =~= seq![3usize, 6, 5] && g@[5] =~= seq![0usize, 7, 8]);
        assert(g@ =~~= petersen_lists());
        g
    }
}

} // verus!
