//! Breadth-first search over adjacency lists: the search as a mathematical
//! object, what it finds, and the executable search proved against both.
use vstd::prelude::*;
use crate::adjacency::{
    closed_lists, has_edge, lemma_distinct_within, lemma_lists, lemma_push_contains,
    lemma_push_no_duplicates,
};
use crate::graph::Graph;
use crate::shortest::lemma_bfs_path_shortest;

verus! {

/// A walk: a non-empty sequence of vertices in which each is listed as a
/// neighbour of the one before.
pub open spec fn is_walk(adj: Seq<Seq<usize>>, p: Seq<usize>) -> bool {
    &&& p.len() > 0
    &&& forall|i: int| 0 <= i < p.len() - 1 ==> has_edge(adj, #[trigger] p[i], p[i + 1])
}

/// A walk from `s` to `t`.
pub open spec fn walk_between(adj: Seq<Seq<usize>>, p: Seq<usize>, s: usize, t: usize) -> bool {
    is_walk(adj, p) && p.first() == s && p.last() == t
}

/// Whether some walk leads from `s` to `t`. Every vertex reaches itself.
pub open spec fn reachable(adj: Seq<Seq<usize>>, s: usize, t: usize) -> bool {
    exists|p: Seq<usize>| walk_between(adj, p, s, t)
}

/// A breadth-first search in progress.
pub struct Search {
    /// The vertices found so far, in the order in which they were found. The
    /// search takes them up in this order.
    pub order: Seq<usize>,
    /// For each vertex found after the first, the vertex from whose list it was found.
    pub parent: Seq<usize>,
}

/// The search before its first step: only `s` is found.
pub open spec fn start(n: nat, s: usize) -> Search {
    Search { order: seq![s], parent: Seq::new(n, |i: int| s) }
}

/// Meeting `v` in the list of `u`: a vertex not found before is appended to
/// the order and remembers `u`.
pub open spec fn visit(st: Search, u: usize, v: usize) -> Search {
    if st.order.contains(v) {
        st
    } else {
        Search { order: st.order.push(v), parent: st.parent.update(v as int, u) }
    }
}

/// Meeting the vertices of `list`, first to last, in the list of `u`.
pub open spec fn visit_all(st: Search, u: usize, list: Seq<usize>) -> Search
    decreases list.len(),
{
    if list.len() == 0 {
        st
    } else {
        visit(visit_all(st, u, list.drop_last()), u, list.last())
    }
}

/// Whether the search rests at position `head`: nothing is left to take up,
/// or the vertex to take up is the target.
pub open spec fn at_rest(st: Search, head: nat, target: Option<usize>) -> bool {
    head >= st.order.len() || target == Some(st.order[head as int])
}

/// Runs the search on from position `head` of the order: the vertex there is
/// taken up and its list visited, then the next one, until the search rests.
/// Gives the last state and the position at which the search rests.
pub open spec fn run(adj: Seq<Seq<usize>>, st: Search, head: nat, target: Option<usize>) -> (
    Search,
    nat,
)
    decreases adj.len() - head,
{
    if at_rest(st, head, target) || head >= adj.len() || st.order[head as int] >= adj.len() {
        (st, head)
    } else {
        let u = st.order[head as int];
        run(adj, visit_all(st, u, adj[u as int]), head + 1, target)
    }
}

/// The way back from `v` to `s` along the remembered vertices, written from
/// `s` to `v`. It takes at most `fuel` steps.
pub open spec fn path_to(parent: Seq<usize>, s: usize, v: usize, fuel: nat) -> Seq<usize>
    decreases fuel,
{
    if v == s || fuel == 0 || v >= parent.len() {
        seq![v]
    } else {
        path_to(parent, s, parent[v as int], (fuel - 1) as nat).push(v)
    }
}

/// The path that a breadth-first search from `s` finds to `t`, if it reaches `t`.
/// Lists are visited front to back, so among the shortest paths the search
/// prefers neighbours that were added earlier.
pub open spec fn bfs_path(adj: Seq<Seq<usize>>, s: usize, t: usize) -> Option<Seq<usize>> {
    let (last, head) = run(adj, start(adj.len(), s), 0, Some(t));
    if head < last.order.len() {
        Some(path_to(last.parent, s, t, adj.len()))
    } else {
        None
    }
}

/// What holds of a search from `s` that has taken up the first `head`
/// vertices of its order.
pub open spec fn search_inv(adj: Seq<Seq<usize>>, s: usize, st: Search, head: nat) -> bool {
    &&& closed_lists(adj)
    &&& s < adj.len()
    &&& st.parent.len() == adj.len()
    &&& st.order.len() > 0
    &&& st.order[0] == s
    &&& head <= st.order.len()
    &&& st.order.no_duplicates()
    &&& forall|i: int| 0 <= i < st.order.len() ==> (#[trigger] st.order[i]) < adj.len()
    &&& forall|i: int| 1 <= i < st.order.len() ==> linked(adj, st, i)
    &&& forall|j: int, w: usize|
        0 <= j < head && #[trigger] has_edge(adj, st.order[j], w) ==> st.order.contains(w)
}

/// The vertex at position `i` was found in the list of a vertex that stands
/// earlier in the order.
pub open spec fn linked(adj: Seq<Seq<usize>>, st: Search, i: int) -> bool {
    let v = st.order[i];
    let p = st.parent[v as int];
    has_edge(adj, p, v) && exists|j: int| 0 <= j < i && #[trigger] st.order[j] == p
}

/// `a` is the beginning of `b`.
pub open spec fn extends(a: Seq<usize>, b: Seq<usize>) -> bool {
    a.len() <= b.len() && forall|i: int| 0 <= i < a.len() ==> #[trigger] b[i] == a[i]
}

/// Visiting part of the list of the vertex at `head` keeps the search valid,
/// keeps what was found, and finds every vertex visited.
pub proof fn lemma_visit_all(adj: Seq<Seq<usize>>, s: usize, st: Search, head: nat, k: int)
    requires
        search_inv(adj, s, st, head),
        head < st.order.len(),
        0 <= k <= adj[st.order[head as int] as int].len(),
    ensures
        ({
            let u = st.order[head as int];
            let next = visit_all(st, u, adj[u as int].take(k));
            &&& search_inv(adj, s, next, head)
            &&& extends(st.order, next.order)
            &&& forall|i: int|
                0 <= i < st.order.len() ==> next.parent[(#[trigger] st.order[i]) as int]
                    == st.parent[st.order[i] as int]
            &&& forall|i: int| 0 <= i < k ==> next.order.contains(#[trigger] adj[u as int][i])
        }),
    decreases k,
{
    let u = st.order[head as int];
    let list = adj[u as int];
    if k > 0 {
        lemma_visit_all(adj, s, st, head, k - 1);
        let mid = visit_all(st, u, list.take(k - 1));
        let v = list[k - 1];
        assert(list.take(k).drop_last() =~= list.take(k - 1));
        assert(list.take(k).last() == v);
        let next = visit(mid, u, v);
        assert(next == visit_all(st, u, list.take(k)));
        assert(v < adj.len());
        assert(list.contains(v));
        assert(has_edge(adj, u, v));
        if !mid.order.contains(v) {
            lemma_push_no_duplicates(mid.order, v);
            assert forall|i: int| 1 <= i < next.order.len() implies linked(adj, next, i) by {
                if i < mid.order.len() {
                    assert(linked(adj, mid, i));
                    let w = mid.order[i];
                    assert(mid.order.contains(w));
                    let j = choose|j: int| 0 <= j < i && #[trigger] mid.order[j] == mid.parent[w as int];
                    assert(next.order[j] == next.parent[w as int]);
                } else {
                    assert(next.order[head as int] == u);
                }
            }
            assert forall|j: int, w: usize|
                0 <= j < head && #[trigger] has_edge(adj, next.order[j], w) implies next.order.contains(
                w,
            ) by {
                assert(has_edge(adj, mid.order[j], w));
                lemma_push_contains(mid.order, v, w);
            }
            assert forall|i: int| 0 <= i < st.order.len() implies next.parent[(
            #[trigger] st.order[i]) as int] == st.parent[st.order[i] as int] by {
                assert(mid.order[i] == st.order[i]);
                assert(mid.order.contains(st.order[i]));
            }
            assert forall|i: int| 0 <= i < k implies next.order.contains(
                #[trigger] adj[u as int][i],
            ) by {
                lemma_push_contains(mid.order, v, adj[u as int][i]);
            }
        }
    } else {
        assert(list.take(0) =~= Seq::<usize>::empty());
    }
}

/// Taking up the vertex at `head` and visiting its whole list moves a valid
/// search to `head + 1`.
pub proof fn lemma_step(adj: Seq<Seq<usize>>, s: usize, st: Search, head: nat)
    requires
        search_inv(adj, s, st, head),
        head < st.order.len(),
    ensures
        ({
            let u = st.order[head as int];
            let next = visit_all(st, u, adj[u as int]);
            &&& search_inv(adj, s, next, head + 1)
            &&& extends(st.order, next.order)
            &&& forall|i: int|
                0 <= i < st.order.len() ==> next.parent[(#[trigger] st.order[i]) as int]
                    == st.parent[st.order[i] as int]
        }),
{
    let u = st.order[head as int];
    let list = adj[u as int];
    lemma_visit_all(adj, s, st, head, list.len() as int);
    assert(list.take(list.len() as int) =~= list);
    let next = visit_all(st, u, list);
    assert forall|j: int, w: usize|
        0 <= j < head + 1 && #[trigger] has_edge(adj, next.order[j], w) implies next.order.contains(
        w,
    ) by {
        if j == head {
            let i = choose|i: int| 0 <= i < list.len() && list[i] == w;
            assert(next.order.contains(adj[u as int][i]));
        }
    }
}

/// The vertices `0..n` in order.
pub open spec fn all_vertices(n: nat) -> Seq<usize> {
    Seq::new(n, |i: int| i as usize)
}

/// A list of distinct vertices below `n` has at most `n` entries.
pub proof fn lemma_distinct_bounded(a: Seq<usize>, n: nat)
    requires
        a.no_duplicates(),
        forall|i: int| 0 <= i < a.len() ==> (#[trigger] a[i]) < n,
    ensures
        a.len() <= n,
{
    let m: nat = if n <= usize::MAX { n } else { (usize::MAX + 1) as nat };
    let all = all_vertices(m);
    assert forall|i: int| 0 <= i < a.len() implies all.contains(#[trigger] a[i]) by {
        assert(all[a[i] as int] == a[i]);
    }
    lemma_distinct_within(a, all);
}

/// A list of distinct vertices of a graph on `n` vertices has `n` entries
/// exactly when it holds every vertex.
pub proof fn lemma_distinct_vertices(a: Seq<usize>, n: nat)
    requires
        n <= usize::MAX,
        a.no_duplicates(),
        forall|i: int| 0 <= i < a.len() ==> (#[trigger] a[i]) < n,
    ensures
        a.len() <= n,
        a.len() == n <==> (forall|v: usize| v < n ==> a.contains(v)),
{
    let all = all_vertices(n);
    lemma_distinct_bounded(a, n);
    if forall|v: usize| v < n ==> a.contains(v) {
        assert forall|i: int| 0 <= i < all.len() implies a.contains(#[trigger] all[i]) by {}
        lemma_distinct_within(all, a);
    }
    if a.len() == n {
        assert forall|v: usize| v < n implies a.contains(v) by {
            if !a.contains(v) {
                let rest = all.remove(v as int);
                all.remove_ensures(v as int);
                assert forall|i: int| 0 <= i < a.len() implies rest.contains(#[trigger] a[i]) by {
                    let w = a[i];
                    assert(a.contains(w));
                    if w < v {
                        assert(rest[w as int] == all[w as int]);
                    } else {
                        assert(rest[w - 1] == all[w as int]);
                    }
                }
                lemma_distinct_within(a, rest);
            }
        }
    }
}

/// Running a valid search on leaves it valid and at rest, keeps what was
/// found before, and never passes over the target.
pub proof fn lemma_run(
    adj: Seq<Seq<usize>>,
    s: usize,
    st: Search,
    head: nat,
    target: Option<usize>,
)
    requires
        search_inv(adj, s, st, head),
        forall|j: int| 0 <= j < head ==> target != Some(#[trigger] st.order[j]),
    ensures
        ({
            let (last, rest) = run(adj, st, head, target);
            &&& search_inv(adj, s, last, rest)
            &&& at_rest(last, rest, target)
            &&& rest <= last.order.len()
            &&& extends(st.order, last.order)
            &&& forall|i: int|
                0 <= i < st.order.len() ==> last.parent[(#[trigger] st.order[i]) as int]
                    == st.parent[st.order[i] as int]
            &&& forall|j: int| 0 <= j < rest ==> target != Some(#[trigger] last.order[j])
        }),
    decreases adj.len() - head,
{
    if !at_rest(st, head, target) {
        lemma_distinct_bounded(st.order, adj.len());
        let u = st.order[head as int];
        let next = visit_all(st, u, adj[u as int]);
        lemma_step(adj, s, st, head);
        assert forall|j: int| 0 <= j < head + 1 implies target != Some(#[trigger] next.order[j]) by {
            assert(next.order[j] == st.order[j]);
        }
        lemma_run(adj, s, next, head + 1, target);
        let (last, rest) = run(adj, next, head + 1, target);
        assert forall|i: int| 0 <= i < st.order.len() implies last.parent[(
        #[trigger] st.order[i]) as int] == st.parent[st.order[i] as int] by {
            assert(next.order[i] == st.order[i]);
        }
    }
}

/// In a valid search the way back from a found vertex is a walk from `s` to
/// it through found vertices, as long as the position of the vertex.
pub proof fn lemma_path_to(
    adj: Seq<Seq<usize>>,
    s: usize,
    st: Search,
    head: nat,
    i: int,
    fuel: nat,
)
    requires
        search_inv(adj, s, st, head),
        0 <= i < st.order.len(),
        fuel >= i,
    ensures
        ({
            let p = path_to(st.parent, s, st.order[i], fuel);
            &&& walk_between(adj, p, s, st.order[i])
            &&& p.len() <= i + 1
            &&& forall|k: int| 0 <= k < p.len() ==> st.order.contains(#[trigger] p[k])
        }),
    decreases i,
{
    let v = st.order[i];
    let p = path_to(st.parent, s, v, fuel);
    if i == 0 {
        assert(p =~= seq![s]);
        assert(st.order.contains(p[0]));
    } else {
        assert(v != st.order[0]);
        assert(linked(adj, st, i));
        let up = st.parent[v as int];
        let j = choose|j: int| 0 <= j < i && #[trigger] st.order[j] == up;
        lemma_path_to(adj, s, st, head, j, (fuel - 1) as nat);
        let q = path_to(st.parent, s, up, (fuel - 1) as nat);
        assert(p == q.push(v));
        assert forall|k: int| 0 <= k < p.len() - 1 implies has_edge(adj, #[trigger] p[k], p[k + 1]) by {
            if k < q.len() - 1 {
                assert(has_edge(adj, q[k], q[k + 1]));
            }
        }
        assert forall|k: int| 0 <= k < p.len() implies st.order.contains(#[trigger] p[k]) by {
            if k < q.len() {
                assert(st.order.contains(q[k]));
            }
        }
    }
}

/// A search that has taken up all it found has found every vertex a walk from `s` leads to.
pub proof fn lemma_walk_found(adj: Seq<Seq<usize>>, s: usize, st: Search, p: Seq<usize>, k: int)
    requires
        search_inv(adj, s, st, st.order.len()),
        is_walk(adj, p),
        p[0] == s,
        0 <= k < p.len(),
    ensures
        st.order.contains(p[k]),
    decreases k,
{
    if k > 0 {
        lemma_walk_found(adj, s, st, p, k - 1);
        let j = choose|j: int| 0 <= j < st.order.len() && st.order[j] == p[k - 1];
        assert(has_edge(adj, st.order[j], p[k]));
    }
}

/// What a search from `s` towards `t` finds, against what can be reached:
/// it comes to rest on `t` exactly when a walk leads from `s` to `t`, and the
/// path it then reports is such a walk.
pub proof fn lemma_bfs_path(adj: Seq<Seq<usize>>, s: usize, t: usize)
    requires
        closed_lists(adj),
        s < adj.len() || s == t,
    ensures
        bfs_path(adj, s, t).is_some() <==> reachable(adj, s, t),
        bfs_path(adj, s, t) matches Some(p) ==> walk_between(adj, p, s, t) && p.len() <= adj.len()
            + 1,
        bfs_path(adj, s, t) matches Some(p) ==> s < adj.len() ==> forall|k: int|
            0 <= k < p.len() ==> (#[trigger] p[k]) < adj.len(),
{
    let first = start(adj.len(), s);
    if s == t {
        assert(at_rest(first, 0, Some(t)));
        assert(path_to(first.parent, s, t, adj.len()) =~= seq![s]);
        assert(walk_between(adj, seq![s], s, t));
    } else {
        assert(first.order.no_duplicates());
        assert(search_inv(adj, s, first, 0));
        lemma_run(adj, s, first, 0, Some(t));
        let (last, rest) = run(adj, first, 0, Some(t));
        lemma_distinct_bounded(last.order, adj.len());
        if rest < last.order.len() {
            lemma_path_to(adj, s, last, rest, rest as int, adj.len());
            let p = path_to(last.parent, s, t, adj.len());
            assert(walk_between(adj, p, s, t));
            assert forall|k: int| 0 <= k < p.len() implies (#[trigger] p[k]) < adj.len() by {
                assert(last.order.contains(p[k]));
            }
        } else {
            if reachable(adj, s, t) {
                let p = choose|p: Seq<usize>| walk_between(adj, p, s, t);
                lemma_walk_found(adj, s, last, p, p.len() - 1);
                let j = choose|j: int| 0 <= j < last.order.len() && last.order[j] == t;
                assert(Some(t) != Some(last.order[j]));
            }
        }
    }
}

/// The vertices that a search without target finds from `s`, in the order in
/// which it finds them.
pub open spec fn found_from(adj: Seq<Seq<usize>>, s: usize) -> Seq<usize> {
    run(adj, start(adj.len(), s), 0, None).0.order
}

/// A search without target finds each vertex once, and finds exactly the
/// vertices that walks from `s` lead to.
pub proof fn lemma_found_from(adj: Seq<Seq<usize>>, s: usize)
    requires
        closed_lists(adj),
        s < adj.len(),
    ensures
        found_from(adj, s).no_duplicates(),
        forall|t: usize| found_from(adj, s).contains(t) <==> reachable(adj, s, t),
        forall|i: int|
            0 <= i < found_from(adj, s).len() ==> (#[trigger] found_from(adj, s)[i]) < adj.len(),
{
    let first = start(adj.len(), s);
    assert(first.order.no_duplicates());
    assert(search_inv(adj, s, first, 0));
    lemma_run(adj, s, first, 0, None);
    let (last, rest) = run(adj, first, 0, None);
    assert forall|t: usize| last.order.contains(t) <==> reachable(adj, s, t) by {
        if last.order.contains(t) {
            let i = choose|i: int| 0 <= i < last.order.len() && last.order[i] == t;
            lemma_path_to(adj, s, last, rest, i, i as nat);
            assert(walk_between(adj, path_to(last.parent, s, t, i as nat), s, t));
        }
        if reachable(adj, s, t) {
            let p = choose|p: Seq<usize>| walk_between(adj, p, s, t);
            lemma_walk_found(adj, s, last, p, p.len() - 1);
        }
    }
}

/// Whether every vertex can be reached from vertex 0. A graph without
/// vertices is connected.
pub open spec fn connected(adj: Seq<Seq<usize>>) -> bool {
    forall|v: usize| v < adj.len() ==> reachable(adj, 0, v)
}

impl Graph {
    /// Whether the graph is connected.
    pub open spec fn spec_is_connected(&self) -> bool {
        connected(self@)
    }

    /// Whether the graph is connected, by a breadth-first search from vertex 0.
    pub fn is_connected(&self) -> (b: bool)
        requires
            self.wf(),
        ensures
            b == self.spec_is_connected(),
    {
        let n = self.adj.len();
        if n == 0 {
            return true;
        }
        let (order, _, _) = breadth_first(&self.adj, 0, None);
        proof {
            let found = found_from(self@, 0);
            assert(order@ == found);
            lemma_found_from(self@, 0);
            lemma_distinct_vertices(found, n as nat);
            if found.len() == n {
                assert forall|v: usize| v < n implies reachable(self@, 0, v) by {
                    assert(found.contains(v));
                }
            } else {
                let v = choose|v: usize| v < n && !found.contains(v);
                assert(!reachable(self@, 0, v));
            }
        }
        order.len() == n
    }

    /// The path that a breadth-first search finds from `s` to `t` in the
    /// graph with the adjacency lists `edges`, or `None` when no walk leads
    /// from `s` to `t`. The lists need not be those of this graph.
    pub fn find_path_in_subgraph(&self, edges: &Vec<Vec<usize>>, s: usize, t: usize) -> (r: Option<
        Vec<usize>,
    >)
        requires
            closed_lists(edges.deep_view()),
            s < edges.len() || s == t,
        ensures
            match r {
                Some(p) => bfs_path(edges.deep_view(), s, t) == Some(p@),
                None => bfs_path(edges.deep_view(), s, t).is_none(),
            },
            r.is_some() <==> reachable(edges.deep_view(), s, t),
            r matches Some(p) ==> walk_between(edges.deep_view(), p@, s, t),
            r matches Some(p) ==> s < edges.len() ==> forall|k: int|
                0 <= k < p.len() ==> (#[trigger] p@[k]) < edges.len(),
            r matches Some(p) ==> forall|q: Seq<usize>| #[trigger]
                walk_between(edges.deep_view(), q, s, t) ==> p.len() <= q.len(),
    {
        search_path(edges, s, t)
    }

    /// The path that a breadth-first search finds from `s` to `t`, or `None`
    /// when no walk leads from `s` to `t`.
    pub fn find_path(&self, s: usize, t: usize) -> (r: Option<Vec<usize>>)
        requires
            self.wf(),
            s < self.spec_vertex_count() || s == t,
        ensures
            match r {
                Some(p) => bfs_path(self@, s, t) == Some(p@),
                None => bfs_path(self@, s, t).is_none(),
            },
            r.is_some() <==> reachable(self@, s, t),
            r matches Some(p) ==> walk_between(self@, p@, s, t),
            r matches Some(p) ==> forall|q: Seq<usize>| #[trigger]
                walk_between(self@, q, s, t) ==> p.len() <= q.len(),
    {
        self.find_path_in_subgraph(&self.adj, s, t)
    }

    /// Whether a walk leads from `s` to `t`.
    pub fn is_path_between(&self, s: usize, t: usize) -> (b: bool)
        requires
            self.wf(),
            s < self.spec_vertex_count() || s == t,
        ensures
            b == reachable(self@, s, t),
    {
        self.find_path(s, t).is_some()
    }
}

/// The path that a breadth-first search finds from `s` to `t` in the graph
/// with the adjacency lists `edges`, or `None` when no walk leads from `s` to `t`.
pub fn search_path(edges: &Vec<Vec<usize>>, s: usize, t: usize) -> (r: Option<Vec<usize>>)
    requires
        closed_lists(edges.deep_view()),
        s < edges.len() || s == t,
    ensures
        match r {
            Some(p) => bfs_path(edges.deep_view(), s, t) == Some(p@),
            None => bfs_path(edges.deep_view(), s, t).is_none(),
        },
        r.is_some() <==> reachable(edges.deep_view(), s, t),
        r matches Some(p) ==> walk_between(edges.deep_view(), p@, s, t),
        r matches Some(p) ==> s < edges.len() ==> forall|k: int|
            0 <= k < p.len() ==> (#[trigger] p@[k]) < edges.len(),
        r matches Some(p) ==> forall|q: Seq<usize>| #[trigger]
            walk_between(edges.deep_view(), q, s, t) ==> p.len() <= q.len(),
{
    let ghost a = edges.deep_view();
    proof {
        lemma_bfs_path(a, s, t);
        assert forall|q: Seq<usize>| #[trigger] walk_between(a, q, s, t) implies (bfs_path(
            a,
            s,
            t,
        ) matches Some(p) && p.len() <= q.len()) by {
            lemma_bfs_path_shortest(a, s, t, q);
        }
    }
    if s == t {
        let mut path: Vec<usize> = Vec::new();
        path.push(s);
        proof {
            let first = start(a.len(), s);
            assert(at_rest(first, 0, Some(t)));
            assert(path_to(first.parent, s, t, a.len()) =~= seq![s]);
            assert(path@ =~= seq![s]);
        }
        return Some(path);
    }
    let n = edges.len();
    let (order, parent, head) = breadth_first(edges, s, Some(t));
    let ghost last = Search { order: order@, parent: parent@ };
    proof {
        let first = start(a.len(), s);
        assert(first.order.no_duplicates());
        assert(search_inv(a, s, first, 0));
        lemma_run(a, s, first, 0, Some(t));
        lemma_distinct_bounded(order@, n as nat);
    }
    if head >= order.len() {
        return None;
    }
    let ghost full = path_to(last.parent, s, t, n as nat);
    let mut back: Vec<usize> = Vec::new();
    back.push(t);
    let mut current = t;
    let ghost mut pos: int = head as int;
    let ghost mut fuel: nat = n as nat;
    proof {
        assert(back@.drop_last() =~= Seq::<usize>::empty());
        assert(full =~= path_to(last.parent, s, t, n as nat) + back@.drop_last().reverse());
    }
    while current != s
        invariant
            search_inv(a, s, last, head as nat),
            last == (Search { order: order@, parent: parent@ }),
            parent.len() == n,
            0 <= pos < order.len(),
            order@[pos] == current,
            pos <= fuel,
            back.len() >= 1,
            back@.last() == current,
            full == path_to(last.parent, s, current, fuel) + back@.drop_last().reverse(),
        decreases pos,
    {
        let ghost below = path_to(last.parent, s, last.parent[current as int], (fuel - 1) as nat);
        let ghost tail = back@.drop_last().reverse();
        proof {
            assert(current != order@[0]);
            assert(linked(a, last, pos));
            assert(path_to(last.parent, s, current, fuel) == below.push(current));
        }
        let ghost lower = choose|j: int|
            0 <= j < pos && #[trigger] last.order[j] == last.parent[current as int];
        let ghost earlier = back@;
        current = parent[current];
        back.push(current);
        proof {
            pos = lower;
            fuel = (fuel - 1) as nat;
            assert(back@.drop_last() =~= earlier);
            assert(earlier.reverse() =~= seq![earlier.last()] + tail);
            assert(full =~= below + back@.drop_last().reverse());
        }
    }
    proof {
        assert(path_to(last.parent, s, current, fuel) =~= seq![s]);
        assert(full =~= back@.reverse());
    }
    let mut path: Vec<usize> = Vec::new();
    let mut k: usize = back.len();
    while k > 0
        invariant
            k <= back.len(),
            path@ == back@.reverse().take(back.len() - k),
        decreases k,
    {
        k -= 1;
        path.push(back[k]);
        assert(path@ =~= back@.reverse().take(back.len() - k));
    }
    assert(path@ =~= back@.reverse());
    Some(path)
}

/// A vector of `n` copies of `x`.
pub(crate) fn filled(n: usize, x: usize) -> (v: Vec<usize>)
    ensures
        v@ == Seq::new(n as nat, |i: int| x),
{
    let mut v: Vec<usize> = Vec::new();
    let mut i: usize = 0;
    while i < n
        invariant
            i <= n,
            v@ == Seq::new(i as nat, |j: int| x),
        decreases n - i,
    {
        v.push(x);
        i += 1;
        assert(v@ =~= Seq::new(i as nat, |j: int| x));
    }
    v
}

/// A vector of `n` flags, all of them `flag`.
pub(crate) fn flags(n: usize, flag: bool) -> (v: Vec<bool>)
    ensures
        v@ == Seq::new(n as nat, |i: int| flag),
{
    let mut v: Vec<bool> = Vec::new();
    let mut i: usize = 0;
    while i < n
        invariant
            i <= n,
            v@ == Seq::new(i as nat, |j: int| flag),
        decreases n - i,
    {
        v.push(flag);
        i += 1;
        assert(v@ =~= Seq::new(i as nat, |j: int| flag));
    }
    v
}

/// Whether `u` is the target of the search.
fn is_target(target: Option<usize>, u: usize) -> (hit: bool)
    ensures
        hit == (target == Some(u)),
{
    match target {
        Some(t) => t == u,
        None => false,
    }
}

/// Runs a breadth-first search from `s` until it takes up the target or has
/// nothing left to take up. Gives the order in which the vertices were
/// found, the vertex each was found from, and the position at which the
/// search came to rest.
pub(crate) fn breadth_first(adj: &Vec<Vec<usize>>, s: usize, target: Option<usize>) -> (r: (
    Vec<usize>,
    Vec<usize>,
    usize,
))
    requires
        closed_lists(adj.deep_view()),
        s < adj.len(),
    ensures
        (Search { order: r.0@, parent: r.1@ }, r.2 as nat) == run(
            adj.deep_view(),
            start(adj.len() as nat, s),
            0,
            target,
        ),
{
    let n = adj.len();
    let ghost a = adj.deep_view();
    let ghost first = start(n as nat, s);
    let mut seen = flags(n, false);
    let mut parent = filled(n, s);
    let mut order: Vec<usize> = Vec::new();
    order.push(s);
    seen[s] = true;
    let mut head: usize = 0;
    proof {
        lemma_lists(*adj);
        assert(order@ =~= first.order);
        assert(parent@ =~= first.parent);
        assert(first.order.no_duplicates());
        assert forall|w: usize| w < n implies seen@[w as int] == order@.contains(w) by {
            if w == s {
                assert(order@[0] == w);
            }
        }
    }
    while head < order.len() && !is_target(target, order[head])
        invariant
            n == adj.len(),
            a == adj.deep_view(),
            forall|i: int| 0 <= i < n ==> #[trigger] a[i] == adj[i]@,
            seen.len() == n,
            search_inv(a, s, (Search { order: order@, parent: parent@ }), head as nat),
            forall|w: usize| w < n ==> seen@[w as int] == order@.contains(w),
            run(a, first, 0, target) == run(
                a,
                (Search { order: order@, parent: parent@ }),
                head as nat,
                target,
            ),
        decreases n - head,
    {
        let ghost taken = Search { order: order@, parent: parent@ };
        proof {
            lemma_distinct_bounded(order@, n as nat);
            lemma_step(a, s, taken, head as nat);
        }
        let u = order[head];
        let list = &adj[u];
        let mut i: usize = 0;
        assert(list@.take(0) =~= Seq::<usize>::empty());
        while i < list.len()
            invariant
                i <= list.len(),
                n == adj.len(),
                n == a.len(),
                u < n,
                head < taken.order.len(),
                u == taken.order[head as int],
                list@ == a[u as int],
                seen.len() == n,
                parent.len() == n,
                search_inv(a, s, taken, head as nat),
                (Search { order: order@, parent: parent@ }) == visit_all(
                    taken,
                    u,
                    list@.take(i as int),
                ),
                forall|w: usize| w < n ==> seen@[w as int] == order@.contains(w),
            decreases list.len() - i,
        {
            let v = list[i];
            proof {
                assert(list@.take(i + 1).drop_last() =~= list@.take(i as int));
                assert(list@.take(i + 1).last() == v);
                assert(a[u as int][i as int] < n);
                lemma_visit_all(a, s, taken, head as nat, i as int);
            }
            if !seen[v] {
                let ghost before = order@;
                seen[v] = true;
                parent[v] = u;
                order.push(v);
                proof {
                    assert forall|w: usize| w < n implies seen@[w as int] == order@.contains(
                        w,
                    ) by {
                        lemma_push_contains(before, v, w);
                    }
                }
            }
            i += 1;
        }
        proof {
            assert(list@.take(list.len() as int) =~= list@);
        }
        head += 1;
    }
    (order, parent, head)
}

} // verus!
