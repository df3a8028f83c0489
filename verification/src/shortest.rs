//! Breadth-first search finds shortest paths: the search discovers the
//! vertices in layers of rising distance from its start, so the path it
//! reports is no longer than any walk to the same vertex.
use vstd::prelude::*;
use crate::adjacency::{closed_lists, has_edge};
use crate::search::{
    at_rest, bfs_path, is_walk, lemma_bfs_path, lemma_distinct_bounded, lemma_run, lemma_step,
    lemma_visit_all, linked, path_to, run, search_inv, start, visit, visit_all, walk_between,
    Search,
};

verus! {

/// The number of vertices on the way back from the vertex at position `i` to `s`.
pub open spec fn depth(adj: Seq<Seq<usize>>, s: usize, st: Search, i: int) -> nat {
    path_to(st.parent, s, st.order[i], adj.len()).len()
}

/// The vertices were found in layers: depth never falls along the order, no
/// vertex lies more than one layer behind the one to take up next, and each
/// neighbour of a vertex taken up lies at most one layer behind it.
pub open spec fn layered(adj: Seq<Seq<usize>>, s: usize, st: Search, head: nat) -> bool {
    &&& forall|i: int, j: int|
        0 <= i <= j < st.order.len() ==> #[trigger] depth(adj, s, st, i) <= #[trigger] depth(
            adj,
            s,
            st,
            j,
        )
    &&& forall|j: int|
        0 <= j < st.order.len() && head < st.order.len() ==> #[trigger] depth(adj, s, st, j)
            <= depth(adj, s, st, head as int) + 1
    &&& forall|i: int, w: usize|
        0 <= i < head && #[trigger] has_edge(adj, st.order[i], w) ==> near(adj, s, st, i, w)
}

/// `w` was found, at most one layer behind the vertex at position `i`.
pub open spec fn near(adj: Seq<Seq<usize>>, s: usize, st: Search, i: int, w: usize) -> bool {
    exists|j: int|
        0 <= j < st.order.len() && st.order[j] == w && #[trigger] depth(adj, s, st, j) <= depth(
            adj,
            s,
            st,
            i,
        ) + 1
}

/// The way back from a found vertex does not depend on the steps allowed,
/// once they are as many as its position.
pub proof fn lemma_path_fuel(
    adj: Seq<Seq<usize>>,
    s: usize,
    st: Search,
    head: nat,
    i: int,
    fuel: nat,
)
    requires
        search_inv(adj, s, st, head),
        0 <= i < st.order.len(),
        fuel >= i,
    ensures
        path_to(st.parent, s, st.order[i], fuel) == path_to(st.parent, s, st.order[i], i as nat),
    decreases i,
{
    if i > 0 {
        let v = st.order[i];
        assert(v != st.order[0]);
        assert(linked(adj, st, i));
        let j = choose|j: int| 0 <= j < i && #[trigger] st.order[j] == st.parent[v as int];
        lemma_path_fuel(adj, s, st, head, j, (fuel - 1) as nat);
        lemma_path_fuel(adj, s, st, head, j, (i - 1) as nat);
    }
}

/// The way back from a found vertex stays the same when the search goes on.
pub proof fn lemma_path_kept(
    adj: Seq<Seq<usize>>,
    s: usize,
    st: Search,
    head: nat,
    next: Search,
    i: int,
    fuel: nat,
)
    requires
        search_inv(adj, s, st, head),
        next.parent.len() == st.parent.len(),
        0 <= i < st.order.len(),
        forall|k: int|
            0 <= k < st.order.len() ==> next.parent[(#[trigger] st.order[k]) as int]
                == st.parent[st.order[k] as int],
    ensures
        path_to(next.parent, s, st.order[i], fuel) == path_to(st.parent, s, st.order[i], fuel),
    decreases i,
{
    let v = st.order[i];
    if !(v == s || fuel == 0 || v >= st.parent.len()) {
        assert(i > 0);
        assert(linked(adj, st, i));
        let j = choose|j: int| 0 <= j < i && #[trigger] st.order[j] == st.parent[v as int];
        lemma_path_kept(adj, s, st, head, next, j, (fuel - 1) as nat);
    }
}

/// The depth of a vertex found after the first is one more than that of the
/// vertex it was found from.
pub proof fn lemma_depth_step(adj: Seq<Seq<usize>>, s: usize, st: Search, head: nat, i: int, j: int)
    requires
        search_inv(adj, s, st, head),
        1 <= i < st.order.len(),
        0 <= j < i,
        st.order[j] == st.parent[st.order[i] as int],
    ensures
        depth(adj, s, st, i) == depth(adj, s, st, j) + 1,
{
    let n = adj.len();
    let v = st.order[i];
    assert(v != st.order[0]);
    lemma_distinct_bounded(st.order, n);
    lemma_path_fuel(adj, s, st, head, j, (n - 1) as nat);
    lemma_path_fuel(adj, s, st, head, j, n);
}

/// Meeting a neighbour of the vertex at `head` keeps the layers.
pub proof fn lemma_visit_layered(adj: Seq<Seq<usize>>, s: usize, st: Search, head: nat, v: usize)
    requires
        search_inv(adj, s, st, head),
        search_inv(adj, s, visit(st, st.order[head as int], v), head),
        layered(adj, s, st, head),
        head < st.order.len(),
        v < adj.len(),
    ensures
        layered(adj, s, visit(st, st.order[head as int], v), head),
{
    let u = st.order[head as int];
    let next = visit(st, u, v);
    if !st.order.contains(v) {
        let last = st.order.len() as int;
        assert(next.order[last] == v);
        assert forall|k: int| 0 <= k < st.order.len() implies next.parent[(
        #[trigger] st.order[k]) as int] == st.parent[st.order[k] as int] by {
            assert(st.order.contains(st.order[k]));
        }
        assert forall|k: int| 0 <= k < st.order.len() implies depth(adj, s, next, k) == depth(
            adj,
            s,
            st,
            k,
        ) by {
            assert(next.order[k] == st.order[k]);
            lemma_path_kept(adj, s, st, head, next, k, adj.len());
        }
        assert(next.order[head as int] == u);
        lemma_depth_step(adj, s, next, head, last, head as int);
        assert(depth(adj, s, next, last) == depth(adj, s, st, head as int) + 1);
        assert forall|i: int, j: int| 0 <= i <= j < next.order.len() implies #[trigger] depth(
            adj,
            s,
            next,
            i,
        ) <= #[trigger] depth(adj, s, next, j) by {
            if j < last {
                assert(depth(adj, s, st, i) <= depth(adj, s, st, j));
            } else if i < last {
                assert(depth(adj, s, st, i) <= depth(adj, s, st, head as int) + 1);
            }
        }
        assert forall|j: int| 0 <= j < next.order.len() && head < next.order.len() implies #[trigger] depth(
            adj,
            s,
            next,
            j,
        ) <= depth(adj, s, next, head as int) + 1 by {
            if j < last {
                assert(depth(adj, s, st, j) <= depth(adj, s, st, head as int) + 1);
            }
        }
        assert forall|i: int, w: usize|
            0 <= i < head && #[trigger] has_edge(adj, next.order[i], w) implies near(
            adj,
            s,
            next,
            i,
            w,
        ) by {
            assert(next.order[i] == st.order[i]);
            assert(near(adj, s, st, i, w));
            let j = choose|j: int|
                0 <= j < st.order.len() && st.order[j] == w && #[trigger] depth(adj, s, st, j)
                    <= depth(adj, s, st, i) + 1;
            assert(next.order[j] == w);
            assert(depth(adj, s, next, j) <= depth(adj, s, next, i) + 1);
        }
    }
}

/// Visiting part of the list of the vertex at `head` keeps the layers.
pub proof fn lemma_visit_all_layered(
    adj: Seq<Seq<usize>>,
    s: usize,
    st: Search,
    head: nat,
    k: int,
)
    requires
        search_inv(adj, s, st, head),
        layered(adj, s, st, head),
        head < st.order.len(),
        0 <= k <= adj[st.order[head as int] as int].len(),
    ensures
        layered(
            adj,
            s,
            visit_all(st, st.order[head as int], adj[st.order[head as int] as int].take(k)),
            head,
        ),
    decreases k,
{
    let u = st.order[head as int];
    let list = adj[u as int];
    if k > 0 {
        lemma_visit_all_layered(adj, s, st, head, k - 1);
        lemma_visit_all(adj, s, st, head, k - 1);
        lemma_visit_all(adj, s, st, head, k);
        let mid = visit_all(st, u, list.take(k - 1));
        let v = list[k - 1];
        assert(list.take(k).drop_last() =~= list.take(k - 1));
        assert(list.take(k).last() == v);
        assert(mid.order[head as int] == st.order[head as int]);
        assert(adj[u as int][k - 1] < adj.len());
        lemma_visit_layered(adj, s, mid, head, v);
    } else {
        assert(list.take(0) =~= Seq::<usize>::empty());
    }
}

/// Taking up the vertex at `head` and visiting its whole list keeps the layers.
pub proof fn lemma_step_layered(adj: Seq<Seq<usize>>, s: usize, st: Search, head: nat)
    requires
        search_inv(adj, s, st, head),
        layered(adj, s, st, head),
        head < st.order.len(),
    ensures
        layered(adj, s, visit_all(st, st.order[head as int], adj[st.order[head as int] as int]), head + 1),
{
    let u = st.order[head as int];
    let list = adj[u as int];
    lemma_visit_all_layered(adj, s, st, head, list.len() as int);
    lemma_visit_all(adj, s, st, head, list.len() as int);
    lemma_step(adj, s, st, head);
    assert(list.take(list.len() as int) =~= list);
    let next = visit_all(st, u, list);
    assert(next.order[head as int] == u);
    assert forall|j: int| 0 <= j < next.order.len() && head + 1 < next.order.len() implies #[trigger] depth(
        adj,
        s,
        next,
        j,
    ) <= depth(adj, s, next, head as int + 1) + 1 by {
        assert(depth(adj, s, next, j) <= depth(adj, s, next, head as int) + 1);
        assert(depth(adj, s, next, head as int) <= depth(adj, s, next, head as int + 1));
    }
    assert forall|i: int, w: usize|
        0 <= i < head + 1 && #[trigger] has_edge(adj, next.order[i], w) implies near(
        adj,
        s,
        next,
        i,
        w,
    ) by {
        if i == head {
            let k = choose|k: int| 0 <= k < list.len() && list[k] == w;
            assert(next.order.contains(adj[u as int][k]));
            let j = choose|j: int| 0 <= j < next.order.len() && next.order[j] == w;
            assert(depth(adj, s, next, j) <= depth(adj, s, next, head as int) + 1);
        }
    }
}

/// Running the search on keeps the layers.
pub proof fn lemma_run_layered(
    adj: Seq<Seq<usize>>,
    s: usize,
    st: Search,
    head: nat,
    target: Option<usize>,
)
    requires
        search_inv(adj, s, st, head),
        layered(adj, s, st, head),
    ensures
        layered(adj, s, run(adj, st, head, target).0, run(adj, st, head, target).1),
    decreases adj.len() - head,
{
    if !at_rest(st, head, target) {
        lemma_distinct_bounded(st.order, adj.len());
        let u = st.order[head as int];
        let next = visit_all(st, u, adj[u as int]);
        lemma_step(adj, s, st, head);
        lemma_step_layered(adj, s, st, head);
        lemma_run_layered(adj, s, next, head + 1, target);
    }
}

/// In a search at rest on the vertex at `rest`, the vertex `q[m]` of a walk
/// from `s` that is shorter than the way back from there was found at depth
/// `m + 1` or less.
proof fn lemma_walk_depth(
    adj: Seq<Seq<usize>>,
    s: usize,
    st: Search,
    rest: nat,
    q: Seq<usize>,
    m: int,
) -> (j: int)
    requires
        search_inv(adj, s, st, rest),
        layered(adj, s, st, rest),
        rest < st.order.len(),
        is_walk(adj, q),
        q[0] == s,
        0 <= m < q.len(),
        q.len() < depth(adj, s, st, rest as int),
    ensures
        0 <= j < st.order.len(),
        st.order[j] == q[m],
        depth(adj, s, st, j) <= m + 1,
    decreases m,
{
    if m == 0 {
        assert(path_to(st.parent, s, s, adj.len()) =~= seq![s]);
        0
    } else {
        let i = lemma_walk_depth(adj, s, st, rest, q, m - 1);
        assert(has_edge(adj, q[m - 1], q[m - 1 + 1]));
        if i >= rest {
            assert(depth(adj, s, st, rest as int) <= depth(adj, s, st, i));
        }
        assert(has_edge(adj, st.order[i], q[m]));
        assert(near(adj, s, st, i, q[m]));
        choose|j: int|
            0 <= j < st.order.len() && st.order[j] == q[m] && #[trigger] depth(adj, s, st, j)
                <= depth(adj, s, st, i) + 1
    }
}

/// The path that a breadth-first search reports is a shortest one: no walk
/// from `s` to `t` has fewer vertices.
pub proof fn lemma_bfs_path_shortest(adj: Seq<Seq<usize>>, s: usize, t: usize, q: Seq<usize>)
    requires
        closed_lists(adj),
        s < adj.len() || s == t,
        walk_between(adj, q, s, t),
    ensures
        bfs_path(adj, s, t) matches Some(p) && p.len() <= q.len(),
{
    lemma_bfs_path(adj, s, t);
    let first = start(adj.len(), s);
    if s == t {
        assert(at_rest(first, 0, Some(t)));
        assert(path_to(first.parent, s, t, adj.len()) =~= seq![s]);
    } else {
        assert(first.order.no_duplicates());
        assert(search_inv(adj, s, first, 0));
        assert(path_to(first.parent, s, s, adj.len()) =~= seq![s]);
        assert(layered(adj, s, first, 0));
        lemma_run(adj, s, first, 0, Some(t));
        lemma_run_layered(adj, s, first, 0, Some(t));
        let (last, rest) = run(adj, first, 0, Some(t));
        assert(rest < last.order.len());
        let p = path_to(last.parent, s, t, adj.len());
        if q.len() < p.len() {
            let j = lemma_walk_depth(adj, s, last, rest, q, q.len() - 1);
            assert(j == rest);
        }
    }
}

} // verus!
