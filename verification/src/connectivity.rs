//! Vertex connectivity: a greedy count of internally disjoint paths between
//! two vertices, and the tests for k-connectivity built on it.
use vstd::prelude::*;
use crate::adjacency::{
    closed_lists, degrees, has_edge, least, lemma_degree_bounds, lemma_lists,
    lemma_push_contains, zagreb,
};
use crate::classify::{complete, cycle, edges_of, path, star};
use crate::graph::{list_contains, Graph};
use crate::search::{bfs_path, connected, lemma_bfs_path, reachable, search_path};

verus! {

/// How many path searches one count of disjoint paths may continue after.
pub const MAX_ATTEMPTS: usize = 100;

/// The list without the entries equal to `x`, the others in their order.
pub open spec fn without(list: Seq<usize>, x: usize) -> Seq<usize>
    decreases list.len(),
{
    if list.len() == 0 {
        list
    } else if list.last() == x {
        without(list.drop_last(), x)
    } else {
        without(list.drop_last(), x).push(list.last())
    }
}

/// The adjacency lists without the edge between `s` and `t`.
pub open spec fn unlink(adj: Seq<Seq<usize>>, s: usize, t: usize) -> Seq<Seq<usize>> {
    Seq::new(
        adj.len(),
        |u: int|
            if u == s {
                without(adj[u], t)
            } else if u == t {
                without(adj[u], s)
            } else {
                adj[u]
            },
    )
}

/// The adjacency lists after every edge at `v` is removed on both sides:
/// the list of `v` is empty, and `v` is gone from the lists of the vertices
/// that the list of `v` named. The vertex itself stays.
pub open spec fn isolate(adj: Seq<Seq<usize>>, v: usize) -> Seq<Seq<usize>> {
    Seq::new(
        adj.len(),
        |u: int|
            if u == v {
                Seq::<usize>::empty()
            } else if has_edge(adj, v, u as usize) {
                without(adj[u], v)
            } else {
                adj[u]
            },
    )
}

/// The adjacency lists after the vertices of `vs` are isolated one after another.
pub open spec fn isolate_all(adj: Seq<Seq<usize>>, vs: Seq<usize>) -> Seq<Seq<usize>>
    decreases vs.len(),
{
    if vs.len() == 0 {
        adj
    } else {
        isolate(isolate_all(adj, vs.drop_last()), vs.last())
    }
}

/// The vertices of a path between its two ends.
pub open spec fn inner(p: Seq<usize>) -> Seq<usize> {
    p.subrange(1, p.len() - 1)
}

/// The greedy count of paths from `s` to `t` that share no inner vertex,
/// continued from a state in which `count` paths were found in `attempts`
/// rounds. Each round searches a path breadth-first and counts it; the count
/// is final when no path is found, when it reaches `limit`, or after
/// `MAX_ATTEMPTS` rounds; else the inner vertices of the path are isolated
/// and the next round begins.
pub open spec fn greedy_paths(
    adj: Seq<Seq<usize>>,
    s: usize,
    t: usize,
    limit: nat,
    attempts: nat,
    count: nat,
) -> nat
    decreases MAX_ATTEMPTS - attempts,
{
    match bfs_path(adj, s, t) {
        None => count,
        Some(p) => if count + 1 >= limit || attempts >= MAX_ATTEMPTS {
            count + 1
        } else {
            greedy_paths(isolate_all(adj, inner(p)), s, t, limit, attempts + 1, count + 1)
        },
    }
}

/// The smaller of the degrees of `s` and `t`.
pub open spec fn smaller_degree(adj: Seq<Seq<usize>>, s: usize, t: usize) -> nat {
    if adj[s as int].len() <= adj[t as int].len() {
        adj[s as int].len()
    } else {
        adj[t as int].len()
    }
}

/// The number of internally disjoint paths that the library counts between
/// `s` and `t`. Complete graphs, cycles, and the two ends of a path are
/// answered by their shape. For neighbours the edge between them counts as
/// one path and the others are counted greedily without that edge, up to
/// one less than the smaller degree of the two; for other pairs all paths
/// are counted greedily, up to the smaller degree. The greedy count is no
/// maximum in general.
pub open spec fn disjoint_paths(adj: Seq<Seq<usize>>, s: usize, t: usize) -> nat {
    let n = adj.len();
    if complete(adj) {
        (n - 1) as nat
    } else if cycle(adj) {
        2
    } else if path(adj) && ((s == 0 && t == n - 1) || (t == 0 && s == n - 1)) {
        1
    } else if has_edge(adj, s, t) {
        1 + greedy_paths(
            unlink(adj, s, t),
            s,
            t,
            (smaller_degree(adj, s, t) - 1) as nat,
            0,
            0,
        )
    } else {
        greedy_paths(adj, s, t, smaller_degree(adj, s, t), 0, 0)
    }
}

/// The test by Menger's theorem: a graph with more than `k` vertices and least
/// degree at least `k` is taken to be `k`-connected when every pair of
/// vertices has at least `k` counted disjoint paths. One-connectivity is
/// decided by reachability, cycles and complete graphs by their shape.
pub open spec fn menger(adj: Seq<Seq<usize>>, k: nat) -> bool {
    let n = adj.len();
    if n <= k {
        false
    } else if least(degrees(adj)) < k {
        false
    } else if k == 1 {
        connected(adj)
    } else if cycle(adj) {
        k <= 2
    } else if complete(adj) {
        k <= n - 1
    } else {
        forall|s: usize, t: usize| s < t < n ==> #[trigger] disjoint_paths(adj, s, t) >= k
    }
}

/// The exact test for `k`-connectivity.
pub open spec fn k_connected_exact(adj: Seq<Seq<usize>>, k: nat) -> bool {
    let n = adj.len();
    if k > n - 1 {
        false
    } else if least(degrees(adj)) < k {
        false
    } else if complete(adj) {
        k <= n - 1
    } else if k == 1 {
        connected(adj)
    } else {
        menger(adj, k)
    }
}

/// The heuristic test for `k`-connectivity. After the necessary conditions
/// and the shapes with a known answer, a graph with at least
/// `(n - 1) k / 2 + 1` edges is accepted; a sparser one is accepted when the
/// ratio of Zagreb index to edge count is not below `k` times the average
/// degree `2 e / n`, which is undefined and refused without edges.
pub open spec fn k_connected_approx(adj: Seq<Seq<usize>>, k: nat) -> bool {
    let n = adj.len();
    let e = edges_of(adj);
    if k > n - 1 {
        false
    } else if least(degrees(adj)) < k {
        false
    } else if k == 1 {
        connected(adj)
    } else if complete(adj) {
        k <= n - 1
    } else if cycle(adj) {
        k <= 2
    } else if path(adj) {
        k <= 1
    } else if star(adj) {
        k <= 1
    } else if e >= (n - 1) * k / 2 + 1 {
        true
    } else {
        e > 0 && zagreb(adj) * n >= 2 * k * e * e
    }
}

/// The test for `k`-connectivity: complete graphs are answered at once, all
/// others by the exact or by the heuristic test as `exact` says.
pub open spec fn k_connected(adj: Seq<Seq<usize>>, k: nat, exact: bool) -> bool {
    if complete(adj) {
        k <= adj.len() - 1
    } else if exact {
        k_connected_exact(adj, k)
    } else {
        k_connected_approx(adj, k)
    }
}

/// The greedy count goes on from the paths counted so far. It is positive
/// from a fresh start exactly when a walk leads from `s` to `t`, and beyond the
/// first path it stops at `limit`.
pub proof fn lemma_greedy_paths(
    adj: Seq<Seq<usize>>,
    s: usize,
    t: usize,
    limit: nat,
    attempts: nat,
    count: nat,
)
    requires
        closed_lists(adj),
        s < adj.len(),
    ensures
        count <= greedy_paths(adj, s, t, limit, attempts, count),
        greedy_paths(adj, s, t, limit, attempts, count) <= count + 1 || greedy_paths(
            adj,
            s,
            t,
            limit,
            attempts,
            count,
        ) <= limit,
        greedy_paths(adj, s, t, limit, attempts, count) > count <==> reachable(adj, s, t),
        greedy_paths(adj, s, t, limit, attempts, count) + attempts <= count + MAX_ATTEMPTS + 1
            || attempts > MAX_ATTEMPTS,
    decreases MAX_ATTEMPTS - attempts,
{
    lemma_bfs_path(adj, s, t);
    match bfs_path(adj, s, t) {
        None => {},
        Some(p) => {
            if !(count + 1 >= limit || attempts >= MAX_ATTEMPTS) {
                let next = isolate_all(adj, inner(p));
                lemma_isolate_all_closed(adj, inner(p));
                lemma_greedy_paths(next, s, t, limit, attempts + 1, count + 1);
            }
        },
    }
}

/// What `without` keeps: the entries other than `x`, each of them an entry of the list.
pub proof fn lemma_without(list: Seq<usize>, x: usize)
    ensures
        forall|y: usize|
            #![trigger without(list, x).contains(y)]
            without(list, x).contains(y) <==> list.contains(y) && y != x,
        without(list, x).len() <= list.len(),
    decreases list.len(),
{
    let kept = without(list, x);
    if list.len() > 0 {
        let front = list.drop_last();
        lemma_without(front, x);
        let before = without(front, x);
        assert forall|y: usize| kept.contains(y) <==> list.contains(y) && y != x by {
            if list.contains(y) {
                let i = choose|i: int| 0 <= i < list.len() && list[i] == y;
                if i < front.len() {
                    assert(front[i] == y);
                    assert(front.contains(y));
                }
            }
            if front.contains(y) {
                let i = choose|i: int| 0 <= i < front.len() && front[i] == y;
                assert(list[i] == y);
            }
            if before.contains(y) {
                let i = choose|i: int| 0 <= i < before.len() && before[i] == y;
                if list.last() != x {
                    assert(kept[i] == y);
                }
            }
            if list.last() != x {
                assert(kept.last() == list.last());
                assert(list[list.len() - 1] == list.last());
                if kept.contains(y) {
                    let i = choose|i: int| 0 <= i < kept.len() && kept[i] == y;
                    if i < before.len() {
                        assert(before[i] == y);
                    }
                }
            }
        }
    }
}

/// Entries below `n` stay below `n`.
pub proof fn lemma_without_below(list: Seq<usize>, x: usize, n: nat)
    requires
        forall|i: int| 0 <= i < list.len() ==> (#[trigger] list[i]) < n,
    ensures
        forall|i: int| 0 <= i < without(list, x).len() ==> (#[trigger] without(list, x)[i]) < n,
    decreases list.len(),
{
    if list.len() > 0 {
        let front = list.drop_last();
        assert forall|i: int| 0 <= i < front.len() implies (#[trigger] front[i]) < n by {
            assert(front[i] == list[i]);
        }
        lemma_without_below(front, x, n);
        assert(list[list.len() - 1] < n);
        let before = without(front, x);
        let kept = without(list, x);
        assert forall|i: int| 0 <= i < kept.len() implies (#[trigger] kept[i]) < n by {
            if i < before.len() {
                assert(kept[i] == before[i]);
            }
        }
    }
}

/// Removing an edge keeps all listed neighbours in range.
pub proof fn lemma_unlink_closed(adj: Seq<Seq<usize>>, s: usize, t: usize)
    requires
        closed_lists(adj),
    ensures
        closed_lists(unlink(adj, s, t)),
        unlink(adj, s, t).len() == adj.len(),
{
    let next = unlink(adj, s, t);
    assert forall|u: int, i: int| 0 <= u < next.len() && 0 <= i < next[u].len() implies (
    #[trigger] next[u][i]) < next.len() by {
        assert forall|j: int| 0 <= j < adj[u].len() implies (#[trigger] adj[u][j]) < adj.len() by {}
        lemma_without_below(adj[u], t, adj.len());
        lemma_without_below(adj[u], s, adj.len());
    }
}

/// Isolating a vertex keeps all listed neighbours in range.
pub proof fn lemma_isolate_closed(adj: Seq<Seq<usize>>, v: usize)
    requires
        closed_lists(adj),
    ensures
        closed_lists(isolate(adj, v)),
        isolate(adj, v).len() == adj.len(),
{
    let next = isolate(adj, v);
    assert forall|u: int, i: int| 0 <= u < next.len() && 0 <= i < next[u].len() implies (
    #[trigger] next[u][i]) < next.len() by {
        assert forall|j: int| 0 <= j < adj[u].len() implies (#[trigger] adj[u][j]) < adj.len() by {}
        lemma_without_below(adj[u], v, adj.len());
    }
}

/// Isolating vertices one after another keeps all listed neighbours in range.
pub proof fn lemma_isolate_all_closed(adj: Seq<Seq<usize>>, vs: Seq<usize>)
    requires
        closed_lists(adj),
    ensures
        closed_lists(isolate_all(adj, vs)),
        isolate_all(adj, vs).len() == adj.len(),
    decreases vs.len(),
{
    if vs.len() > 0 {
        lemma_isolate_all_closed(adj, vs.drop_last());
        lemma_isolate_closed(isolate_all(adj, vs.drop_last()), vs.last());
    }
}

/// A copy of `list` without the entries equal to `x`.
fn list_without(list: &Vec<usize>, x: usize) -> (kept: Vec<usize>)
    ensures
        kept@ == without(list@, x),
{
    let mut kept: Vec<usize> = Vec::new();
    let mut i: usize = 0;
    assert(list@.take(0) =~= Seq::<usize>::empty());
    while i < list.len()
        invariant
            i <= list.len(),
            kept@ == without(list@.take(i as int), x),
        decreases list.len() - i,
    {
        proof {
            assert(list@.take(i + 1).drop_last() =~= list@.take(i as int));
            assert(list@.take(i + 1).last() == list@[i as int]);
        }
        if list[i] != x {
            kept.push(list[i]);
        }
        i += 1;
    }
    assert(list@.take(list.len() as int) =~= list@);
    kept
}

/// A copy of `list`.
fn list_copy(list: &Vec<usize>) -> (copy: Vec<usize>)
    ensures
        copy@ == list@,
{
    let mut copy: Vec<usize> = Vec::new();
    let mut i: usize = 0;
    while i < list.len()
        invariant
            i <= list.len(),
            copy@ == list@.take(i as int),
        decreases list.len() - i,
    {
        copy.push(list[i]);
        i += 1;
        assert(copy@ =~= list@.take(i as int));
    }
    assert(list@.take(list.len() as int) =~= list@);
    copy
}

/// A working copy of the adjacency lists.
fn lists_copy(adj: &Vec<Vec<usize>>) -> (copy: Vec<Vec<usize>>)
    ensures
        copy.deep_view() == adj.deep_view(),
{
    let mut copy: Vec<Vec<usize>> = Vec::new();
    let mut u: usize = 0;
    proof {
        lemma_lists(*adj);
    }
    while u < adj.len()
        invariant
            u <= adj.len(),
            copy.len() == u,
            forall|i: int| 0 <= i < u ==> (#[trigger] copy[i])@ == adj[i]@,
        decreases adj.len() - u,
    {
        let list = list_copy(&adj[u]);
        copy.push(list);
        u += 1;
    }
    proof {
        lemma_lists(copy);
        assert(copy.deep_view() =~= adj.deep_view());
    }
    copy
}

/// A working copy of the adjacency lists without the edge between `s` and `t`.
fn lists_unlinked(adj: &Vec<Vec<usize>>, s: usize, t: usize) -> (copy: Vec<Vec<usize>>)
    ensures
        copy.deep_view() == unlink(adj.deep_view(), s, t),
{
    let mut copy: Vec<Vec<usize>> = Vec::new();
    let mut u: usize = 0;
    let ghost goal = unlink(adj.deep_view(), s, t);
    proof {
        lemma_lists(*adj);
    }
    while u < adj.len()
        invariant
            u <= adj.len(),
            copy.len() == u,
            goal == unlink(adj.deep_view(), s, t),
            forall|i: int| 0 <= i < adj.len() ==> #[trigger] adj.deep_view()[i] == adj[i]@,
            forall|i: int| 0 <= i < u ==> (#[trigger] copy[i])@ == goal[i],
        decreases adj.len() - u,
    {
        let list = if u == s {
            list_without(&adj[u], t)
        } else if u == t {
            list_without(&adj[u], s)
        } else {
            list_copy(&adj[u])
        };
        assert(adj.deep_view()[u as int] == adj[u as int]@);
        copy.push(list);
        u += 1;
    }
    proof {
        lemma_lists(copy);
        assert(copy.deep_view() =~= goal);
    }
    copy
}

/// Removes every edge at `v` from the working lists, on both sides.
fn isolate_vertex(working: &mut Vec<Vec<usize>>, v: usize)
    requires
        closed_lists(old(working).deep_view()),
        v < old(working).len(),
    ensures
        final(working).deep_view() == isolate(old(working).deep_view(), v),
{
    let ghost before = working.deep_view();
    let ghost goal = isolate(before, v);
    let list = list_copy(&working[v]);
    proof {
        lemma_lists(*working);
    }
    let mut i: usize = 0;
    while i < list.len()
        invariant
            i <= list.len(),
            v < working.len(),
            working.len() == before.len(),
            closed_lists(before),
            list@ == before[v as int],
            goal == isolate(before, v),
            forall|u: int|
                0 <= u < working.len() ==> (#[trigger] working[u])@ == if u != v
                    && list@.take(i as int).contains(u as usize) {
                    without(before[u], v)
                } else {
                    before[u]
                },
        decreases list.len() - i,
    {
        let w = list[i];
        assert(before[v as int][i as int] < before.len());
        let ghost done = list@.take(i as int);
        proof {
            assert(list@.take(i + 1) =~= done.push(w));
            assert forall|u: usize| list@.take(i + 1).contains(u) <==> done.contains(u) || u
                == w by {
                lemma_push_contains(done, w, u);
            }
        }
        if w != v && list_contains(&working[w], v) {
            let kept = list_without(&working[w], v);
            proof {
                if done.contains(w) {
                    lemma_without(before[w as int], v);
                    assert(!working[w as int]@.contains(v));
                }
            }
            working[w] = kept;
        } else {
            proof {
                if w != v && !done.contains(w) {
                    lemma_without_absent(before[w as int], v);
                }
            }
        }
        i += 1;
    }
    working[v] = Vec::new();
    proof {
        assert(list@.take(list.len() as int) =~= list@);
        lemma_lists(*working);
        assert forall|u: int| 0 <= u < goal.len() implies working.deep_view()[u] == goal[u] by {
            if u != v {
                assert(has_edge(before, v, u as usize) == list@.contains(u as usize));
            }
        }
        assert(working.deep_view() =~= goal);
    }
}

/// Removes every edge at an inner vertex of `path` from the working lists.
fn isolate_inner(working: &mut Vec<Vec<usize>>, path: &Vec<usize>)
    requires
        closed_lists(old(working).deep_view()),
        path.len() >= 2,
        forall|k: int| 0 <= k < path.len() ==> (#[trigger] path@[k]) < old(working).len(),
    ensures
        final(working).deep_view() == isolate_all(old(working).deep_view(), inner(path@)),
        closed_lists(final(working).deep_view()),
        final(working).len() == old(working).len(),
{
    let ghost before = working.deep_view();
    let ghost mid = inner(path@);
    let last = path.len() - 1;
    let mut k: usize = 1;
    proof {
        assert(mid.take(0) =~= Seq::<usize>::empty());
    }
    while k < last
        invariant
            1 <= k <= last,
            last == path.len() - 1,
            mid == inner(path@),
            working.len() == before.len(),
            before.len() == old(working).len(),
            closed_lists(before),
            closed_lists(working.deep_view()),
            working.deep_view() == isolate_all(before, mid.take(k - 1)),
            forall|j: int| 0 <= j < path.len() ==> (#[trigger] path@[j]) < before.len(),
        decreases last - k,
    {
        let v = path[k];
        let ghost sofar = working.deep_view();
        proof {
            assert(mid.take(k as int).drop_last() =~= mid.take(k - 1));
            assert(mid.take(k as int).last() == v);
            lemma_isolate_closed(sofar, v);
        }
        isolate_vertex(working, v);
        proof {
            lemma_lists(*working);
        }
        k += 1;
    }
    proof {
        assert(mid.take(last - 1) =~= mid);
    }
}

/// Counts greedily the paths from `s` to `t` in the working lists that share
/// no inner vertex, up to `limit`.
fn greedy_count(working: &mut Vec<Vec<usize>>, s: usize, t: usize, limit: usize) -> (count: usize)
    requires
        closed_lists(old(working).deep_view()),
        s < old(working).len(),
        t < old(working).len(),
        s != t,
    ensures
        count == greedy_paths(old(working).deep_view(), s, t, limit as nat, 0, 0),
        count <= MAX_ATTEMPTS + 1,
{
    let ghost first = working.deep_view();
    let mut count: usize = 0;
    let mut attempts: usize = 0;
    loop
        invariant
            first == old(working).deep_view(),
            closed_lists(working.deep_view()),
            s < working.len(),
            t < working.len(),
            s != t,
            attempts <= MAX_ATTEMPTS,
            count == attempts,
            greedy_paths(first, s, t, limit as nat, 0, 0) == greedy_paths(
                working.deep_view(),
                s,
                t,
                limit as nat,
                attempts as nat,
                count as nat,
            ),
        decreases MAX_ATTEMPTS - attempts,
    {
        match search_path(working, s, t) {
            None => {
                return count;
            },
            Some(found) => {
                count += 1;
                if count >= limit || attempts >= MAX_ATTEMPTS {
                    return count;
                }
                attempts += 1;
                assert(found@.first() == s && found@.last() == t);
                isolate_inner(working, &found);
            },
        }
    }
}

impl Graph {
    /// The number of internally disjoint paths that the library counts between `s` and `t`.
    pub open spec fn spec_find_vertex_disjoint_paths(&self, s: usize, t: usize) -> nat {
        disjoint_paths(self@, s, t)
    }

    /// Counts paths between two different vertices `s` and `t` that share no
    /// inner vertex. Complete graphs, cycles and the two ends of a path are
    /// answered by their shape; elsewhere the count is greedy, and a lower
    /// bound on the number of such paths.
    pub fn find_vertex_disjoint_paths(&self, s: usize, t: usize) -> (count: usize)
        requires
            self.wf(),
            s < self.spec_vertex_count(),
            t < self.spec_vertex_count(),
            s != t,
        ensures
            count == self.spec_find_vertex_disjoint_paths(s, t),
    {
        let n = self.adj.len();
        if self.is_complete() {
            return n - 1;
        }
        if self.is_cycle() {
            return 2;
        }
        if self.is_path() && ((s == 0 && t == n - 1) || (t == 0 && s == n - 1)) {
            return 1;
        }
        proof {
            lemma_lists(self.adj);
        }
        let ds = self.adj[s].len();
        let dt = self.adj[t].len();
        let bound = if ds <= dt { ds } else { dt };
        if list_contains(&self.adj[s], t) {
            let mut working = lists_unlinked(&self.adj, s, t);
            proof {
                lemma_unlink_closed(self@, s, t);
                lemma_lists(working);
                assert(has_edge(self@, s, t));
                assert(has_edge(self@, t, s));
                assert(self@[s as int].len() > 0);
                assert(self@[t as int].len() > 0);
            }
            1 + greedy_count(&mut working, s, t, bound - 1)
        } else {
            let mut working = lists_copy(&self.adj);
            proof {
                lemma_lists(working);
            }
            greedy_count(&mut working, s, t, bound)
        }
    }
}

impl Graph {
    /// Whether the graph passes the test by Menger's theorem for `k`.
    pub open spec fn spec_mengers_theorem_check(&self, k: usize) -> bool {
        menger(self@, k as nat)
    }

    /// Whether the graph passes the exact test for `k`-connectivity.
    pub open spec fn spec_is_k_connected_exact(&self, k: usize) -> bool {
        k_connected_exact(self@, k as nat)
    }

    /// Whether the graph passes the heuristic test for `k`-connectivity.
    pub open spec fn spec_is_k_connected_approx(&self, k: usize) -> bool {
        k_connected_approx(self@, k as nat)
    }

    /// Whether the graph passes the test for `k`-connectivity that `exact` selects.
    pub open spec fn spec_is_k_connected(&self, k: usize, exact: bool) -> bool {
        k_connected(self@, k as nat, exact)
    }

    /// Tests `k`-connectivity by Menger's theorem: every pair of vertices
    /// must have at least `k` counted disjoint paths.
    #[verifier::loop_isolation(false)]
    pub fn mengers_theorem_check(&self, k: usize) -> (b: bool)
        requires
            self.wf(),
        ensures
            b == self.spec_mengers_theorem_check(k),
    {
        let n = self.adj.len();
        if n <= k {
            return false;
        }
        if self.min_degree() < k {
            return false;
        }
        if k == 1 {
            return self.is_connected();
        }
        if self.is_cycle() {
            return k <= 2;
        }
        if self.is_complete() {
            return k <= n - 1;
        }
        let mut s: usize = 0;
        while s < n
            invariant
                s <= n,
                n == self@.len(),
                self.wf(),
                forall|a: usize, b: usize|
                    a < s && a < b < n ==> #[trigger] disjoint_paths(self@, a, b) >= k,
            decreases n - s,
        {
            let mut t: usize = s + 1;
            while t < n
                invariant
                    s < t <= n,
                    n == self@.len(),
                    self.wf(),
                    forall|a: usize, b: usize|
                        a < s && a < b < n ==> #[trigger] disjoint_paths(self@, a, b) >= k,
                    forall|b: usize| s < b < t ==> #[trigger] disjoint_paths(self@, s, b) >= k,
                decreases n - t,
            {
                if self.find_vertex_disjoint_paths(s, t) < k {
                    return false;
                }
                t += 1;
            }
            s += 1;
        }
        true
    }

    /// Tests `k`-connectivity exactly: by the necessary conditions, by shape
    /// and reachability where they decide, and by Menger's theorem otherwise.
    pub fn is_k_connected_exact(&self, k: usize) -> (b: bool)
        requires
            self.wf(),
        ensures
            b == self.spec_is_k_connected_exact(k),
    {
        let n = self.adj.len();
        if k >= n {
            return false;
        }
        if self.min_degree() < k {
            return false;
        }
        if self.is_complete() {
            return true;
        }
        if k == 1 {
            return self.is_connected();
        }
        self.mengers_theorem_check(k)
    }

    /// Tests `k`-connectivity by the heuristic. It is fast, and it can
    /// disagree with the exact test.
    pub fn is_k_connected_approx(&self, k: usize) -> (b: bool)
        requires
            self.wf(),
        ensures
            b == self.spec_is_k_connected_approx(k),
    {
        let n = self.adj.len();
        if k >= n {
            return false;
        }
        let least_degree = self.min_degree();
        if least_degree < k {
            return false;
        }
        if k == 1 {
            return self.is_connected();
        }
        if self.is_complete() {
            return true;
        }
        if self.is_cycle() {
            return k <= 2;
        }
        if self.is_path() {
            return k <= 1;
        }
        if self.is_star() {
            return k <= 1;
        }
        let wide_n: u128 = (n - 1) as u128;
        let wide_k: u128 = k as u128;
        assert(wide_n * wide_k <= 0xffff_ffff_ffff_ffff * 0xffff_ffff_ffff_ffff) by (nonlinear_arith)
            requires
                wide_n <= 0xffff_ffff_ffff_ffff,
                wide_k <= 0xffff_ffff_ffff_ffff,
        ;
        let threshold: u128 = wide_n * wide_k / 2 + 1;
        if self.n_edges as u128 >= threshold {
            return true;
        }
        proof {
            let e = self.n_edges as int;
            lemma_degree_bounds(self@);
            assert(n * k <= 2 * e) by (nonlinear_arith)
                requires
                    n * least_degree <= 2 * e,
                    k <= least_degree,
                    n >= 0,
            ;
            assert(2 * e <= (n - 1) * k);
            assert(k == 0) by (nonlinear_arith)
                requires
                    n * k <= (n - 1) * k,
                    k >= 0,
            ;
            assert((n - 1) * k == 0) by (nonlinear_arith)
                requires
                    k == 0,
            ;
            assert(e == 0);
        }
        false
    }

    /// Tests `k`-connectivity. Complete graphs are answered at once; for all
    /// others `use_exact` selects the exact test or the heuristic.
    pub fn is_k_connected(&self, k: usize, use_exact: bool) -> (b: bool)
        requires
            self.wf(),
        ensures
            b == self.spec_is_k_connected(k, use_exact),
    {
        if self.is_complete() {
            return k < self.adj.len();
        }
        if use_exact {
            self.is_k_connected_exact(k)
        } else {
            self.is_k_connected_approx(k)
        }
    }
}

/// A list that does not hold `x` is its own copy without `x`.
pub proof fn lemma_without_absent(list: Seq<usize>, x: usize)
    requires
        !list.contains(x),
    ensures
        without(list, x) == list,
    decreases list.len(),
{
    if list.len() > 0 {
        let front = list.drop_last();
        assert(list[list.len() - 1] != x);
        assert forall|i: int| 0 <= i < front.len() implies front[i] != x by {
            assert(list[i] == front[i]);
        }
        lemma_without_absent(front, x);
        assert(front.push(list.last()) =~= list);
    }
}

} // verus!
