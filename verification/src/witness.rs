//! What the greedy count of disjoint paths stands for: the paths it counts
//! are walks of the graph between the two vertices, and no inner vertex of
//! one lies on another.
use vstd::prelude::*;
use crate::adjacency::{
    closed_lists, has_edge, lemma_distinct_within, lemma_lists, lemma_push_contains, simple_graph,
    symmetric,
};
use crate::classify::{complete, cycle, path};
use crate::connectivity::{
    disjoint_paths, greedy_paths, inner, isolate, isolate_all, lemma_isolate_all_closed,
    lemma_isolate_closed, lemma_unlink_closed, lemma_without, smaller_degree, unlink, MAX_ATTEMPTS,
};
use crate::graph::Graph;
use crate::search::{bfs_path, is_walk, lemma_bfs_path, reachable, walk_between};

verus! {

/// No inner vertex of `p` lies on `q`.
pub open spec fn avoids_inside(p: Seq<usize>, q: Seq<usize>) -> bool {
    forall|i: int, j: int| 0 < i < p.len() - 1 && 0 <= j < q.len() ==> p[i] != q[j]
}

/// `paths` are different walks from `s` to `t`, and no inner vertex of an
/// earlier one lies on a later one.
pub open spec fn internally_disjoint(
    adj: Seq<Seq<usize>>,
    paths: Seq<Seq<usize>>,
    s: usize,
    t: usize,
) -> bool {
    &&& forall|i: int| 0 <= i < paths.len() ==> walk_between(adj, #[trigger] paths[i], s, t)
    &&& forall|i: int, j: int|
        0 <= i < j < paths.len() ==> avoids_inside(#[trigger] paths[i], #[trigger] paths[j])
            && paths[i] != paths[j]
}

/// The paths that the greedy count finds, in the order in which it finds them.
pub open spec fn greedy_found(
    adj: Seq<Seq<usize>>,
    s: usize,
    t: usize,
    limit: nat,
    attempts: nat,
    count: nat,
) -> Seq<Seq<usize>>
    decreases MAX_ATTEMPTS - attempts,
{
    match bfs_path(adj, s, t) {
        None => Seq::empty(),
        Some(p) => if count + 1 >= limit || attempts >= MAX_ATTEMPTS {
            seq![p]
        } else {
            seq![p] + greedy_found(
                isolate_all(adj, inner(p)),
                s,
                t,
                limit,
                attempts + 1,
                count + 1,
            )
        },
    }
}

/// The edges left after a vertex is isolated: those that do not touch it.
pub proof fn lemma_isolate_edges(adj: Seq<Seq<usize>>, v: usize)
    requires
        symmetric(adj),
        v < adj.len(),
    ensures
        forall|a: usize, b: usize| #[trigger]
            has_edge(isolate(adj, v), a, b) <==> has_edge(adj, a, b) && a != v && b != v,
        symmetric(isolate(adj, v)),
{
    let next = isolate(adj, v);
    assert forall|a: usize, b: usize| #[trigger]
        has_edge(next, a, b) <==> has_edge(adj, a, b) && a != v && b != v by {
        if a < adj.len() && a != v {
            if has_edge(adj, v, a) {
                lemma_without(adj[a as int], v);
            } else {
                if has_edge(adj, a, v) {
                    assert(has_edge(adj, v, a));
                }
            }
        }
    }
    assert forall|a: usize, b: usize| #[trigger] has_edge(next, a, b) implies has_edge(
        next,
        b,
        a,
    ) by {
        assert(has_edge(adj, a, b));
        assert(has_edge(adj, b, a));
    }
}

/// The edges left after several vertices are isolated: those that touch none of them.
pub proof fn lemma_isolate_all_edges(adj: Seq<Seq<usize>>, vs: Seq<usize>)
    requires
        symmetric(adj),
        forall|i: int| 0 <= i < vs.len() ==> (#[trigger] vs[i]) < adj.len(),
    ensures
        forall|a: usize, b: usize| #[trigger]
            has_edge(isolate_all(adj, vs), a, b) <==> has_edge(adj, a, b) && !vs.contains(a)
                && !vs.contains(b),
        symmetric(isolate_all(adj, vs)),
        isolate_all(adj, vs).len() == adj.len(),
    decreases vs.len(),
{
    if vs.len() > 0 {
        let front = vs.drop_last();
        let v = vs.last();
        let mid = isolate_all(adj, front);
        assert forall|i: int| 0 <= i < front.len() implies (#[trigger] front[i]) < adj.len() by {
            assert(front[i] == vs[i]);
        }
        lemma_isolate_all_edges(adj, front);
        assert(vs[vs.len() - 1] == v);
        lemma_isolate_edges(mid, v);
        let next = isolate(mid, v);
        assert forall|a: usize, b: usize| #[trigger]
            has_edge(next, a, b) <==> has_edge(adj, a, b) && !vs.contains(a) && !vs.contains(
                b,
            ) by {
            assert(has_edge(next, a, b) <==> has_edge(mid, a, b) && a != v && b != v);
            assert(has_edge(mid, a, b) <==> has_edge(adj, a, b) && !front.contains(a)
                && !front.contains(b));
            assert(vs =~= front.push(v));
            lemma_push_contains(front, v, a);
            lemma_push_contains(front, v, b);
        }
    }
}

/// The edges left after the edge between `s` and `t` is removed.
pub proof fn lemma_unlink_edges(adj: Seq<Seq<usize>>, s: usize, t: usize)
    requires
        symmetric(adj),
        s != t,
    ensures
        forall|a: usize, b: usize| #[trigger]
            has_edge(unlink(adj, s, t), a, b) <==> has_edge(adj, a, b) && !(a == s && b == t) && !(
            a == t && b == s),
        symmetric(unlink(adj, s, t)),
{
    let next = unlink(adj, s, t);
    assert forall|a: usize, b: usize| #[trigger]
        has_edge(next, a, b) <==> has_edge(adj, a, b) && !(a == s && b == t) && !(a == t && b
            == s) by {
        if a < adj.len() {
            lemma_without(adj[a as int], t);
            lemma_without(adj[a as int], s);
        }
    }
    assert forall|a: usize, b: usize| #[trigger] has_edge(next, a, b) implies has_edge(
        next,
        b,
        a,
    ) by {
        assert(has_edge(adj, a, b));
        assert(has_edge(adj, b, a));
    }
}

/// Every vertex of a walk with at least two vertices is at an end of one of its edges.
pub proof fn lemma_walk_vertex_has_edge(adj: Seq<Seq<usize>>, p: Seq<usize>, j: int)
    requires
        is_walk(adj, p),
        p.len() >= 2,
        0 <= j < p.len(),
    ensures
        exists|x: usize| has_edge(adj, p[j], x) || has_edge(adj, x, p[j]),
{
    if j < p.len() - 1 {
        assert(has_edge(adj, p[j], p[j + 1]));
    } else {
        assert(has_edge(adj, p[j - 1], p[j - 1 + 1]));
    }
}

/// The greedy count is the number of paths found. Where `s` and `t` are not
/// linked, these are different walks from `s` to `t`, each with an inner
/// vertex, and no inner vertex of one lies on a later one.
pub proof fn lemma_greedy_found(
    adj: Seq<Seq<usize>>,
    s: usize,
    t: usize,
    limit: nat,
    attempts: nat,
    count: nat,
)
    requires
        closed_lists(adj),
        symmetric(adj),
        s < adj.len(),
        s != t,
        !has_edge(adj, s, t),
    ensures
        greedy_paths(adj, s, t, limit, attempts, count) == count + greedy_found(
            adj,
            s,
            t,
            limit,
            attempts,
            count,
        ).len(),
        internally_disjoint(adj, greedy_found(adj, s, t, limit, attempts, count), s, t),
        forall|i: int|
            0 <= i < greedy_found(adj, s, t, limit, attempts, count).len() ==> (
            #[trigger] greedy_found(adj, s, t, limit, attempts, count)[i]).len() >= 3,
    decreases MAX_ATTEMPTS - attempts,
{
    lemma_bfs_path(adj, s, t);
    let found = greedy_found(adj, s, t, limit, attempts, count);
    match bfs_path(adj, s, t) {
        None => {},
        Some(p) => {
            assert(p.len() >= 3) by {
                if p.len() == 2 {
                    assert(has_edge(adj, p[0int], p[0int + 1]));
                }
            }
            if count + 1 >= limit || attempts >= MAX_ATTEMPTS {
                assert(found[0] == p);
            } else {
                let cut = inner(p);
                let next = isolate_all(adj, cut);
                assert forall|i: int| 0 <= i < cut.len() implies (#[trigger] cut[i]) < adj.len() by {
                    assert(cut[i] == p[i + 1]);
                }
                lemma_isolate_all_closed(adj, cut);
                lemma_isolate_all_edges(adj, cut);
                assert(!has_edge(next, s, t));
                lemma_greedy_found(next, s, t, limit, attempts + 1, count + 1);
                let later = greedy_found(next, s, t, limit, attempts + 1, count + 1);
                assert(found =~= seq![p] + later);
                assert(found[0] == p);
                assert forall|i: int| 0 <= i < found.len() implies walk_between(
                    adj,
                    #[trigger] found[i],
                    s,
                    t,
                ) by {
                    if i > 0 {
                        let q = later[i - 1];
                        assert(found[i] == q);
                        assert(walk_between(next, q, s, t));
                        assert forall|k: int| 0 <= k < q.len() - 1 implies has_edge(
                            adj,
                            #[trigger] q[k],
                            q[k + 1],
                        ) by {
                            assert(has_edge(next, q[k], q[k + 1]));
                        }
                    }
                }
                assert forall|i: int, j: int| 0 <= i < j < found.len() implies avoids_inside(
                    #[trigger] found[i],
                    #[trigger] found[j],
                ) && found[i] != found[j] by {
                    let q = later[j - 1];
                    assert(found[j] == q);
                    if i == 0 {
                        assert forall|a: int, b: int| 0 < a < p.len() - 1 && 0 <= b < q.len() implies p[a]
                            != q[b] by {
                            assert(cut[a - 1] == p[a]);
                            assert(cut.contains(p[a]));
                            assert(later[j - 1].len() >= 3);
                            lemma_walk_vertex_has_edge(next, q, b);
                        }
                        assert(p[1] != q[1]);
                    } else {
                        assert(found[i] == later[i - 1]);
                        assert(avoids_inside(later[i - 1], later[j - 1]));
                    }
                }
                assert forall|i: int| 0 <= i < found.len() implies (#[trigger] found[i]).len()
                    >= 3 by {
                    if i > 0 {
                        assert(found[i] == later[i - 1]);
                    }
                }
            }
        },
    }
}

/// Past the shapes that are answered at once, the count of disjoint paths
/// between two different vertices is the number of certain walks between
/// them: they differ from each other, and no inner vertex of one lies on a
/// later one. So the count never exceeds the true number of internally
/// disjoint paths.
pub proof fn lemma_disjoint_paths_sound(g: Graph, s: usize, t: usize)
    requires
        g.wf(),
        s < g.spec_vertex_count(),
        t < g.spec_vertex_count(),
        s != t,
        !complete(g@),
        !cycle(g@),
        !(path(g@) && ((s == 0 && t == g@.len() - 1) || (t == 0 && s == g@.len() - 1))),
    ensures
        exists|paths: Seq<Seq<usize>>|
            paths.len() == disjoint_paths(g@, s, t) && #[trigger] internally_disjoint(
                g@,
                paths,
                s,
                t,
            ),
{
    let adj = g@;
    assert(symmetric(adj));
    if has_edge(adj, s, t) {
        let rest = unlink(adj, s, t);
        let limit = (smaller_degree(adj, s, t) - 1) as nat;
        lemma_unlink_closed(adj, s, t);
        lemma_unlink_edges(adj, s, t);
        lemma_greedy_found(rest, s, t, limit, 0, 0);
        let later = greedy_found(rest, s, t, limit, 0, 0);
        let direct = seq![s, t];
        let paths = seq![direct] + later;
        assert(paths[0] == direct);
        assert forall|i: int| 0 <= i < paths.len() implies walk_between(
            adj,
            #[trigger] paths[i],
            s,
            t,
        ) by {
            if i > 0 {
                let q = later[i - 1];
                assert(paths[i] == q);
                assert(walk_between(rest, q, s, t));
                assert forall|k: int| 0 <= k < q.len() - 1 implies has_edge(
                    adj,
                    #[trigger] q[k],
                    q[k + 1],
                ) by {
                    assert(has_edge(rest, q[k], q[k + 1]));
                }
            } else {
                assert(direct[0] == s && direct[1] == t);
            }
        }
        assert forall|i: int, j: int| 0 <= i < j < paths.len() implies avoids_inside(
            #[trigger] paths[i],
            #[trigger] paths[j],
        ) && paths[i] != paths[j] by {
            assert(paths[j] == later[j - 1]);
            assert(later[j - 1].len() >= 3);
            if i > 0 {
                assert(paths[i] == later[i - 1]);
                assert(avoids_inside(later[i - 1], later[j - 1]));
            }
        }
        assert(internally_disjoint(adj, paths, s, t));
    } else {
        let limit = smaller_degree(adj, s, t);
        lemma_greedy_found(adj, s, t, limit, 0, 0);
        assert(internally_disjoint(adj, greedy_found(adj, s, t, limit, 0, 0), s, t));
    }
}

/// No vertex of `p` is among `removed`.
pub open spec fn avoids(p: Seq<usize>, removed: Seq<usize>) -> bool {
    forall|i: int, j: int| 0 <= i < p.len() && 0 <= j < removed.len() ==> p[i] != removed[j]
}

/// Of internally disjoint paths between `s` and `t`, more in number than
/// the vertices removed, one avoids all removed vertices: a removed vertex
/// other than `s` and `t` lies on one path at most.
pub proof fn lemma_some_path_avoids(
    adj: Seq<Seq<usize>>,
    paths: Seq<Seq<usize>>,
    s: usize,
    t: usize,
    removed: Seq<usize>,
) -> (i: int)
    requires
        internally_disjoint(adj, paths, s, t),
        removed.len() < paths.len(),
        !removed.contains(s),
        !removed.contains(t),
    ensures
        0 <= i < paths.len(),
        avoids(paths[i], removed),
    decreases removed.len(),
{
    if removed.len() == 0 {
        0
    } else {
        let fewer = removed.drop_last();
        let r = removed.last();
        assert(removed[removed.len() - 1] == r);
        assert(removed.contains(r));
        assert forall|x: usize| fewer.contains(x) implies removed.contains(x) by {
            let j = choose|j: int| 0 <= j < fewer.len() && fewer[j] == x;
            assert(removed[j] == x);
        }
        if exists|h: int| 0 <= h < paths.len() && (#[trigger] paths[h]).contains(r) {
            let h = choose|h: int| 0 <= h < paths.len() && (#[trigger] paths[h]).contains(r);
            let hit = paths[h];
            let a = choose|a: int| 0 <= a < hit.len() && hit[a] == r;
            assert(walk_between(adj, hit, s, t));
            assert(0 < a < hit.len() - 1);
            let others = paths.remove(h);
            paths.remove_ensures(h);
            assert forall|i: int| 0 <= i < others.len() implies walk_between(
                adj,
                #[trigger] others[i],
                s,
                t,
            ) by {
                if i < h {
                    assert(others[i] == paths[i]);
                } else {
                    assert(others[i] == paths[i + 1]);
                }
            }
            assert forall|i: int, j: int| 0 <= i < j < others.len() implies avoids_inside(
                #[trigger] others[i],
                #[trigger] others[j],
            ) && others[i] != others[j] by {
                let i0 = if i < h { i } else { i + 1 };
                let j0 = if j < h { j } else { j + 1 };
                assert(others[i] == paths[i0] && others[j] == paths[j0]);
                assert(avoids_inside(paths[i0], paths[j0]) && paths[i0] != paths[j0]);
            }
            let k = lemma_some_path_avoids(adj, others, s, t, fewer);
            let k0 = if k < h { k } else { k + 1 };
            let kept = paths[k0];
            assert(others[k] == kept);
            assert(walk_between(adj, kept, s, t));
            assert forall|i: int, j: int| 0 <= i < kept.len() && 0 <= j < removed.len() implies kept[i]
                != removed[j] by {
                if j < fewer.len() {
                    assert(fewer[j] == removed[j]);
                } else if kept[i] == r {
                    assert(0 < i < kept.len() - 1);
                    if k0 < h {
                        assert(avoids_inside(paths[k0], paths[h]));
                    } else {
                        assert(avoids_inside(paths[h], paths[k0]));
                    }
                }
            }
            k0
        } else {
            let k = lemma_some_path_avoids(adj, paths, s, t, fewer);
            let kept = paths[k];
            assert forall|i: int, j: int| 0 <= i < kept.len() && 0 <= j < removed.len() implies kept[i]
                != removed[j] by {
                if j < fewer.len() {
                    assert(fewer[j] == removed[j]);
                } else {
                    if kept[i] == r {
                        assert(paths[k].contains(r));
                    }
                }
            }
            k
        }
    }
}

/// A walk read backwards is a walk, where every edge is listed at both its ends.
pub proof fn lemma_walk_backwards(adj: Seq<Seq<usize>>, p: Seq<usize>, s: usize, t: usize)
    requires
        symmetric(adj),
        walk_between(adj, p, s, t),
    ensures
        walk_between(adj, p.reverse(), t, s),
        forall|removed: Seq<usize>| avoids(p, removed) ==> #[trigger] avoids(p.reverse(), removed),
{
    let back = p.reverse();
    assert forall|i: int| 0 <= i < back.len() - 1 implies has_edge(adj, #[trigger] back[i], back[i + 1]) by {
        let k = p.len() - 2 - i;
        assert(has_edge(adj, p[k], p[k + 1]));
    }
    assert forall|removed: Seq<usize>| avoids(p, removed) implies #[trigger] avoids(
        back,
        removed,
    ) by {
        assert forall|i: int, j: int| 0 <= i < back.len() && 0 <= j < removed.len() implies back[i]
            != removed[j] by {
            assert(back[i] == p[p.len() - 1 - i]);
        }
    }
}

/// Where the test by Menger's theorem passes by counting paths, the graph
/// is `k`-connected indeed: after fewer than `k` vertices are removed, a walk
/// still leads from any remaining vertex to any other.
pub proof fn lemma_path_count_test_sound(
    g: Graph,
    k: usize,
    removed: Seq<usize>,
    s: usize,
    t: usize,
)
    requires
        g.wf(),
        k >= 2,
        !complete(g@),
        !cycle(g@),
        g.spec_mengers_theorem_check(k),
        removed.len() < k,
        s < g.spec_vertex_count(),
        t < g.spec_vertex_count(),
        !removed.contains(s),
        !removed.contains(t),
    ensures
        exists|p: Seq<usize>| #[trigger] walk_between(g@, p, s, t) && avoids(p, removed),
{
    let adj = g@;
    if s == t {
        let p = seq![s];
        assert(walk_between(adj, p, s, t));
        assert forall|i: int, j: int| 0 <= i < p.len() && 0 <= j < removed.len() implies p[i]
            != removed[j] by {
            assert(removed.contains(removed[j]));
        }
        assert(avoids(p, removed));
    } else {
        let a = if s < t { s } else { t };
        let b = if s < t { t } else { s };
        assert(disjoint_paths(adj, a, b) >= k);
        lemma_disjoint_paths_sound(g, a, b);
        let paths = choose|paths: Seq<Seq<usize>>|
            paths.len() == disjoint_paths(adj, a, b) && #[trigger] internally_disjoint(
                adj,
                paths,
                a,
                b,
            );
        let i = lemma_some_path_avoids(adj, paths, a, b, removed);
        let p = paths[i];
        assert(walk_between(adj, p, a, b));
        if s < t {
            assert(walk_between(adj, p, s, t) && avoids(p, removed));
        } else {
            lemma_walk_backwards(adj, p, a, b);
            assert(walk_between(adj, p.reverse(), s, t) && avoids(p.reverse(), removed));
        }
    }
}

/// Two walks, one ending where the other begins, make one walk.
pub proof fn lemma_walks_join(
    adj: Seq<Seq<usize>>,
    p: Seq<usize>,
    q: Seq<usize>,
    s: usize,
    m: usize,
    t: usize,
)
    requires
        walk_between(adj, p, s, m),
        walk_between(adj, q, m, t),
    ensures
        walk_between(adj, p + q.subrange(1, q.len() as int), s, t),
{
    let tail = q.subrange(1, q.len() as int);
    let joined = p + tail;
    assert forall|i: int| 0 <= i < joined.len() - 1 implies has_edge(
        adj,
        #[trigger] joined[i],
        joined[i + 1],
    ) by {
        if i < p.len() - 1 {
            assert(has_edge(adj, p[i], p[i + 1]));
        } else if i == p.len() - 1 {
            assert(has_edge(adj, q[0int], q[0int + 1]));
            assert(joined[i + 1] == q[1]);
        } else {
            let k = i - p.len() + 1;
            assert(has_edge(adj, q[k], q[k + 1]));
            assert(joined[i] == q[k]);
            assert(joined[i + 1] == q[k + 1]);
        }
    }
    if tail.len() == 0 {
        assert(joined =~= p);
    } else {
        assert(joined.last() == q.last());
    }
}

/// What the exact test stands for. Where a graph passes it for `k`, and for
/// `k` of 2 or more has not the signature of a cycle, the graph is
/// `k`-connected: after fewer than `k` vertices are removed, a walk through
/// the remaining vertices leads from any of them to any other.
pub proof fn lemma_exact_test_sound(
    g: Graph,
    k: usize,
    removed: Seq<usize>,
    s: usize,
    t: usize,
)
    requires
        g.wf(),
        g.spec_is_k_connected_exact(k),
        k >= 2 ==> !g.spec_is_cycle(),
        removed.len() < k,
        s < g.spec_vertex_count(),
        t < g.spec_vertex_count(),
        !removed.contains(s),
        !removed.contains(t),
    ensures
        exists|p: Seq<usize>| #[trigger] walk_between(g@, p, s, t) && avoids(p, removed),
{
    let adj = g@;
    if s == t {
        let p = seq![s];
        assert(walk_between(adj, p, s, t));
        assert forall|i: int, j: int| 0 <= i < p.len() && 0 <= j < removed.len() implies p[i]
            != removed[j] by {
            assert(removed.contains(removed[j]));
        }
        assert(avoids(p, removed));
    } else if complete(adj) {
        let p = seq![s, t];
        lemma_lists(g.adj);
        lemma_all_neighbours(adj, s, t);
        assert(p[0] == s && p[1] == t);
        assert(walk_between(adj, p, s, t));
        assert forall|i: int, j: int| 0 <= i < p.len() && 0 <= j < removed.len() implies p[i]
            != removed[j] by {
            assert(removed.contains(removed[j]));
        }
        assert(avoids(p, removed));
    } else if k == 1 {
        assert(removed =~= Seq::<usize>::empty());
        assert(reachable(adj, 0, s) && reachable(adj, 0, t));
        let to_s = choose|p: Seq<usize>| walk_between(adj, p, 0, s);
        let to_t = choose|p: Seq<usize>| walk_between(adj, p, 0, t);
        lemma_walk_backwards(adj, to_s, 0, s);
        lemma_walks_join(adj, to_s.reverse(), to_t, s, 0, t);
        let p = to_s.reverse() + to_t.subrange(1, to_t.len() as int);
        assert(walk_between(adj, p, s, t));
        assert(avoids(p, removed));
    } else {
        lemma_path_count_test_sound(g, k, removed, s, t);
    }
}

/// In a complete graph on at least two vertices every vertex lists every other.
pub proof fn lemma_all_neighbours(adj: Seq<Seq<usize>>, s: usize, t: usize)
    requires
        simple_graph(adj),
        complete(adj),
        adj.len() <= usize::MAX,
        s < adj.len(),
        t < adj.len(),
        s != t,
    ensures
        has_edge(adj, s, t),
{
    let n = adj.len();
    let list = adj[s as int];
    assert(list.len() == n - 1);
    if !list.contains(t) {
        let rest = Seq::new(
            (n - 2) as nat,
            |i: int|
                {
                    let low = if s < t { s } else { t };
                    let high = if s < t { t } else { s };
                    if i < low {
                        i as usize
                    } else if i + 1 < high {
                        (i + 1) as usize
                    } else {
                        (i + 2) as usize
                    }
                },
        );
        let low = if s < t { s } else { t };
        let high = if s < t { t } else { s };
        assert forall|i: int| 0 <= i < list.len() implies rest.contains(#[trigger] list[i]) by {
            let w = list[i];
            assert(adj[s as int][i] < n);
            assert(list.contains(w));
            assert(has_edge(adj, s, w));
            assert(!has_edge(adj, s, s));
            if w < low {
                assert(rest[w as int] == w);
            } else if w < high {
                assert(rest[w - 1] == w);
            } else {
                assert(rest[w - 2] == w);
            }
        }
        lemma_distinct_within(list, rest);
    }
}

} // verus!
