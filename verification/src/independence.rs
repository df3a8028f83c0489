//! A greedy approximation of the independence number: the vertex with the
//! fewest neighbours left is taken, it and its neighbours leave the pool, and
//! so on until the pool is empty.
use vstd::prelude::*;
use crate::adjacency::{closed_lists, has_edge, lemma_lists, lemma_push_contains, symmetric};
use crate::graph::Graph;
use crate::search::flags;

verus! {

/// How many vertices are in the pool.
pub open spec fn pool_size(pool: Seq<bool>) -> nat
    decreases pool.len(),
{
    if pool.len() == 0 {
        0
    } else {
        pool_size(pool.drop_last()) + if pool.last() { 1nat } else { 0nat }
    }
}

/// How many vertices of `list` are in the pool.
pub open spec fn live_degree(list: Seq<usize>, pool: Seq<bool>) -> nat
    decreases list.len(),
{
    if list.len() == 0 {
        0
    } else {
        live_degree(list.drop_last(), pool) + if list.last() < pool.len() && pool[list.last() as int] {
            1nat
        } else {
            0nat
        }
    }
}

/// `v` is at least as good a choice as `w`: it has fewer neighbours in the
/// pool, or as many and no greater number.
pub open spec fn preferred(adj: Seq<Seq<usize>>, pool: Seq<bool>, v: int, w: int) -> bool {
    live_degree(adj[v], pool) < live_degree(adj[w], pool) || (live_degree(adj[v], pool)
        == live_degree(adj[w], pool) && v <= w)
}

/// `v` is the choice among the pool vertices below `k`.
pub open spec fn picks_below(adj: Seq<Seq<usize>>, pool: Seq<bool>, v: int, k: int) -> bool {
    &&& 0 <= v < k
    &&& pool[v]
    &&& forall|w: int| 0 <= w < k && pool[w] ==> #[trigger] preferred(adj, pool, v, w)
}

/// The vertex that the greedy choice takes from the pool: one with the fewest
/// neighbours in the pool, and among those the one with the least number.
pub open spec fn pick(adj: Seq<Seq<usize>>, pool: Seq<bool>) -> int {
    choose|v: int| picks_below(adj, pool, v, pool.len() as int)
}

/// The pool after `v` is taken: `v` and its neighbours have left.
pub open spec fn take_out(adj: Seq<Seq<usize>>, pool: Seq<bool>, v: int) -> Seq<bool> {
    Seq::new(pool.len(), |u: int| pool[u] && u != v && !adj[v].contains(u as usize))
}

/// The number of vertices that the greedy choice takes until the pool is empty.
pub open spec fn greedy_independent(adj: Seq<Seq<usize>>, pool: Seq<bool>) -> nat
    decreases pool_size(pool),
    via greedy_independent_decreases
{
    if pool_size(pool) == 0 {
        0
    } else {
        1 + greedy_independent(adj, take_out(adj, pool, pick(adj, pool)))
    }
}

#[via_fn]
proof fn greedy_independent_decreases(adj: Seq<Seq<usize>>, pool: Seq<bool>) {
    if pool_size(pool) != 0 {
        lemma_pick(adj, pool);
        lemma_pool_shrinks(pool, take_out(adj, pool, pick(adj, pool)), pick(adj, pool));
    }
}

/// The vertices that the greedy choice takes until the pool is empty, in the
/// order in which it takes them.
pub open spec fn greedy_taken(adj: Seq<Seq<usize>>, pool: Seq<bool>) -> Seq<usize>
    decreases pool_size(pool),
    via greedy_taken_decreases
{
    if pool_size(pool) == 0 {
        Seq::empty()
    } else {
        seq![pick(adj, pool) as usize] + greedy_taken(adj, take_out(adj, pool, pick(adj, pool)))
    }
}

#[via_fn]
proof fn greedy_taken_decreases(adj: Seq<Seq<usize>>, pool: Seq<bool>) {
    if pool_size(pool) != 0 {
        lemma_pick(adj, pool);
        lemma_pool_shrinks(pool, take_out(adj, pool, pick(adj, pool)), pick(adj, pool));
    }
}

/// The vertices of `set` are vertices of the graph, and no two of them are
/// the same or linked.
pub open spec fn independent(adj: Seq<Seq<usize>>, set: Seq<usize>) -> bool {
    &&& forall|i: int| 0 <= i < set.len() ==> (#[trigger] set[i]) < adj.len()
    &&& forall|i: int, j: int|
        #![trigger set[i], set[j]]
        0 <= i < j < set.len() ==> set[i] != set[j] && !has_edge(adj, set[i], set[j])
            && !has_edge(adj, set[j], set[i])
}

/// The greedy choice counts the vertices it takes; they come from the pool
/// and form an independent set.
pub proof fn lemma_greedy_taken(adj: Seq<Seq<usize>>, pool: Seq<bool>)
    requires
        symmetric(adj),
        pool.len() == adj.len(),
        adj.len() <= usize::MAX,
    ensures
        greedy_taken(adj, pool).len() == greedy_independent(adj, pool),
        forall|i: int|
            0 <= i < greedy_taken(adj, pool).len() ==> (#[trigger] greedy_taken(adj, pool)[i])
                < pool.len() && pool[greedy_taken(adj, pool)[i] as int],
        independent(adj, greedy_taken(adj, pool)),
    decreases pool_size(pool),
{
    let taken = greedy_taken(adj, pool);
    if pool_size(pool) != 0 {
        lemma_pick(adj, pool);
        let v = pick(adj, pool);
        let next = take_out(adj, pool, v);
        lemma_pool_shrinks(pool, next, v);
        lemma_greedy_taken(adj, next);
        let later = greedy_taken(adj, next);
        assert(taken =~= seq![v as usize] + later);
        assert(taken[0] == v);
        assert forall|i: int| 0 <= i < taken.len() implies (#[trigger] taken[i]) < pool.len()
            && pool[taken[i] as int] by {
            if i > 0 {
                assert(taken[i] == later[i - 1]);
                assert(next[later[i - 1] as int]);
            }
        }
        assert forall|i: int, j: int|
            #![trigger taken[i], taken[j]]
            0 <= i < j < taken.len() implies taken[i] != taken[j] && !has_edge(
            adj,
            taken[i],
            taken[j],
        ) && !has_edge(adj, taken[j], taken[i]) by {
            let w = later[j - 1];
            assert(taken[j] == w);
            assert(later[j - 1] < next.len() && next[later[j - 1] as int]);
            if i == 0 {
                let first = v as usize;
                assert(first as int == v);
                assert(next[w as int] == (pool[w as int] && w as int != v && !adj[v].contains(
                    (w as int) as usize,
                )));
                assert(!has_edge(adj, first, w));
                if has_edge(adj, w, first) {
                    assert(has_edge(adj, first, w));
                }
            } else {
                let u = later[i - 1];
                assert(taken[i] == u);
                assert(u != w && !has_edge(adj, u, w) && !has_edge(adj, w, u));
            }
        }
    }
}

/// The size of the independent set that the greedy choice builds from all vertices.
pub open spec fn independent_set_size(adj: Seq<Seq<usize>>) -> nat {
    greedy_independent(adj, Seq::new(adj.len(), |u: int| true))
}

/// A pool is empty exactly when it has size 0, and never larger than its length.
pub proof fn lemma_pool_size(pool: Seq<bool>)
    ensures
        pool_size(pool) == 0 <==> (forall|u: int| 0 <= u < pool.len() ==> !pool[u]),
        pool_size(pool) <= pool.len(),
    decreases pool.len(),
{
    if pool.len() > 0 {
        let front = pool.drop_last();
        lemma_pool_size(front);
        if pool_size(pool) == 0 {
            assert forall|u: int| 0 <= u < pool.len() implies !pool[u] by {
                if u < front.len() {
                    assert(front[u] == pool[u]);
                }
            }
        }
        if forall|u: int| 0 <= u < pool.len() ==> !pool[u] {
            assert forall|u: int| 0 <= u < front.len() implies !front[u] by {
                assert(front[u] == pool[u]);
            }
            assert(!pool[pool.len() - 1]);
        }
    }
}

/// A pool that loses a vertex and gains none becomes smaller.
pub proof fn lemma_pool_shrinks(before: Seq<bool>, after: Seq<bool>, v: int)
    requires
        before.len() == after.len(),
        forall|u: int| 0 <= u < after.len() && after[u] ==> before[u],
        0 <= v < before.len(),
        before[v],
        !after[v],
    ensures
        pool_size(after) < pool_size(before),
    decreases before.len(),
{
    let n = before.len();
    let b = before.drop_last();
    let a = after.drop_last();
    assert forall|u: int| 0 <= u < a.len() && a[u] implies b[u] by {
        assert(after[u] == a[u] && before[u] == b[u]);
    }
    assert(after[n - 1] ==> before[n - 1]);
    if v == n - 1 {
        lemma_pool_no_larger(b, a);
    } else {
        assert(b[v] == before[v] && a[v] == after[v]);
        lemma_pool_shrinks(b, a, v);
    }
}

/// A pool that gains no vertex does not become larger.
pub proof fn lemma_pool_no_larger(before: Seq<bool>, after: Seq<bool>)
    requires
        before.len() == after.len(),
        forall|u: int| 0 <= u < after.len() && after[u] ==> before[u],
    ensures
        pool_size(after) <= pool_size(before),
    decreases before.len(),
{
    if before.len() > 0 {
        let n = before.len();
        let b = before.drop_last();
        let a = after.drop_last();
        assert forall|u: int| 0 <= u < a.len() && a[u] implies b[u] by {
            assert(after[u] == a[u] && before[u] == b[u]);
        }
        assert(after[n - 1] ==> before[n - 1]);
        lemma_pool_no_larger(b, a);
    }
}

/// The greedy choice takes at most as many vertices as the pool holds.
pub proof fn lemma_greedy_independent_bound(adj: Seq<Seq<usize>>, pool: Seq<bool>)
    ensures
        greedy_independent(adj, pool) <= pool_size(pool),
    decreases pool_size(pool),
{
    if pool_size(pool) != 0 {
        lemma_pick(adj, pool);
        let next = take_out(adj, pool, pick(adj, pool));
        lemma_pool_shrinks(pool, next, pick(adj, pool));
        lemma_greedy_independent_bound(adj, next);
    }
}

/// Among the pool vertices below `k` there is a choice, if there is any vertex.
proof fn lemma_pick_below(adj: Seq<Seq<usize>>, pool: Seq<bool>, k: int) -> (v: int)
    requires
        0 <= k <= pool.len(),
        exists|w: int| 0 <= w < k && pool[w],
    ensures
        picks_below(adj, pool, v, k),
    decreases k,
{
    let last = k - 1;
    if exists|w: int| 0 <= w < k - 1 && pool[w] {
        let before = lemma_pick_below(adj, pool, k - 1);
        if pool[last] && live_degree(adj[last], pool) < live_degree(adj[before], pool) {
            assert forall|w: int| 0 <= w < k && pool[w] implies #[trigger] preferred(
                adj,
                pool,
                last,
                w,
            ) by {
                if w < k - 1 {
                    assert(preferred(adj, pool, before, w));
                }
            }
            last
        } else {
            assert forall|w: int| 0 <= w < k && pool[w] implies #[trigger] preferred(
                adj,
                pool,
                before,
                w,
            ) by {}
            before
        }
    } else {
        let w = choose|w: int| 0 <= w < k && pool[w];
        assert(w == last);
        last
    }
}

/// A pool that is not empty has exactly one choice.
pub proof fn lemma_pick(adj: Seq<Seq<usize>>, pool: Seq<bool>)
    requires
        pool_size(pool) != 0,
    ensures
        picks_below(adj, pool, pick(adj, pool), pool.len() as int),
        forall|v: int| picks_below(adj, pool, v, pool.len() as int) ==> v == pick(adj, pool),
{
    lemma_pool_size(pool);
    let v = lemma_pick_below(adj, pool, pool.len() as int);
    let p = pick(adj, pool);
    assert forall|w: int| picks_below(adj, pool, w, pool.len() as int) implies w == p by {
        assert(preferred(adj, pool, w, p));
        assert(preferred(adj, pool, p, w));
    }
}

impl Graph {
    /// The size of the independent set that the greedy choice builds.
    pub open spec fn spec_independence_number_approx(&self) -> nat {
        independent_set_size(self@)
    }

    /// How many neighbours of `v` are in the pool.
    fn live_neighbours(&self, v: usize, pool: &Vec<bool>) -> (d: usize)
        requires
            closed_lists(self@),
            v < self@.len(),
            pool.len() == self@.len(),
        ensures
            d == live_degree(self@[v as int], pool@),
    {
        proof {
            lemma_lists(self.adj);
        }
        let list = &self.adj[v];
        let mut d: usize = 0;
        let mut i: usize = 0;
        assert(list@.take(0) =~= Seq::<usize>::empty());
        while i < list.len()
            invariant
                i <= list.len(),
                d <= i,
                pool.len() == self@.len(),
                v < self@.len(),
                closed_lists(self@),
                list@ == self@[v as int],
                d == live_degree(list@.take(i as int), pool@),
            decreases list.len() - i,
        {
            proof {
                assert(list@.take(i + 1).drop_last() =~= list@.take(i as int));
                assert(list@.take(i + 1).last() == list@[i as int]);
                assert(self@[v as int][i as int] < self@.len());
            }
            if pool[list[i]] {
                d += 1;
            }
            i += 1;
        }
        assert(list@.take(list.len() as int) =~= list@);
        d
    }

    /// The choice from the pool, or `None` when the pool is empty.
    fn choose_from(&self, pool: &Vec<bool>) -> (r: Option<usize>)
        requires
            closed_lists(self@),
            pool.len() == self@.len(),
        ensures
            match r {
                Some(v) => picks_below(self@, pool@, v as int, pool.len() as int),
                None => forall|u: int| 0 <= u < pool.len() ==> !pool@[u],
            },
    {
        let n = pool.len();
        let mut best: Option<(usize, usize)> = None;
        let mut v: usize = 0;
        while v < n
            invariant
                v <= n,
                n == pool.len(),
                n == self@.len(),
                closed_lists(self@),
                match best {
                    Some((b, d)) => picks_below(self@, pool@, b as int, v as int) && d
                        == live_degree(self@[b as int], pool@),
                    None => forall|u: int| 0 <= u < v ==> !pool@[u],
                },
            decreases n - v,
        {
            if pool[v] {
                let d = self.live_neighbours(v, pool);
                match best {
                    Some((b, least)) => {
                        if d < least {
                            proof {
                                assert forall|w: int| 0 <= w < v + 1 && pool@[w] implies #[trigger] preferred(
                                    self@,
                                    pool@,
                                    v as int,
                                    w,
                                ) by {
                                    if w < v {
                                        assert(preferred(self@, pool@, b as int, w));
                                    }
                                }
                            }
                            best = Some((v, d));
                        } else {
                            proof {
                                assert forall|w: int| 0 <= w < v + 1 && pool@[w] implies #[trigger] preferred(
                                    self@,
                                    pool@,
                                    b as int,
                                    w,
                                ) by {}
                            }
                        }
                    },
                    None => {
                        proof {
                            assert forall|w: int| 0 <= w < v + 1 && pool@[w] implies #[trigger] preferred(
                                self@,
                                pool@,
                                v as int,
                                w,
                            ) by {}
                        }
                        best = Some((v, d));
                    },
                }
            } else {
                proof {
                    match best {
                        Some((b, d)) => {
                            assert forall|w: int| 0 <= w < v + 1 && pool@[w] implies #[trigger] preferred(
                                self@,
                                pool@,
                                b as int,
                                w,
                            ) by {}
                        },
                        None => {},
                    }
                }
            }
            v += 1;
        }
        match best {
            Some((b, _)) => Some(b),
            None => None,
        }
    }

    /// Takes `v` and its neighbours out of the pool.
    fn remove_from(&self, pool: &mut Vec<bool>, v: usize)
        requires
            closed_lists(self@),
            v < self@.len(),
            old(pool).len() == self@.len(),
        ensures
            final(pool)@ == take_out(self@, old(pool)@, v as int),
    {
        proof {
            lemma_lists(self.adj);
        }
        let ghost before = pool@;
        let list = &self.adj[v];
        pool[v] = false;
        let mut i: usize = 0;
        assert(list@.take(0) =~= Seq::<usize>::empty());
        while i < list.len()
            invariant
                i <= list.len(),
                pool.len() == self@.len(),
                before.len() == pool.len(),
                v < self@.len(),
                closed_lists(self@),
                list@ == self@[v as int],
                forall|u: int|
                    0 <= u < pool.len() ==> #[trigger] pool@[u] == (before[u] && u != v
                        && !list@.take(i as int).contains(u as usize)),
            decreases list.len() - i,
        {
            let w = list[i];
            let ghost done = list@.take(i as int);
            proof {
                assert(self@[v as int][i as int] < self@.len());
                assert(list@.take(i + 1) =~= done.push(w));
                assert forall|u: usize| list@.take(i + 1).contains(u) <==> done.contains(u) || u
                    == w by {
                    lemma_push_contains(done, w, u);
                }
            }
            pool[w] = false;
            i += 1;
        }
        proof {
            assert(list@.take(list.len() as int) =~= list@);
            assert(pool@ =~= take_out(self@, before, v as int));
        }
    }

    /// Approximates the independence number: counts the vertices that the
    /// greedy choice takes until none is left. Ties go to the vertex with
    /// the least number.
    pub fn independence_number_approx(&self) -> (count: usize)
        requires
            self.wf(),
        ensures
            count == self.spec_independence_number_approx(),
            count <= self.spec_vertex_count(),
    {
        let n = self.adj.len();
        let mut pool = flags(n, true);
        let mut count: usize = 0;
        let ghost all = pool@;
        proof {
            lemma_pool_size(all);
        }
        loop
            invariant
                n == self@.len(),
                pool.len() == n,
                closed_lists(self@),
                all == Seq::new(n as nat, |u: int| true),
                count + greedy_independent(self@, pool@) == greedy_independent(self@, all),
                count + pool_size(pool@) <= n,
            decreases pool_size(pool@),
        {
            proof {
                lemma_pool_size(pool@);
            }
            match self.choose_from(&pool) {
                None => {
                    return count;
                },
                Some(v) => {
                    let ghost before = pool@;
                    proof {
                        lemma_pick(self@, before);
                    }
                    self.remove_from(&mut pool, v);
                    proof {
                        lemma_pool_shrinks(before, pool@, v as int);
                    }
                    count += 1;
                },
            }
        }
    }
}

} // verus!
