//! The mathematical model of a graph: adjacency lists as `Seq<Seq<usize>>`,
//! and the degree arithmetic every other module builds on.
use vstd::prelude::*;

verus! {

/// Whether `v` is listed as a neighbour of `u`.
pub open spec fn has_edge(adj: Seq<Seq<usize>>, u: usize, v: usize) -> bool {
    u < adj.len() && adj[u as int].contains(v)
}

/// Every listed neighbour is a vertex of the graph.
pub open spec fn closed_lists(adj: Seq<Seq<usize>>) -> bool {
    forall|u: int, i: int|
        0 <= u < adj.len() && 0 <= i < adj[u].len() ==> (#[trigger] adj[u][i]) < adj.len()
}

/// Every edge is listed at both its ends.
pub open spec fn symmetric(adj: Seq<Seq<usize>>) -> bool {
    forall|u: usize, v: usize| #[trigger] has_edge(adj, u, v) ==> has_edge(adj, v, u)
}

/// Adjacency lists of a simple undirected graph: neighbours are vertices, no
/// list repeats a neighbour, no vertex neighbours itself, and `v` is listed
/// under `u` exactly when `u` is listed under `v`.
pub open spec fn simple_graph(adj: Seq<Seq<usize>>) -> bool {
    &&& closed_lists(adj)
    &&& forall|u: int| 0 <= u < adj.len() ==> (#[trigger] adj[u]).no_duplicates()
    &&& forall|u: usize| u < adj.len() ==> !#[trigger] has_edge(adj, u, u)
    &&& symmetric(adj)
}

/// The graph on `n` vertices without edges.
pub open spec fn edgeless(n: nat) -> Seq<Seq<usize>> {
    Seq::new(n, |u: int| Seq::<usize>::empty())
}

/// The adjacency lists after linking `u` and `v`: unchanged when the pair is
/// no valid new edge, else `v` is appended to the list of `u` and `u` to the
/// list of `v`.
pub open spec fn insert_edge(adj: Seq<Seq<usize>>, u: usize, v: usize) -> Seq<Seq<usize>> {
    if u < adj.len() && v < adj.len() && u != v && !has_edge(adj, u, v) {
        adj.update(u as int, adj[u as int].push(v)).update(v as int, adj[v as int].push(u))
    } else {
        adj
    }
}

/// What linking `u` and `v` changes in each vertex's list.
pub proof fn lemma_insert_edge_lists(adj: Seq<Seq<usize>>, u: usize, v: usize)
    requires
        u < adj.len(),
        v < adj.len(),
        u != v,
        !has_edge(adj, u, v),
    ensures
        insert_edge(adj, u, v).len() == adj.len(),
        insert_edge(adj, u, v)[u as int] == adj[u as int].push(v),
        insert_edge(adj, u, v)[v as int] == adj[v as int].push(u),
        forall|w: int|
            0 <= w < adj.len() && w != u && w != v ==> #[trigger] insert_edge(adj, u, v)[w]
                == adj[w],
{
}

/// Linking two vertices of a simple graph leaves a simple graph.
pub proof fn lemma_insert_edge_simple(adj: Seq<Seq<usize>>, u: usize, v: usize)
    requires
        simple_graph(adj),
    ensures
        simple_graph(insert_edge(adj, u, v)),
{
    let next = insert_edge(adj, u, v);
    if u < adj.len() && v < adj.len() && u != v && !has_edge(adj, u, v) {
        lemma_insert_edge_lists(adj, u, v);
        assert(!has_edge(adj, v, u));
        lemma_insert_edge_edges(adj, u, v);
        assert forall|a: int, i: int| 0 <= a < next.len() && 0 <= i < next[a].len() implies (
        #[trigger] next[a][i]) < next.len() by {
            if i < adj[a].len() {
                assert(next[a][i] == adj[a][i]);
            }
        }
        assert forall|a: int| 0 <= a < next.len() implies (#[trigger] next[a]).no_duplicates() by {
            assert(adj[a].no_duplicates());
            if a == u {
                lemma_push_no_duplicates(adj[a], v);
            } else if a == v {
                lemma_push_no_duplicates(adj[a], u);
            }
        }
        assert forall|a: usize| a < next.len() implies !#[trigger] has_edge(next, a, a) by {
            assert(!has_edge(adj, a, a));
        }
        assert forall|a: usize, b: usize| #[trigger] has_edge(next, a, b) implies has_edge(
            next,
            b,
            a,
        ) by {
            if has_edge(adj, a, b) {
                assert(has_edge(adj, b, a));
            }
        }
    }
}

/// Membership after appending one element.
pub proof fn lemma_push_contains(s: Seq<usize>, x: usize, y: usize)
    ensures
        s.push(x).contains(y) <==> s.contains(y) || y == x,
{
    let t = s.push(x);
    if s.contains(y) {
        let i = choose|i: int| 0 <= i < s.len() && s[i] == y;
        assert(t[i] == y);
    }
    if y == x {
        assert(t[s.len() as int] == y);
    }
    if t.contains(y) {
        let i = choose|i: int| 0 <= i < t.len() && t[i] == y;
        if i < s.len() {
            assert(s[i] == y);
        }
    }
}

/// Appending an element that is not yet listed keeps a list free of repeats.
pub proof fn lemma_push_no_duplicates(s: Seq<usize>, x: usize)
    requires
        s.no_duplicates(),
        !s.contains(x),
    ensures
        s.push(x).no_duplicates(),
{
    let t = s.push(x);
    assert forall|i: int, j: int| 0 <= i < t.len() && 0 <= j < t.len() && i != j implies t[i]
        != t[j] by {
        if i < s.len() && j < s.len() {
            assert(s[i] != s[j]);
        } else if i < s.len() {
            assert(s.contains(s[i]));
        } else {
            assert(s.contains(s[j]));
        }
    }
}

/// Linking two vertices raises both their degrees by one and the degree sum by two.
pub proof fn lemma_insert_edge_degrees(adj: Seq<Seq<usize>>, u: usize, v: usize)
    requires
        u < adj.len(),
        v < adj.len(),
        u != v,
        !has_edge(adj, u, v),
    ensures
        degrees(insert_edge(adj, u, v)) == degrees(adj).update(
            u as int,
            adj[u as int].len() + 1,
        ).update(v as int, adj[v as int].len() + 1),
        sum(degrees(insert_edge(adj, u, v))) == sum(degrees(adj)) + 2,
        zagreb(insert_edge(adj, u, v)) == zagreb(adj) + 2 * adj[u as int].len() + 2
            * adj[v as int].len() + 2,
{
    let ds = degrees(adj);
    let du = adj[u as int].len();
    let dv = adj[v as int].len();
    let mid = ds.update(u as int, du + 1);
    let next = mid.update(v as int, dv + 1);
    lemma_insert_edge_lists(adj, u, v);
    assert(degrees(insert_edge(adj, u, v)) =~= next);
    lemma_sum_update(ds, u as int, du + 1);
    lemma_sum_update(mid, v as int, dv + 1);
    lemma_sum_of_squares_update(ds, u as int, du + 1);
    lemma_sum_of_squares_update(mid, v as int, dv + 1);
    assert((du + 1) * (du + 1) == du * du + 2 * du + 1) by (nonlinear_arith);
    assert((dv + 1) * (dv + 1) == dv * dv + 2 * dv + 1) by (nonlinear_arith);
}

/// The degree sequence: entry `u` is the number of neighbours of `u`.
pub open spec fn degrees(adj: Seq<Seq<usize>>) -> Seq<nat> {
    Seq::new(adj.len(), |u: int| adj[u].len())
}

/// Sum of a sequence of naturals.
pub open spec fn sum(ds: Seq<nat>) -> nat
    decreases ds.len(),
{
    if ds.len() == 0 {
        0
    } else {
        sum(ds.drop_last()) + ds.last()
    }
}

/// Sum of the squares of a sequence of naturals.
pub open spec fn sum_of_squares(ds: Seq<nat>) -> nat
    decreases ds.len(),
{
    if ds.len() == 0 {
        0
    } else {
        sum_of_squares(ds.drop_last()) + ds.last() * ds.last()
    }
}

/// How many entries of `ds` equal `d`.
pub open spec fn count_of(ds: Seq<nat>, d: nat) -> nat
    decreases ds.len(),
{
    if ds.len() == 0 {
        0
    } else {
        count_of(ds.drop_last(), d) + if ds.last() == d { 1nat } else { 0nat }
    }
}

/// The least entry of `ds`, and 0 for the empty sequence.
pub open spec fn least(ds: Seq<nat>) -> nat
    decreases ds.len(),
{
    if ds.len() == 0 {
        0
    } else if ds.len() == 1 {
        ds.last()
    } else {
        let m = least(ds.drop_last());
        if ds.last() < m { ds.last() } else { m }
    }
}

/// The greatest entry of `ds`, and 0 for the empty sequence.
pub open spec fn greatest(ds: Seq<nat>) -> nat
    decreases ds.len(),
{
    if ds.len() == 0 {
        0
    } else {
        let m = greatest(ds.drop_last());
        if ds.last() > m { ds.last() } else { m }
    }
}

/// The first Zagreb index: the sum over all vertices of the squared degree.
pub open spec fn zagreb(adj: Seq<Seq<usize>>) -> nat {
    sum_of_squares(degrees(adj))
}

/// `least` is a lower bound that some entry attains.
pub proof fn lemma_least(ds: Seq<nat>)
    ensures
        forall|i: int| 0 <= i < ds.len() ==> least(ds) <= #[trigger] ds[i],
        ds.len() > 0 ==> exists|i: int| 0 <= i < ds.len() && #[trigger] ds[i] == least(ds),
    decreases ds.len(),
{
    if ds.len() > 1 {
        let front = ds.drop_last();
        lemma_least(front);
        let j = choose|j: int| 0 <= j < front.len() && #[trigger] front[j] == least(front);
        assert(ds[j] == front[j]);
        assert forall|i: int| 0 <= i < ds.len() implies least(ds) <= #[trigger] ds[i] by {
            if i < front.len() {
                assert(ds[i] == front[i]);
            }
        }
        if ds.last() < least(front) {
            assert(ds[ds.len() - 1] == least(ds));
        } else {
            assert(ds[j] == least(ds));
        }
    } else if ds.len() == 1 {
        assert(ds[0] == least(ds));
    }
}

/// `greatest` is an upper bound that some entry attains.
pub proof fn lemma_greatest(ds: Seq<nat>)
    ensures
        forall|i: int| 0 <= i < ds.len() ==> #[trigger] ds[i] <= greatest(ds),
        ds.len() > 0 ==> exists|i: int| 0 <= i < ds.len() && #[trigger] ds[i] == greatest(ds),
    decreases ds.len(),
{
    if ds.len() > 1 {
        let front = ds.drop_last();
        lemma_greatest(front);
        let j = choose|j: int| 0 <= j < front.len() && #[trigger] front[j] == greatest(front);
        assert(ds[j] == front[j]);
        assert forall|i: int| 0 <= i < ds.len() implies #[trigger] ds[i] <= greatest(ds) by {
            if i < front.len() {
                assert(ds[i] == front[i]);
            }
        }
        if ds.last() > greatest(front) {
            assert(ds[ds.len() - 1] == greatest(ds));
        } else {
            assert(ds[j] == greatest(ds));
        }
    } else if ds.len() == 1 {
        assert(greatest(ds.drop_last()) == 0);
        assert(ds[0] == greatest(ds));
    }
}

/// Replacing one entry changes the sum by the difference of the entries.
pub proof fn lemma_sum_update(ds: Seq<nat>, i: int, d: nat)
    requires
        0 <= i < ds.len(),
    ensures
        sum(ds.update(i, d)) + ds[i] == sum(ds) + d,
    decreases ds.len(),
{
    let after = ds.update(i, d);
    if i == ds.len() - 1 {
        assert(after.drop_last() =~= ds.drop_last());
    } else {
        assert(after.drop_last() =~= ds.drop_last().update(i, d));
        lemma_sum_update(ds.drop_last(), i, d);
    }
}

/// Replacing one entry changes the sum of squares by the difference of the squares.
pub proof fn lemma_sum_of_squares_update(ds: Seq<nat>, i: int, d: nat)
    requires
        0 <= i < ds.len(),
    ensures
        sum_of_squares(ds.update(i, d)) + ds[i] * ds[i] == sum_of_squares(ds) + d * d,
    decreases ds.len(),
{
    let after = ds.update(i, d);
    if i == ds.len() - 1 {
        assert(after.drop_last() =~= ds.drop_last());
    } else {
        assert(after.drop_last() =~= ds.drop_last().update(i, d));
        lemma_sum_of_squares_update(ds.drop_last(), i, d);
    }
}

/// A sequence of zeros sums to zero, and so do its squares.
pub proof fn lemma_sum_zeros(ds: Seq<nat>)
    requires
        forall|i: int| 0 <= i < ds.len() ==> ds[i] == 0,
    ensures
        sum(ds) == 0,
        sum_of_squares(ds) == 0,
    decreases ds.len(),
{
    if ds.len() > 0 {
        lemma_sum_zeros(ds.drop_last());
        assert(ds[ds.len() - 1] == 0);
        assert(ds.last() * ds.last() == 0) by (nonlinear_arith)
            requires
                ds.last() == 0,
        ;
    }
}

/// Sums grow with the prefix they are taken over.
pub proof fn lemma_prefix_sums(ds: Seq<nat>, i: int)
    requires
        0 <= i <= ds.len(),
    ensures
        sum(ds.take(i)) <= sum(ds),
        sum_of_squares(ds.take(i)) <= sum_of_squares(ds),
        forall|d: nat| count_of(ds.take(i), d) <= count_of(ds, d),
        i < ds.len() ==> sum(ds.take(i + 1)) == sum(ds.take(i)) + ds[i],
        i < ds.len() ==> sum_of_squares(ds.take(i + 1)) == sum_of_squares(ds.take(i)) + ds[i]
            * ds[i],
        forall|d: nat|
            i < ds.len() ==> count_of(ds.take(i + 1), d) == count_of(ds.take(i), d) + if ds[i]
                == d {
                1nat
            } else {
                0nat
            },
    decreases ds.len() - i,
{
    if i < ds.len() {
        assert(ds.take(i + 1).drop_last() =~= ds.take(i));
        assert(ds.take(i + 1).last() == ds[i]);
        lemma_prefix_sums(ds, i + 1);
        assert(ds[i] * ds[i] >= 0) by (nonlinear_arith);
    } else {
        assert(ds.take(i) =~= ds);
    }
}

/// Entries between `lo` and `hi` bound the sum, and the sum bounds the sum of squares.
pub proof fn lemma_sum_between(ds: Seq<nat>, lo: nat, hi: nat)
    requires
        forall|i: int| 0 <= i < ds.len() ==> lo <= #[trigger] ds[i] <= hi,
    ensures
        ds.len() * lo <= sum(ds) <= ds.len() * hi,
        sum(ds) <= sum_of_squares(ds) <= hi * sum(ds),
    decreases ds.len(),
{
    if ds.len() > 0 {
        let front = ds.drop_last();
        let d = ds.last();
        assert forall|i: int| 0 <= i < front.len() implies lo <= #[trigger] front[i] <= hi by {
            assert(front[i] == ds[i]);
        }
        lemma_sum_between(front, lo, hi);
        assert(lo <= ds[ds.len() - 1] <= hi);
        let m = front.len();
        assert(ds.len() * lo == m * lo + lo) by (nonlinear_arith)
            requires
                ds.len() == m + 1,
        ;
        assert(ds.len() * hi == m * hi + hi) by (nonlinear_arith)
            requires
                ds.len() == m + 1,
        ;
        assert(d <= d * d <= hi * d) by (nonlinear_arith)
            requires
                0 <= d <= hi,
        ;
        assert(hi * (sum(front) + d) == hi * sum(front) + hi * d) by (nonlinear_arith);
    } else {
        assert(ds.len() * lo == 0) by (nonlinear_arith)
            requires
                ds.len() == 0,
        ;
        assert(ds.len() * hi == 0) by (nonlinear_arith)
            requires
                ds.len() == 0,
        ;
        assert(hi * sum(ds) == 0) by (nonlinear_arith)
            requires
                sum(ds) == 0,
        ;
    }
}

/// The least and the greatest degree bound the degree sum, and the degree
/// sum bounds the first Zagreb index.
pub proof fn lemma_degree_bounds(adj: Seq<Seq<usize>>)
    ensures
        adj.len() * least(degrees(adj)) <= sum(degrees(adj)) <= adj.len() * greatest(degrees(adj)),
        sum(degrees(adj)) <= zagreb(adj) <= greatest(degrees(adj)) * sum(degrees(adj)),
        least(degrees(adj)) <= greatest(degrees(adj)),
{
    let ds = degrees(adj);
    lemma_least(ds);
    lemma_greatest(ds);
    lemma_sum_between(ds, least(ds), greatest(ds));
    if ds.len() > 0 {
        assert(least(ds) <= ds[0] <= greatest(ds));
    }
}

/// In a simple graph every degree is below the number of vertices.
pub proof fn lemma_degree_below(adj: Seq<Seq<usize>>, u: int)
    requires
        simple_graph(adj),
        0 <= u < adj.len(),
    ensures
        adj[u].len() < adj.len(),
{
    let n = adj.len();
    let list = adj[u];
    let others = Seq::new((n - 1) as nat, |i: int| if i < u { i as usize } else { (i + 1) as usize });
    if n <= usize::MAX + 1 {
        assert forall|i: int| 0 <= i < list.len() implies others.contains(#[trigger] list[i]) by {
            let w = list[i];
            assert(adj[u][i] < n);
            assert(list.contains(w));
            assert(has_edge(adj, u as usize, w));
            assert(!has_edge(adj, u as usize, u as usize));
            if w < u {
                assert(others[w as int] == w);
            } else {
                assert(others[w - 1] == w);
            }
        }
        lemma_distinct_within(list, others);
    } else {
        let all = Seq::new((usize::MAX + 1) as nat, |i: int| i as usize);
        assert forall|i: int| 0 <= i < list.len() implies all.contains(#[trigger] list[i]) by {
            assert(all[list[i] as int] == list[i]);
        }
        lemma_distinct_within(list, all);
    }
}

/// In a simple graph on `n` vertices the degrees sum to at most `n (n - 1)`.
pub proof fn lemma_degree_sum_bound(adj: Seq<Seq<usize>>)
    requires
        simple_graph(adj),
    ensures
        sum(degrees(adj)) <= adj.len() * (adj.len() - 1),
{
    let n = adj.len() as int;
    let ds = degrees(adj);
    if n > 0 {
        assert forall|i: int| 0 <= i < ds.len() implies 0 <= #[trigger] ds[i] <= (n - 1) as nat by {
            lemma_degree_below(adj, i);
        }
        lemma_sum_between(ds, 0, (n - 1) as nat);
    } else {
        assert(n * (n - 1) == 0) by (nonlinear_arith)
            requires
                n == 0,
        ;
    }
}

/// Where two vertices of a simple graph are not linked, the degree sum is at
/// least 2 below its bound `n (n - 1)`: there is room for their edge.
pub proof fn lemma_room_for_edge(adj: Seq<Seq<usize>>, u: usize, v: usize)
    requires
        simple_graph(adj),
        u < adj.len(),
        v < adj.len(),
        u != v,
        !has_edge(adj, u, v),
    ensures
        sum(degrees(adj)) + 2 <= adj.len() * (adj.len() - 1),
{
    lemma_insert_edge_simple(adj, u, v);
    lemma_insert_edge_degrees(adj, u, v);
    lemma_insert_edge_lists(adj, u, v);
    lemma_degree_sum_bound(insert_edge(adj, u, v));
}

/// The edges after linking two vertices of a simple graph: those before,
/// and the new one in both directions.
pub proof fn lemma_insert_edge_edges(adj: Seq<Seq<usize>>, u: usize, v: usize)
    requires
        simple_graph(adj),
        u < adj.len(),
        v < adj.len(),
        u != v,
    ensures
        insert_edge(adj, u, v).len() == adj.len(),
        forall|a: usize, b: usize| #[trigger]
            has_edge(insert_edge(adj, u, v), a, b) <==> has_edge(adj, a, b) || (a == u && b == v)
                || (a == v && b == u),
{
    let next = insert_edge(adj, u, v);
    if has_edge(adj, u, v) {
        assert(has_edge(adj, v, u));
    } else {
        lemma_insert_edge_lists(adj, u, v);
        assert forall|a: usize, b: usize| #[trigger]
            has_edge(next, a, b) <==> has_edge(adj, a, b) || (a == u && b == v) || (a == v && b
                == u) by {
            if a < adj.len() {
                if a == u {
                    lemma_push_contains(adj[a as int], v, b);
                } else if a == v {
                    lemma_push_contains(adj[a as int], u, b);
                } else {
                    assert(next[a as int] == adj[a as int]);
                }
            }
        }
    }
}

/// Two lists without repeats that hold the same items have the same length.
pub proof fn lemma_same_items(a: Seq<usize>, b: Seq<usize>)
    requires
        a.no_duplicates(),
        b.no_duplicates(),
        forall|x: usize| a.contains(x) <==> b.contains(x),
    ensures
        a.len() == b.len(),
{
    assert forall|i: int| 0 <= i < a.len() implies b.contains(#[trigger] a[i]) by {
        assert(a.contains(a[i]));
    }
    assert forall|i: int| 0 <= i < b.len() implies a.contains(#[trigger] b[i]) by {
        assert(b.contains(b[i]));
    }
    lemma_distinct_within(a, b);
    lemma_distinct_within(b, a);
}

/// A list without repeats is no longer than a list that holds all its items.
pub proof fn lemma_distinct_within(a: Seq<usize>, b: Seq<usize>)
    requires
        a.no_duplicates(),
        forall|i: int| 0 <= i < a.len() ==> b.contains(#[trigger] a[i]),
    ensures
        a.len() <= b.len(),
    decreases a.len(),
{
    if a.len() > 0 {
        let x = a.last();
        let front = a.drop_last();
        let k = choose|k: int| 0 <= k < b.len() && b[k] == x;
        let rest = b.remove(k);
        b.remove_ensures(k);
        assert forall|i: int| 0 <= i < front.len() implies rest.contains(#[trigger] front[i]) by {
            assert(front[i] == a[i]);
            assert(a[i] != a[a.len() - 1]);
            let j = choose|j: int| 0 <= j < b.len() && b[j] == a[i];
            if j < k {
                assert(rest[j] == b[j]);
            } else {
                assert(rest[j - 1] == b[j]);
            }
        }
        lemma_distinct_within(front, rest);
    }
}

/// A sequence whose entries all equal `d` sums to `len * d`, its squares to `len * d * d`.
pub proof fn lemma_constant_sums(ds: Seq<nat>, d: nat)
    requires
        forall|i: int| 0 <= i < ds.len() ==> ds[i] == d,
    ensures
        sum(ds) == ds.len() * d,
        sum_of_squares(ds) == ds.len() * (d * d),
    decreases ds.len(),
{
    if ds.len() > 0 {
        let front = ds.drop_last();
        lemma_constant_sums(front, d);
        assert(ds[ds.len() - 1] == d);
        let m = front.len();
        assert((m + 1) * d == m * d + d) by (nonlinear_arith);
        assert((m + 1) * (d * d) == m * (d * d) + d * d) by (nonlinear_arith);
    } else {
        assert(ds.len() * d == 0) by (nonlinear_arith)
            requires
                ds.len() == 0,
        ;
        assert(ds.len() * (d * d) == 0) by (nonlinear_arith)
            requires
                ds.len() == 0,
        ;
    }
}

/// Two different values cannot occur more often than there are entries; where
/// they fill the sequence, they determine its sum and the sum of its squares.
pub proof fn lemma_two_values(ds: Seq<nat>, a: nat, b: nat)
    requires
        a != b,
    ensures
        count_of(ds, a) + count_of(ds, b) <= ds.len(),
        count_of(ds, a) + count_of(ds, b) == ds.len() ==> sum(ds) == count_of(ds, a) * a
            + count_of(ds, b) * b && sum_of_squares(ds) == count_of(ds, a) * (a * a) + count_of(
            ds,
            b,
        ) * (b * b),
    decreases ds.len(),
{
    if ds.len() > 0 {
        let front = ds.drop_last();
        lemma_two_values(front, a, b);
        let ca = count_of(front, a);
        let cb = count_of(front, b);
        assert((ca + 1) * a == ca * a + a) by (nonlinear_arith);
        assert((cb + 1) * b == cb * b + b) by (nonlinear_arith);
        assert((ca + 1) * (a * a) == ca * (a * a) + a * a) by (nonlinear_arith);
        assert((cb + 1) * (b * b) == cb * (b * b) + b * b) by (nonlinear_arith);
    } else {
        assert(count_of(ds, a) * a == 0 && count_of(ds, b) * b == 0) by (nonlinear_arith)
            requires
                count_of(ds, a) == 0,
                count_of(ds, b) == 0,
        ;
        assert(count_of(ds, a) * (a * a) == 0 && count_of(ds, b) * (b * b) == 0) by (nonlinear_arith)
            requires
                count_of(ds, a) == 0,
                count_of(ds, b) == 0,
        ;
    }
}

/// A value that is counted occurs.
pub proof fn lemma_counted_occurs(ds: Seq<nat>, d: nat)
    requires
        count_of(ds, d) > 0,
    ensures
        exists|i: int| 0 <= i < ds.len() && #[trigger] ds[i] == d,
    decreases ds.len(),
{
    if ds.last() == d {
        assert(ds[ds.len() - 1] == d);
    } else {
        let front = ds.drop_last();
        lemma_counted_occurs(front, d);
        let i = choose|i: int| 0 <= i < front.len() && #[trigger] front[i] == d;
        assert(ds[i] == d);
    }
}

/// The view of nested vectors, list by list.
pub proof fn lemma_lists(v: Vec<Vec<usize>>)
    ensures
        v.deep_view().len() == v.len(),
        forall|i: int| 0 <= i < v.len() ==> #[trigger] v.deep_view()[i] == v[i]@,
{
    assert forall|i: int| 0 <= i < v.len() implies #[trigger] v.deep_view()[i] == v[i]@ by {
        assert(v[i].deep_view() =~= v[i]@);
    }
}

} // verus!
