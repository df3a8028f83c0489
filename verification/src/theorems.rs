//! The theorem evaluators: sufficient conditions for a Hamiltonian cycle and
//! for a Hamiltonian path, from shape, connectivity, Dirac's condition and a
//! threshold on the first Zagreb index.
use vstd::prelude::*;
use crate::adjacency::{
    degrees, greatest, least, lemma_degree_below, lemma_degree_bounds, lemma_greatest, sum, zagreb,
};
use crate::classify::{complete, cycle, edges_of, path, petersen, star};
use crate::connectivity::k_connected;
use crate::graph::Graph;
use crate::laws::lemma_first_zagreb_index_bounds;

verus! {

/// `r` is the least natural number whose square is at least `m`.
pub open spec fn is_ceil_sqrt(m: nat, r: nat) -> bool {
    r * r >= m && (r == 0 || (r - 1) * (r - 1) < m)
}

/// The square root of `m`, rounded up.
pub open spec fn ceil_sqrt(m: nat) -> nat {
    choose|r: nat| is_ceil_sqrt(m, r)
}

/// The integer part of `e (sqrt(a) - sqrt(b))^2`, computed without rounding:
/// the product is `e (a + b) - 2 e sqrt(a b)`, and `2 e sqrt(a b)` is the square
/// root of `4 e^2 a b`.
pub open spec fn root_gap(a: nat, b: nat, e: nat) -> int {
    e * (a + b) - ceil_sqrt(4 * e * e * a * b)
}

/// The threshold on the first Zagreb index for connectivity `k`:
/// `(n - k - slack) D^2 + e^2 / (k + slack)` plus the integer part of
/// `e (sqrt(n - k - slack) - sqrt(d))^2`, with `D` the greatest and `d` the
/// least degree. The slack is 1 for Hamiltonian cycles and 2 for
/// Hamiltonian paths.
pub open spec fn zagreb_threshold(adj: Seq<Seq<usize>>, k: nat, slack: nat) -> int {
    let n = adj.len();
    let e = edges_of(adj);
    let top = greatest(degrees(adj));
    let rest = (n - k - slack) as nat;
    rest * top * top + (e * e) / (k + slack) + root_gap(rest, least(degrees(adj)), e)
}

/// Whether the graph is taken to have a Hamiltonian cycle. Complete graphs
/// and cycles on at least three vertices have one; stars on more than three
/// vertices and graphs with the Petersen fingerprint are refused. Any other
/// graph must be 2-connected, and then passes by Dirac's condition or by
/// reaching the Zagreb threshold.
pub open spec fn likely_hamiltonian(adj: Seq<Seq<usize>>, exact: bool) -> bool {
    let n = adj.len();
    if n < 3 {
        false
    } else if complete(adj) {
        true
    } else if cycle(adj) {
        true
    } else if star(adj) && n > 3 {
        false
    } else if petersen(adj) {
        false
    } else if !k_connected(adj, 2, exact) {
        false
    } else if least(degrees(adj)) >= n / 2 {
        true
    } else {
        zagreb(adj) >= zagreb_threshold(adj, 2, 1)
    }
}

/// Whether the graph is taken to have a Hamiltonian path. Graphs taken to
/// have a Hamiltonian cycle have one, and so do complete graphs, paths,
/// stars and graphs with the Petersen fingerprint. Any other graph must be
/// connected, and then passes by the Dirac-like condition or, from nine
/// vertices on, by reaching the Zagreb threshold.
pub open spec fn likely_traceable(adj: Seq<Seq<usize>>, exact: bool) -> bool {
    let n = adj.len();
    if n < 2 {
        false
    } else if likely_hamiltonian(adj, exact) {
        true
    } else if complete(adj) {
        true
    } else if path(adj) {
        true
    } else if star(adj) {
        true
    } else if petersen(adj) {
        true
    } else if !k_connected(adj, 1, exact) {
        false
    } else if least(degrees(adj)) >= (n - 1) / 2 {
        true
    } else if n < 9 {
        least(degrees(adj)) >= (n - 1) / 2
    } else {
        zagreb(adj) >= zagreb_threshold(adj, 1, 2)
    }
}

/// Looks for the rounded-up square root of `m` from `r` upwards.
proof fn lemma_ceil_sqrt_from(m: nat, r: nat) -> (root: nat)
    requires
        r == 0 || (r - 1) * (r - 1) < m,
    ensures
        is_ceil_sqrt(m, root),
    decreases m - r,
{
    if r * r >= m {
        r
    } else {
        assert(r < m) by (nonlinear_arith)
            requires
                r * r < m,
        ;
        lemma_ceil_sqrt_from(m, r + 1)
    }
}

/// Every natural number has exactly one rounded-up square root.
pub proof fn lemma_ceil_sqrt(m: nat)
    ensures
        is_ceil_sqrt(m, ceil_sqrt(m)),
        forall|r: nat| is_ceil_sqrt(m, r) ==> r == ceil_sqrt(m),
{
    let root = lemma_ceil_sqrt_from(m, 0);
    let c = ceil_sqrt(m);
    assert forall|r: nat| is_ceil_sqrt(m, r) implies r == c by {
        lemma_ceil_sqrt_least(m, r);
        if r > c {
            assert((r - 1) * (r - 1) >= c * c) by (nonlinear_arith)
                requires
                    r - 1 >= c,
                    c >= 0,
            ;
        }
    }
}

/// The rounded-up square root of `m` is at most any number whose square reaches `m`.
pub proof fn lemma_ceil_sqrt_least(m: nat, r: nat)
    requires
        r * r >= m,
    ensures
        ceil_sqrt(m) <= r,
{
    let root = lemma_ceil_sqrt_from(m, 0);
    let c = ceil_sqrt(m);
    if c > r {
        assert((c - 1) * (c - 1) >= r * r) by (nonlinear_arith)
            requires
                c - 1 >= r,
                r >= 0,
        ;
    }
}

/// The integer part of `e (sqrt(a) - sqrt(b))^2` is not negative.
pub proof fn lemma_root_gap(a: nat, b: nat, e: nat)
    ensures
        0 <= root_gap(a, b, e) <= e * (a + b),
{
    let m = 4 * e * e * a * b;
    let r = e * (a + b);
    assert(r * r >= m) by (nonlinear_arith)
        requires
            r == e * (a + b),
            m == 4 * e * e * a * b,
    {
        assert((a + b) * (a + b) - 4 * a * b == (a - b) * (a - b));
        assert((a - b) * (a - b) >= 0);
        assert(e * e >= 0);
        assert((e * (a + b)) * (e * (a + b)) == (e * e) * ((a + b) * (a + b)));
        assert(4 * e * e * a * b == (e * e) * (4 * a * b));
        assert((e * e) * ((a + b) * (a + b)) - (e * e) * (4 * a * b) == (e * e) * ((a - b) * (a
            - b)));
        assert((e * e) * ((a - b) * (a - b)) >= 0);
    }
    lemma_ceil_sqrt_least(m, r);
}

/// From seven vertices on, no graph with an edge reaches the Zagreb
/// threshold for `k + slack == 3`: the threshold exceeds twice the edge count
/// times the greatest degree, which bounds the index.
pub proof fn lemma_threshold_out_of_reach(adj: Seq<Seq<usize>>, k: nat, slack: nat)
    requires
        k + slack == 3,
        adj.len() >= 7,
        greatest(degrees(adj)) >= 1,
        sum(degrees(adj)) == 2 * edges_of(adj),
    ensures
        zagreb(adj) < zagreb_threshold(adj, k, slack),
{
    let n = adj.len();
    let e = edges_of(adj);
    let top = greatest(degrees(adj));
    let low = least(degrees(adj));
    let rest = (n - 3) as nat;
    let z = zagreb(adj);
    let third = (e * e) / 3;
    let gap = root_gap(rest, low, e);
    lemma_degree_bounds(adj);
    lemma_root_gap(rest, low, e);
    let tt = top * top;
    let et = e * top;
    let ee = e * e;
    assert(top * (2 * e) == 2 * et) by (nonlinear_arith)
        requires
            et == e * top,
    ;
    assert(3 * third >= ee - 2);
    assert(rest * top * top == rest * tt) by (nonlinear_arith)
        requires
            tt == top * top,
    ;
    assert(rest * tt >= 4 * tt) by (nonlinear_arith)
        requires
            rest >= 4,
            tt >= 0,
    ;
    assert(12 * tt + ee - 2 > 6 * et) by (nonlinear_arith)
        requires
            top >= 1,
            e >= 0,
            tt == top * top,
            et == e * top,
            ee == e * e,
    {
        assert((e - 3 * top) * (e - 3 * top) >= 0);
        assert((e - 3 * top) * (e - 3 * top) == e * e - 6 * (e * top) + 9 * (top * top));
        assert(top * top >= 1);
    }
    assert(zagreb_threshold(adj, k, slack) == rest * top * top + third + gap);
}

/// The square root of `m`, rounded up.
pub fn rounded_up_root(m: u128) -> (r: u128)
    ensures
        r == ceil_sqrt(m as nat),
        r <= 0x1_0000_0000_0000_0000,
{
    let mut lo: u128 = 0;
    let mut hi: u128 = if m <= 0x1_0000_0000_0000_0000 { m } else { 0x1_0000_0000_0000_0000 };
    assert(hi * hi >= m) by (nonlinear_arith)
        requires
            hi == (if m <= 0x1_0000_0000_0000_0000 { m } else { 0x1_0000_0000_0000_0000 }),
            0 <= m <= 0xffff_ffff_ffff_ffff_ffff_ffff_ffff_ffff,
    ;
    while lo < hi
        invariant
            lo <= hi <= 0x1_0000_0000_0000_0000,
            hi * hi >= m,
            lo == 0 || (lo - 1) * (lo - 1) < m,
        decreases hi - lo,
    {
        let mid: u128 = lo + (hi - lo) / 2;
        assert(mid * mid <= 0xffff_ffff_ffff_ffff * 0xffff_ffff_ffff_ffff) by (nonlinear_arith)
            requires
                0 <= mid <= 0xffff_ffff_ffff_ffff,
        ;
        if mid * mid >= m {
            hi = mid;
        } else {
            lo = mid + 1;
        }
    }
    proof {
        assert(is_ceil_sqrt(m as nat, lo as nat));
        lemma_ceil_sqrt(m as nat);
    }
    lo
}

/// The integer part of `e (sqrt(a) - sqrt(b))^2`, for `a` and `b` below
/// `2^16` and `e` below `2^32`.
pub fn root_gap_floor(a: u128, b: u128, e: u128) -> (g: u128)
    requires
        a < 0x1_0000,
        b < 0x1_0000,
        e < 0x1_0000_0000,
    ensures
        g == root_gap(a as nat, b as nat, e as nat),
        g <= e * (a + b),
{
    assert(e * e <= 0xffff_ffff * 0xffff_ffff) by (nonlinear_arith)
        requires
            0 <= e <= 0xffff_ffff,
    ;
    assert(a * b <= 0xffff * 0xffff) by (nonlinear_arith)
        requires
            0 <= a <= 0xffff,
            0 <= b <= 0xffff,
    ;
    let squares: u128 = e * e;
    let product: u128 = a * b;
    assert(squares * product <= 0xffff_fffe_0000_0001 * 0xfffe_0001) by (nonlinear_arith)
        requires
            0 <= squares <= 0xffff_fffe_0000_0001,
            0 <= product <= 0xfffe_0001,
    ;
    let m: u128 = 4 * (squares * product);
    assert(m == 4 * e * e * a * b) by (nonlinear_arith)
        requires
            m == 4 * (squares * product),
            squares == e * e,
            product == a * b,
    ;
    let root = rounded_up_root(m);
    proof {
        lemma_root_gap(a as nat, b as nat, e as nat);
    }
    assert(e * (a + b) <= 0xffff_ffff * 0x1_fffe) by (nonlinear_arith)
        requires
            0 <= e <= 0xffff_ffff,
            0 <= a + b <= 0x1_fffe,
    ;
    e * (a + b) - root
}

impl Graph {
    /// Whether the graph is taken to have a Hamiltonian cycle.
    pub open spec fn spec_is_likely_hamiltonian(&self, exact: bool) -> bool {
        likely_hamiltonian(self@, exact)
    }

    /// Whether the graph is taken to have a Hamiltonian path.
    pub open spec fn spec_is_likely_traceable(&self, exact: bool) -> bool {
        likely_traceable(self@, exact)
    }

    /// The threshold on the first Zagreb index for connectivity `k` and the
    /// given slack, on a graph with fewer than `2^16` vertices.
    pub fn zagreb_threshold(&self, k: usize, slack: usize) -> (t: u128)
        requires
            self.wf(),
            self.spec_vertex_count() < 0x1_0000,
            1 <= k + slack <= self.spec_vertex_count(),
        ensures
            t == zagreb_threshold(self@, k as nat, slack as nat),
    {
        let n = self.adj.len();
        let ghost ds = degrees(self@);
        let low = self.min_degree();
        let top = self.max_degree();
        let e = self.n_edges;
        proof {
            lemma_degree_bounds(self@);
            lemma_greatest(ds);
            let i = choose|i: int| 0 <= i < ds.len() && #[trigger] ds[i] == greatest(ds);
            lemma_degree_below(self@, i);
            assert(2 * e <= 0xffff * 0xffff) by (nonlinear_arith)
                requires
                    2 * e <= n * top,
                    0 <= top < n,
                    n <= 0xffff,
            ;
        }
        let rest: u128 = (n - k - slack) as u128;
        let wide_top: u128 = top as u128;
        let wide_e: u128 = e as u128;
        assert(rest * wide_top <= 0xffff * 0xffff && rest * wide_top * wide_top <= 0xffff * 0xffff
            * 0xffff) by (nonlinear_arith)
            requires
                0 <= rest <= 0xffff,
                0 <= wide_top <= 0xffff,
        ;
        assert(wide_e * wide_e <= 0xffff_ffff * 0xffff_ffff) by (nonlinear_arith)
            requires
                0 <= wide_e <= 0xffff_ffff,
        ;
        let gap = root_gap_floor(rest, low as u128, wide_e);
        assert(wide_e * (rest + low) <= 0xffff_ffff * 0x1_fffe) by (nonlinear_arith)
            requires
                0 <= wide_e <= 0xffff_ffff,
                0 <= rest + low <= 0x1_fffe,
        ;
        rest * wide_top * wide_top + wide_e * wide_e / ((k + slack) as u128) + gap
    }

    /// Whether the first Zagreb index reaches the threshold for connectivity
    /// `k` with the given slack, where `k + slack` is 3. From seven vertices
    /// on the threshold is out of reach and nothing is computed.
    pub(crate) fn reaches_zagreb_threshold(&self, k: usize, slack: usize) -> (b: bool)
        requires
            self.wf(),
            k + slack == 3,
            self.spec_vertex_count() >= 3,
            self.spec_max_degree() >= 1,
        ensures
            b == (self.spec_first_zagreb_index() >= zagreb_threshold(self@, k as nat, slack as nat)),
    {
        let n = self.adj.len();
        if n >= 7 {
            proof {
                lemma_degree_bounds(self@);
                lemma_threshold_out_of_reach(self@, k as nat, slack as nat);
            }
            return false;
        }
        proof {
            lemma_first_zagreb_index_bounds(*self);
            assert(n * (n - 1) * (n - 1) <= 150) by (nonlinear_arith)
                requires
                    3 <= n <= 6,
            ;
        }
        self.first_zagreb_index() as u128 >= self.zagreb_threshold(k, slack)
    }

    /// Whether the graph is likely to have a Hamiltonian cycle. The answer
    /// `true` rests on a sufficient condition; `false` says only that none
    /// of the conditions holds. `use_exact_connectivity` selects the test
    /// for 2-connectivity.
    pub fn is_likely_hamiltonian(&self, use_exact_connectivity: bool) -> (b: bool)
        requires
            self.wf(),
        ensures
            b == self.spec_is_likely_hamiltonian(use_exact_connectivity),
    {
        let n = self.adj.len();
        if n < 3 {
            return false;
        }
        if self.is_complete() {
            return true;
        }
        if self.is_cycle() {
            return true;
        }
        if self.is_star() && n > 3 {
            return false;
        }
        if self.is_petersen() {
            return false;
        }
        if !self.is_k_connected(2, use_exact_connectivity) {
            return false;
        }
        let low = self.min_degree();
        if low >= n / 2 {
            return true;
        }
        proof {
            lemma_degree_bounds(self@);
        }
        self.reaches_zagreb_threshold(2, 1)
    }

    /// Whether the graph is likely to have a Hamiltonian path. The answer
    /// `true` rests on a sufficient condition; `false` says only that none
    /// of the conditions holds. `use_exact_connectivity` selects the test
    /// for connectivity.
    pub fn is_likely_traceable(&self, use_exact_connectivity: bool) -> (b: bool)
        requires
            self.wf(),
        ensures
            b == self.spec_is_likely_traceable(use_exact_connectivity),
    {
        let n = self.adj.len();
        if n < 2 {
            return false;
        }
        if self.is_likely_hamiltonian(use_exact_connectivity) {
            return true;
        }
        if self.is_complete() {
            return true;
        }
        if self.is_path() {
            return true;
        }
        if self.is_star() {
            return true;
        }
        if self.is_petersen() {
            return true;
        }
        if !self.is_k_connected(1, use_exact_connectivity) {
            return false;
        }
        if self.min_degree() >= (n - 1) / 2 {
            return true;
        }
        if n < 9 {
            return false;
        }
        proof {
            lemma_degree_bounds(self@);
        }
        self.reaches_zagreb_threshold(1, 2)
    }
}

} // verus!
