//! Directed graphs with parallel arcs, stored as adjacency lists of
//! `(head, weight)` arcs. A weight is carried as the 64-bit pattern of its
//! IEEE-754 binary64 value; only its order is read here, through
//! [`weight_key`].
use crate::sort::{lemma_sorted_unique, merge_sort, sorted_by, SortKey};
use vstd::prelude::*;

verus! {

broadcast use {
    vstd::seq_lib::to_multiset_build,
    vstd::seq_lib::to_multiset_contains,
    vstd::multiset::group_multiset_axioms,
};

/// Bit pattern of the binary64 value `+∞`.
pub const INFINITY_BITS: u64 = 0x7FF0_0000_0000_0000;

/// Bit pattern of the binary64 value `+0.0`.
pub const ZERO_BITS: u64 = 0;

/// Sign bit of a binary64 pattern.
pub const SIGN_BIT: u64 = 0x8000_0000_0000_0000;

/// Rank of the binary64 value with bit pattern `w` in the IEEE-754 total
/// order (`f64::total_cmp`): negative patterns are reversed below all
/// positive ones.
pub open spec fn weight_key(w: u64) -> u64 {
    if w >= SIGN_BIT {
        (u64::MAX - w) as u64
    } else {
        (w + SIGN_BIT) as u64
    }
}

/// The bit pattern whose rank is `k`.
pub open spec fn key_weight(k: u64) -> u64 {
    if k >= SIGN_BIT {
        (k - SIGN_BIT) as u64
    } else {
        (u64::MAX - k) as u64
    }
}

/// Ranks are a bijection on bit patterns.
pub proof fn lemma_weight_key_bijective(w: u64, k: u64)
    ensures
        key_weight(weight_key(w)) == w,
        weight_key(key_weight(k)) == k,
        weight_key(w) == weight_key(k) ==> w == k,
{
}

/// Rank of a weight in the binary64 total order.
pub fn total_key(w: u64) -> (k: u64)
    ensures
        k == weight_key(w),
{
    if w >= SIGN_BIT {
        u64::MAX - w
    } else {
        w + SIGN_BIT
    }
}

/// Adjacency order: by weight rank, ties broken by head.
pub open spec fn arc_le(a: (usize, u64), b: (usize, u64)) -> bool {
    weight_key(a.1) < weight_key(b.1) || (weight_key(a.1) == weight_key(b.1) && a.0 <= b.0)
}

impl SortKey for (usize, u64) {
    open spec fn key_le(self, other: Self) -> bool {
        arc_le(self, other)
    }

    fn le(&self, other: &Self) -> (r: bool) {
        let a = total_key(self.1);
        let b = total_key(other.1);
        a < b || (a == b && self.0 <= other.0)
    }

    proof fn lemma_total(a: Self, b: Self) {
    }

    proof fn lemma_trans(a: Self, b: Self, c: Self) {
    }
}

/// Number of arcs held by a run of adjacency lists.
pub open spec fn arc_total(adj: Seq<Vec<(usize, u64)>>) -> int
    decreases adj.len(),
{
    if adj.len() == 0 {
        0
    } else {
        arc_total(adj.drop_last()) + adj.last()@.len()
    }
}

pub proof fn lemma_arc_total_update(s: Seq<Vec<(usize, u64)>>, k: int, x: Vec<(usize, u64)>)
    requires
        0 <= k < s.len(),
    ensures
        arc_total(s.update(k, x)) == arc_total(s) - s[k]@.len() + x@.len(),
    decreases s.len(),
{
    if k == s.len() - 1 {
        assert(s.update(k, x).drop_last() =~= s.drop_last());
    } else {
        lemma_arc_total_update(s.drop_last(), k, x);
        assert(s.update(k, x).drop_last() =~= s.drop_last().update(k, x));
    }
}

pub proof fn lemma_arc_total_bounds(s: Seq<Vec<(usize, u64)>>)
    ensures
        arc_total(s) >= 0,
        forall|k: int| 0 <= k < s.len() ==> s[k]@.len() <= arc_total(s),
    decreases s.len(),
{
    if s.len() > 0 {
        lemma_arc_total_bounds(s.drop_last());
        assert forall|k: int| 0 <= k < s.len() implies s[k]@.len() <= arc_total(s) by {
            if k < s.len() - 1 {
                assert(s.drop_last()[k] == s[k]);
            }
        }
    }
}

/// A weighted digraph on vertices `0..n` with `m` arcs; `degree[u]` is the
/// out-degree of `u`.
#[derive(Clone)]
pub struct Graph {
    pub n: usize,
    pub m: usize,
    pub adj: Vec<Vec<(usize, u64)>>,
    pub degree: Vec<usize>,
}

impl Graph {
    /// Structural consistency: one list and one degree per vertex, degrees
    /// are list lengths and `m` counts all arcs.
    pub open spec fn wf(&self) -> bool {
        &&& self.adj@.len() == self.n
        &&& self.degree@.len() == self.n
        &&& forall|u: int| 0 <= u < self.n ==> self.degree@[u] == (#[trigger] self.adj@[u])@.len()
        &&& self.m == arc_total(self.adj@)
    }

    /// Every arc ends at a vertex of the graph.
    pub open spec fn heads_in_range(&self) -> bool {
        forall|u: int, j: int|
            0 <= u < self.adj@.len() && 0 <= j < self.adj@[u]@.len() ==> (
            #[trigger] self.adj@[u]@[j]).0 < self.n
    }

    /// The arcs leaving `u`, in stored order.
    pub open spec fn out(&self, u: int) -> Seq<(usize, u64)> {
        self.adj@[u]@
    }

    /// `n` isolated vertices.
    pub fn new(n: usize) -> (g: Graph)
        ensures
            g.wf(),
            g.heads_in_range(),
            g.n == n,
            g.m == 0,
            forall|u: int| 0 <= u < n ==> (#[trigger] g.adj@[u])@.len() == 0,
    {
        let mut adj: Vec<Vec<(usize, u64)>> = Vec::new();
        let mut degree: Vec<usize> = Vec::new();
        let mut k: usize = 0;
        while k < n
            invariant
                k <= n,
                adj@.len() == k,
                degree@.len() == k,
                forall|j: int| 0 <= j < k ==> (#[trigger] adj@[j])@.len() == 0,
                forall|j: int| 0 <= j < k ==> (#[trigger] degree@[j]) == 0,
                arc_total(adj@) == 0,
            decreases n - k,
        {
            let ghost prev = adj@;
            adj.push(Vec::new());
            degree.push(0);
            assert(adj@.drop_last() =~= prev);
            k = k + 1;
        }
        Graph { n, m: 0, adj, degree }
    }

    /// Appends the arc `u -> v` of weight `w` to the list of `u`.
    pub fn add_edge(&mut self, u: usize, v: usize, w: u64)
        requires
            old(self).wf(),
            u < old(self).n,
            old(self).m < usize::MAX,
        ensures
            final(self).wf(),
            final(self).n == old(self).n,
            final(self).m == old(self).m + 1,
            final(self).adj@ == old(self).adj@.update(
                u as int,
                final(self).adj@[u as int],
            ),
            final(self).out(u as int) == old(self).out(u as int).push((v, w)),
            final(self).degree@ == old(self).degree@.update(u as int, (old(self).degree@[u as int] + 1) as usize),
            old(self).heads_in_range() && v < old(self).n ==> final(self).heads_in_range(),
    {
        let ghost old_adj = self.adj@;
        proof {
            lemma_arc_total_bounds(old_adj);
            assert(old_adj[u as int]@.len() <= arc_total(old_adj));
        }
        let mut list: Vec<(usize, u64)> = Vec::new();
        std::mem::swap(&mut self.adj[u], &mut list);
        list.push((v, w));
        self.adj[u] = list;
        self.degree[u] = self.degree[u] + 1;
        self.m = self.m + 1;
        proof {
            assert(self.adj@ == old_adj.update(u as int, list));
            lemma_arc_total_update(old_adj, u as int, list);
            assert forall|x: int| 0 <= x < self.n implies self.degree@[x] == (
            #[trigger] self.adj@[x])@.len() by {
                if x != u {
                    assert(self.adj@[x] == old_adj[x]);
                }
            }
            if old(self).heads_in_range() && v < self.n {
                assert forall|x: int, j: int|
                    0 <= x < self.adj@.len() && 0 <= j < self.adj@[x]@.len() implies (
                    #[trigger] self.adj@[x]@[j]).0 < self.n by {
                    if x != u {
                        assert(self.adj@[x] == old_adj[x]);
                    } else if j < old_adj[x]@.len() {
                        assert(self.adj@[x]@[j] == old_adj[x]@[j]);
                    }
                }
            }
        }
    }
}

/// Sorts every adjacency list by weight rank (`f64::total_cmp`), ties by
/// head. Vertices, degrees, the arc count and each vertex's multiset of arcs
/// are unchanged.
pub fn finish(g: &mut Graph)
    requires
        old(g).wf(),
    ensures
        final(g).wf(),
        final(g).n == old(g).n,
        final(g).m == old(g).m,
        final(g).degree@ == old(g).degree@,
        forall|u: int|
            0 <= u < final(g).n ==> sorted_by(#[trigger] final(g).out(u)) && final(g).out(u).to_multiset()
                == old(g).out(u).to_multiset(),
        old(g).heads_in_range() ==> final(g).heads_in_range(),
{
    let n = g.adj.len();
    let mut u: usize = 0;
    while u < n
        invariant
            n == old(g).n,
            u <= n,
            g.wf(),
            g.n == old(g).n,
            g.m == old(g).m,
            g.degree@ == old(g).degree@,
            forall|x: int|
                0 <= x < u ==> sorted_by(#[trigger] g.out(x)) && g.out(x).to_multiset()
                    == old(g).out(x).to_multiset(),
            forall|x: int| u <= x < n ==> #[trigger] g.out(x) == old(g).out(x),
            old(g).heads_in_range() ==> g.heads_in_range(),
        decreases n - u,
    {
        let sorted = merge_sort(&g.adj[u]);
        let ghost old_adj = g.adj@;
        let ghost g0 = *g;
        proof {
            lemma_arc_total_update(old_adj, u as int, sorted);
        }
        g.adj[u] = sorted;
        proof {
            assert(g.adj@ == old_adj.update(u as int, sorted));
            assert forall|x: int| 0 <= x < u + 1 implies sorted_by(#[trigger] g.out(x))
                && g.out(x).to_multiset() == old(g).out(x).to_multiset() by {
                if x != u {
                    assert(g.adj@[x] == old_adj[x]);
                    assert(sorted_by(g0.out(x)));
                } else {
                    assert(g0.out(x) == old(g).out(x));
                }
            }
            assert forall|x: int| u + 1 <= x < n implies #[trigger] g.out(x) == old(g).out(x) by {
                assert(g.adj@[x] == old_adj[x]);
                assert(g0.out(x) == old(g).out(x));
            }
            assert forall|x: int| 0 <= x < g.n implies g.degree@[x] == (#[trigger] g.adj@[x])@.len() by {
                if x != u {
                    assert(g.adj@[x] == old_adj[x]);
                }
            }
            if old(g).heads_in_range() {
                assert forall|x: int, j: int|
                    0 <= x < g.adj@.len() && 0 <= j < g.adj@[x]@.len() implies (
                    #[trigger] g.adj@[x]@[j]).0 < g.n by {
                    if x != u {
                        assert(g.adj@[x] == old_adj[x]);
                    } else {
                        let a = g.adj@[x]@[j];
                        assert(g.out(x).to_multiset().count(a) > 0);
                        assert(old_adj[x]@.contains(a));
                    }
                }
            }
        }
        u = u + 1;
    }
}

/// Arcs are ordered antisymmetrically: two arcs each ordered before the
/// other are the same arc.
pub proof fn lemma_arc_le_antisymmetric()
    ensures
        forall|x: (usize, u64), y: (usize, u64)| #[trigger] x.key_le(y) && #[trigger] y.key_le(x) ==> x == y,
{
    assert forall|x: (usize, u64), y: (usize, u64)| #[trigger] x.key_le(y) && #[trigger] y.key_le(x) implies x
        == y by {
        lemma_weight_key_bijective(x.1, y.1);
    }
}

/// The order `finish` leaves is canonical: lists sorted by it that hold the
/// same arcs are equal, so finishing twice changes nothing and the order in
/// which arcs were added does not show after `finish`.
pub proof fn lemma_finish_canonical(g: Graph, h: Graph)
    requires
        g.n == h.n,
        g.wf(),
        h.wf(),
        forall|u: int|
            0 <= u < g.n ==> sorted_by(#[trigger] g.out(u)) && sorted_by(h.out(u)) && g.out(u).to_multiset()
                == h.out(u).to_multiset(),
    ensures
        forall|u: int| 0 <= u < g.n ==> #[trigger] g.out(u) == h.out(u),
{
    lemma_arc_le_antisymmetric();
    assert forall|u: int| 0 <= u < g.n implies #[trigger] g.out(u) == h.out(u) by {
        lemma_sorted_unique(g.out(u), h.out(u));
    }
}

/// The pattern `w` is a number, not a NaN: its rank lies between those of
/// `-∞` and `+∞`.
pub open spec fn is_number(w: u64) -> bool {
    0x000F_FFFF_FFFF_FFFFu64 <= weight_key(w) <= 0xFFF0_0000_0000_0000u64
}

/// Whether the pattern `w` is a number, not a NaN.
pub fn number_bits(w: u64) -> (r: bool)
    ensures
        r == is_number(w),
{
    let k = total_key(w);
    0x000F_FFFF_FFFF_FFFFu64 <= k && k <= 0xFFF0_0000_0000_0000u64
}

/// For every vertex, the least weight (in rank order) of an arc entering it,
/// NaN weights skipped; `+∞` when none is smaller.
pub fn incoming(g: &Graph) -> (a: Vec<u64>)
    requires
        g.wf(),
        g.heads_in_range(),
    ensures
        a@.len() == g.n,
        forall|v: int|
            0 <= v < g.n ==> weight_key(#[trigger] a@[v]) <= weight_key(INFINITY_BITS),
        forall|u: int, j: int|
            0 <= u < g.n && 0 <= j < g.out(u).len() && is_number(g.out(u)[j].1) ==> weight_key(
                a@[(#[trigger] g.out(u)[j]).0 as int],
            ) <= weight_key(g.out(u)[j].1),
        forall|v: int|
            0 <= v < g.n ==> #[trigger] a@[v] == INFINITY_BITS || exists|u: int, j: int|
                0 <= u < g.n && 0 <= j < g.out(u).len() && g.out(u)[j].0 == v && g.out(u)[j].1
                    == a@[v] && is_number(a@[v]),
{
    let n = g.n;
    let mut a: Vec<u64> = Vec::new();
    let mut k: usize = 0;
    while k < n
        invariant
            k <= n,
            a@.len() == k,
            forall|j: int| 0 <= j < k ==> a@[j] == INFINITY_BITS,
        decreases n - k,
    {
        a.push(INFINITY_BITS);
        k = k + 1;
    }
    let mut u: usize = 0;
    while u < n
        invariant
            n == g.n,
            g.wf(),
            g.heads_in_range(),
            u <= n,
            a@.len() == n,
            forall|v: int| 0 <= v < n ==> weight_key(#[trigger] a@[v]) <= weight_key(INFINITY_BITS),
            forall|x: int, j: int|
                0 <= x < u && 0 <= j < g.out(x).len() && is_number(g.out(x)[j].1) ==> weight_key(
                    a@[(#[trigger] g.out(x)[j]).0 as int],
                ) <= weight_key(g.out(x)[j].1),
            forall|v: int|
                0 <= v < n ==> #[trigger] a@[v] == INFINITY_BITS || exists|x: int, j: int|
                    0 <= x < n && 0 <= j < g.out(x).len() && g.out(x)[j].0 == v && g.out(x)[j].1
                        == a@[v] && is_number(a@[v]),
        decreases n - u,
    {
        let list = &g.adj[u];
        let mut j: usize = 0;
        while j < list.len()
            invariant
                n == g.n,
                g.wf(),
                g.heads_in_range(),
                u < n,
                list@ == g.out(u as int),
                j <= list@.len(),
                a@.len() == n,
                forall|v: int| 0 <= v < n ==> weight_key(#[trigger] a@[v]) <= weight_key(INFINITY_BITS),
                forall|x: int, i: int|
                    0 <= x < u && 0 <= i < g.out(x).len() && is_number(g.out(x)[i].1) ==> weight_key(
                        a@[(#[trigger] g.out(x)[i]).0 as int],
                    ) <= weight_key(g.out(x)[i].1),
                forall|i: int|
                    0 <= i < j && is_number(list@[i].1) ==> weight_key(a@[(#[trigger] list@[i]).0 as int])
                        <= weight_key(list@[i].1),
                forall|v: int|
                    0 <= v < n ==> #[trigger] a@[v] == INFINITY_BITS || exists|x: int, i: int|
                        0 <= x < n && 0 <= i < g.out(x).len() && g.out(x)[i].0 == v
                            && g.out(x)[i].1 == a@[v] && is_number(a@[v]),
            decreases list@.len() - j,
        {
            let (v, w) = list[j];
            proof {
                assert(g.out(u as int)[j as int] == list@[j as int]);
                assert(v < n);
            }
            if number_bits(w) && total_key(w) < total_key(a[v]) {
                let ghost prev = a@;
                a.set(v, w);
                proof {
                    assert forall|y: int| 0 <= y < n implies #[trigger] a@[y] == INFINITY_BITS
                        || exists|x: int, i: int|
                        0 <= x < n && 0 <= i < g.out(x).len() && g.out(x)[i].0 == y
                            && g.out(x)[i].1 == a@[y] && is_number(a@[y]) by {
                        if y == v {
                            assert(g.out(u as int)[j as int].0 == y);
                        } else {
                            assert(a@[y] == prev[y]);
                        }
                    }
                }
            }
            j = j + 1;
        }
        proof {
            assert forall|x: int, i: int|
                0 <= x < u + 1 && 0 <= i < g.out(x).len() && is_number(g.out(x)[i].1) implies weight_key(
                a@[(#[trigger] g.out(x)[i]).0 as int],
            ) <= weight_key(g.out(x)[i].1) by {
                if x == u {
                    assert(g.out(x)[i] == list@[i]);
                }
            }
        }
        u = u + 1;
    }
    a
}

/// One FNV-1a step over a 64-bit word.
pub open spec fn fnv_step(h: u64, x: u64) -> u64 {
    vstd::wrapping::u64_specs::wrapping_mul(h ^ x, 0x100000001b3u64)
}

/// FNV-1a digest of the first `k` arcs of `l` (each `(u, j, head)`), each
/// contributing its tail, its head and its weight's bit pattern.
pub open spec fn fnv_arcs(adj: Seq<Vec<(usize, u64)>>, l: Seq<(usize, usize, usize)>, k: int) -> u64
    decreases k,
{
    if k <= 0 {
        0xcbf29ce484222325u64
    } else {
        let e = l[k - 1];
        fnv_step(
            fnv_step(fnv_step(fnv_arcs(adj, l, k - 1), e.0 as u64), e.2 as u64),
            adj[e.0 as int]@[e.1 as int].1,
        )
    }
}

proof fn lemma_fnv_prefix(
    adj: Seq<Vec<(usize, u64)>>,
    a: Seq<(usize, usize, usize)>,
    b: Seq<(usize, usize, usize)>,
    k: int,
)
    requires
        0 <= k <= a.len(),
        k <= b.len(),
        forall|i: int| 0 <= i < k ==> a[i] == b[i],
    ensures
        fnv_arcs(adj, b, k) == fnv_arcs(adj, a, k),
    decreases k,
{
    if k > 0 {
        lemma_fnv_prefix(adj, a, b, k - 1);
    }
}

/// FNV-1a fingerprint of a graph: every arc in storage order contributes
/// its tail, its head and the bit pattern of its weight.
pub fn fingerprint(g: &Graph) -> (h: u64)
    requires
        g.wf(),
    ensures
        h == fnv_arcs(g.adj@, crate::mask::arc_list(g.adj@, g.n as int), g.m as int),
{
    let n = g.n;
    let mut h: u64 = 0xcbf29ce484222325;
    let mut u: usize = 0;
    while u < n
        invariant
            n == g.n,
            g.wf(),
            u <= n,
            h == fnv_arcs(g.adj@, crate::mask::arc_list(g.adj@, u as int), crate::mask::arc_list(g.adj@, u as int).len() as int),
        decreases n - u,
    {
        let row = &g.adj[u];
        let ghost base = crate::mask::arc_list(g.adj@, u as int);
        let ghost full = crate::mask::arc_list(g.adj@, u + 1);
        proof {
            assert(full == base + Seq::new(row@.len(), |j: int| (u, j as usize, row@[j].0)));
            lemma_fnv_prefix(g.adj@, base, full, base.len() as int);
        }
        let mut j: usize = 0;
        while j < row.len()
            invariant
                n == g.n,
                g.wf(),
                u < n,
                row@ == g.adj@[u as int]@,
                full == base + Seq::new(row@.len(), |i: int| (u, i as usize, row@[i].0)),
                j <= row@.len(),
                h == fnv_arcs(g.adj@, full, base.len() + j),
            decreases row@.len() - j,
        {
            let (v, w) = row[j];
            proof {
                assert(full[base.len() + j] == (u, j, v));
            }
            h = (h ^ (u as u64)).wrapping_mul(0x100000001b3);
            h = (h ^ (v as u64)).wrapping_mul(0x100000001b3);
            h = (h ^ w).wrapping_mul(0x100000001b3);
            j = j + 1;
        }
        u = u + 1;
    }
    proof {
        crate::mask::lemma_arc_list(g.adj@, n as int);
        assert(g.adj@.subrange(0, n as int) == g.adj@);
    }
    h
}

/// `d` divides `n`.
pub open spec fn divides(d: int, n: int) -> bool {
    n % d == 0
}

/// Rows of the paper's grid on `n` vertices: the largest divisor of `n`
/// whose square is at most `n`.
pub fn grid_rows(n: usize) -> (rows: usize)
    requires
        n >= 1,
    ensures
        1 <= rows,
        rows * rows <= n,
        n % rows == 0,
        forall|r: int| rows < r && r * r <= n ==> !#[trigger] divides(r, n as int),
{
    let mut rows: usize = 1;
    let mut r: usize = 1;
    while r <= n / r
        invariant
            n >= 1,
            1 <= rows < r + 1,
            1 <= r,
            rows * rows <= n,
            n % rows == 0,
            (r - 1) * (r - 1) <= n,
            forall|q: int| rows < q < r && q * q <= n ==> !#[trigger] divides(q, n as int),
        decreases n + 1 - r,
    {
        assert(r * r <= n) by (nonlinear_arith)
            requires
                r <= n / r,
                1 <= r,
        ;
        assert(r <= n && r < usize::MAX) by (nonlinear_arith)
            requires
                r * r <= n,
                n <= usize::MAX,
                1 <= r,
        ;
        if n % r == 0 {
            rows = r;
        }
        r = r + 1;
    }
    assert forall|q: int| rows < q && q * q <= n implies !#[trigger] divides(q, n as int) by {
        if q >= r {
            assert(r * r > n) by (nonlinear_arith)
                requires
                    r > n / r,
                    1 <= r,
            ;
            assert(q * q >= r * r) by (nonlinear_arith)
                requires
                    q >= r,
                    r >= 1,
            ;
        }
    }
    rows
}

} // verus!
