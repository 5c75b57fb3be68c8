//! The undirected support of a digraph: for every vertex, the sorted set of
//! vertices joined to it by an arc in either direction.
use crate::graph::Graph;
use crate::sort::{merge_sort, sorted_by, SortKey};
use vstd::prelude::*;

verus! {

broadcast use {vstd::seq_lib::to_multiset_contains, vstd::multiset::group_multiset_axioms};

impl SortKey for usize {
    open spec fn key_le(self, other: Self) -> bool {
        self <= other
    }

    fn le(&self, other: &Self) -> (r: bool) {
        *self <= *other
    }

    proof fn lemma_total(a: Self, b: Self) {
    }

    proof fn lemma_trans(a: Self, b: Self, c: Self) {
    }
}

impl SortKey for (u64, usize) {
    open spec fn key_le(self, other: Self) -> bool {
        self.0 < other.0 || (self.0 == other.0 && self.1 <= other.1)
    }

    fn le(&self, other: &Self) -> (r: bool) {
        self.0 < other.0 || (self.0 == other.0 && self.1 <= other.1)
    }

    proof fn lemma_total(a: Self, b: Self) {
    }

    proof fn lemma_trans(a: Self, b: Self, c: Self) {
    }
}

/// Each element is smaller than every later one.
pub open spec fn strictly_increasing(s: Seq<usize>) -> bool {
    forall|i: int, j: int| 0 <= i < j < s.len() ==> s[i] < s[j]
}

/// Some arc joins `u` and `v`, in either direction.
pub open spec fn linked(adj: Seq<Vec<(usize, u64)>>, u: int, v: int) -> bool {
    (exists|j: int| 0 <= j < adj[u]@.len() && adj[u]@[j].0 == v) || (exists|j: int|
        0 <= j < adj[v]@.len() && adj[v]@[j].0 == u)
}

/// Arc `i` of `a` comes before position `(u, j)` in storage order.
pub open spec fn arc_before(a: int, i: int, u: int, j: int) -> bool {
    a < u || (a == u && i < j)
}

/// An arc stored before position `(u, j)` joins `x` and `y`.
pub open spec fn linked_before(adj: Seq<Vec<(usize, u64)>>, x: int, y: int, u: int, j: int) -> bool {
    exists|a: int, i: int|
        0 <= a < adj.len() && 0 <= i < adj[a]@.len() && arc_before(a, i, u, j) && ((a == x
            && adj[a]@[i].0 == y) || (a == y && adj[a]@[i].0 == x))
}

/// Removes repeats from a sorted vector.
pub fn dedup_sorted(v: &Vec<usize>) -> (r: Vec<usize>)
    requires
        sorted_by(v@),
    ensures
        strictly_increasing(r@),
        forall|x: usize| r@.contains(x) <==> v@.contains(x),
{
    let mut r: Vec<usize> = Vec::new();
    let mut k: usize = 0;
    while k < v.len()
        invariant
            sorted_by(v@),
            k <= v@.len(),
            strictly_increasing(r@),
            forall|x: usize| r@.contains(x) <==> v@.subrange(0, k as int).contains(x),
            k > 0 ==> r@.len() > 0 && r@.last() == v@[k - 1],
            r@.len() <= k,
        decreases v@.len() - k,
    {
        let x = v[k];
        let ghost r0 = r@;
        let pushed = r.len() == 0 || r[r.len() - 1] != x;
        if pushed {
            r.push(x);
            proof {
                if r0.len() > 0 {
                    assert(r0.last() == v@[k - 1]);
                    assert(v@[k - 1].key_le(v@[k as int]));
                    assert(r0.last() < x);
                }
                assert forall|i: int, j: int| 0 <= i < j < r@.len() implies r@[i] < r@[j] by {
                    if j == r@.len() - 1 {
                        if i < r0.len() - 1 {
                            assert(r0[i] < r0[r0.len() - 1]);
                        }
                    } else {
                        assert(r@[i] == r0[i] && r@[j] == r0[j]);
                    }
                }
            }
        }
        proof {
            let pre = v@.subrange(0, k as int);
            let post = v@.subrange(0, k + 1);
            assert(post == pre.push(x));
            assert(post[k as int] == x);
            assert forall|y: usize| r@.contains(y) <==> post.contains(y) by {
                if y == x {
                    if pushed {
                        assert(r@[r0.len() as int] == x);
                    } else {
                        assert(r@[r@.len() - 1] == x);
                    }
                } else {
                    if r@.contains(y) {
                        let p = choose|p: int| 0 <= p < r@.len() && r@[p] == y;
                        assert(r0[p] == y);
                        assert(r0.contains(y));
                        let q = choose|q: int| 0 <= q < pre.len() && pre[q] == y;
                        assert(post[q] == y);
                    }
                    if post.contains(y) {
                        let p = choose|p: int| 0 <= p < post.len() && post[p] == y;
                        assert(pre[p] == y);
                        assert(pre.contains(y));
                        assert(r0.contains(y));
                        let q = choose|q: int| 0 <= q < r0.len() && r0[q] == y;
                        assert(r@[q] == y);
                    }
                }
            }
        }
        k = k + 1;
    }
    proof {
        assert(v@.subrange(0, k as int) == v@);
    }
    r
}

/// For every vertex, the strictly increasing list of vertices joined to it
/// by an arc in either direction (a self-loop joins a vertex to itself).
pub fn undirected_support(g: &Graph) -> (und: Vec<Vec<usize>>)
    requires
        g.wf(),
        g.heads_in_range(),
    ensures
        und@.len() == g.n,
        forall|u: int| 0 <= u < g.n ==> strictly_increasing(#[trigger] und@[u]@),
        forall|u: int, v: int|
            0 <= u < g.n ==> ((#[trigger] und@[u]@.contains(v as usize) && 0 <= v <= usize::MAX)
                <==> (0 <= v < g.n && linked(g.adj@, u, v))),
{
    let n = g.n;
    let mut und: Vec<Vec<usize>> = Vec::new();
    let mut k: usize = 0;
    while k < n
        invariant
            k <= n,
            und@.len() == k,
            forall|x: int| 0 <= x < k ==> (#[trigger] und@[x])@.len() == 0,
        decreases n - k,
    {
        und.push(Vec::new());
        k = k + 1;
    }
    let mut u: usize = 0;
    while u < n
        invariant
            n == g.n,
            g.wf(),
            g.heads_in_range(),
            u <= n,
            und@.len() == n,
            forall|x: int, y: usize|
                0 <= x < n ==> (#[trigger] und@[x]@.contains(y) <==> linked_before(
                    g.adj@,
                    x,
                    y as int,
                    u as int,
                    0,
                )),
        decreases n - u,
    {
        let row = &g.adj[u];
        let mut j: usize = 0;
        while j < row.len()
            invariant
                n == g.n,
                g.wf(),
                g.heads_in_range(),
                u < n,
                row@ == g.adj@[u as int]@,
                j <= row@.len(),
                und@.len() == n,
                forall|x: int, y: usize|
                    0 <= x < n ==> (#[trigger] und@[x]@.contains(y) <==> linked_before(
                        g.adj@,
                        x,
                        y as int,
                        u as int,
                        j as int,
                    )),
            decreases row@.len() - j,
        {
            let v = row[j].0;
            proof {
                assert(g.adj@[u as int]@[j as int] == row@[j as int]);
                assert(v < n);
            }
            let ghost und0 = und@;
            let mut a: Vec<usize> = Vec::new();
            std::mem::swap(&mut und[u], &mut a);
            a.push(v);
            und[u] = a;
            let ghost und1 = und@;
            let mut b: Vec<usize> = Vec::new();
            std::mem::swap(&mut und[v], &mut b);
            b.push(u);
            und[v] = b;
            proof {
                assert forall|x: int, y: usize| 0 <= x < n implies (#[trigger] und@[x]@.contains(y)
                    <==> linked_before(g.adj@, x, y as int, u as int, j + 1)) by {
                    let nx = und@[x]@;
                    let ox = und0[x]@;
                    // what changed: u gained v, v gained u
                    assert(forall|z: usize| #[trigger] nx.contains(z) <==> (ox.contains(z) || (x
                        == u && z == v) || (x == v && z == u))) by {
                        if x == u && x == v {
                            assert(und1[x]@ == ox.push(v));
                            assert(nx == und1[x]@.push(u));
                        } else if x == u {
                            assert(nx == ox.push(v));
                        } else if x == v {
                            assert(und1[x] == und0[x]);
                            assert(nx == ox.push(u));
                        } else {
                            assert(nx == ox);
                        }
                        assert forall|z: usize| #[trigger] nx.contains(z) <==> (ox.contains(z) || (x
                            == u && z == v) || (x == v && z == u)) by {
                            if x == u && x == v {
                                if z == v {
                                    assert(nx[ox.len() as int] == v);
                                }
                                if ox.contains(z) {
                                    let p = choose|p: int| 0 <= p < ox.len() && ox[p] == z;
                                    assert(nx[p] == z);
                                }
                            } else if x == u {
                                if z == v {
                                    assert(nx[ox.len() as int] == v);
                                }
                                if ox.contains(z) {
                                    let p = choose|p: int| 0 <= p < ox.len() && ox[p] == z;
                                    assert(nx[p] == z);
                                }
                            } else if x == v {
                                if z == u {
                                    assert(nx[ox.len() as int] == u);
                                }
                                if ox.contains(z) {
                                    let p = choose|p: int| 0 <= p < ox.len() && ox[p] == z;
                                    assert(nx[p] == z);
                                }
                            }
                        }
                    }
                    if linked_before(g.adj@, x, y as int, u as int, j + 1) && !linked_before(
                        g.adj@,
                        x,
                        y as int,
                        u as int,
                        j as int,
                    ) {
                        let (aa, ii) = choose|aa: int, ii: int|
                            0 <= aa < g.adj@.len() && 0 <= ii < g.adj@[aa]@.len() && arc_before(
                                aa,
                                ii,
                                u as int,
                                j + 1,
                            ) && ((aa == x && g.adj@[aa]@[ii].0 == y) || (aa == y
                                && g.adj@[aa]@[ii].0 == x));
                        if arc_before(aa, ii, u as int, j as int) {
                            assert(linked_before(g.adj@, x, y as int, u as int, j as int));
                        }
                        assert(aa == u && ii == j);
                    }
                    if (x == u && y == v) || (x == v && y == u) {
                        assert(arc_before(u as int, j as int, u as int, j + 1));
                        assert(g.adj@[u as int]@[j as int].0 == v);
                    }
                    if linked_before(g.adj@, x, y as int, u as int, j as int) {
                        let (aa, ii) = choose|aa: int, ii: int|
                            0 <= aa < g.adj@.len() && 0 <= ii < g.adj@[aa]@.len() && arc_before(
                                aa,
                                ii,
                                u as int,
                                j as int,
                            ) && ((aa == x && g.adj@[aa]@[ii].0 == y) || (aa == y
                                && g.adj@[aa]@[ii].0 == x));
                        assert(arc_before(aa, ii, u as int, j + 1));
                    }
                }
            }
            j = j + 1;
        }
        proof {
            assert forall|x: int, y: usize| 0 <= x < n implies (#[trigger] und@[x]@.contains(y)
                <==> linked_before(g.adj@, x, y as int, u + 1, 0)) by {
                if linked_before(g.adj@, x, y as int, u + 1, 0) {
                    let (aa, ii) = choose|aa: int, ii: int|
                        0 <= aa < g.adj@.len() && 0 <= ii < g.adj@[aa]@.len() && arc_before(
                            aa,
                            ii,
                            u + 1,
                            0,
                        ) && ((aa == x && g.adj@[aa]@[ii].0 == y) || (aa == y && g.adj@[aa]@[ii].0
                            == x));
                    assert(arc_before(aa, ii, u as int, j as int));
                }
                if linked_before(g.adj@, x, y as int, u as int, j as int) {
                    let (aa, ii) = choose|aa: int, ii: int|
                        0 <= aa < g.adj@.len() && 0 <= ii < g.adj@[aa]@.len() && arc_before(
                            aa,
                            ii,
                            u as int,
                            j as int,
                        ) && ((aa == x && g.adj@[aa]@[ii].0 == y) || (aa == y && g.adj@[aa]@[ii].0
                            == x));
                    assert(arc_before(aa, ii, u + 1, 0));
                }
            }
        }
        u = u + 1;
    }
    let mut out: Vec<Vec<usize>> = Vec::new();
    let mut x: usize = 0;
    while x < n
        invariant
            n == g.n,
            g.wf(),
            g.heads_in_range(),
            x <= n,
            und@.len() == n,
            out@.len() == x,
            forall|p: int, y: usize|
                0 <= p < n ==> (#[trigger] und@[p]@.contains(y) <==> linked_before(
                    g.adj@,
                    p,
                    y as int,
                    n as int,
                    0,
                )),
            forall|p: int| 0 <= p < x ==> strictly_increasing(#[trigger] out@[p]@),
            forall|p: int, y: usize|
                0 <= p < x ==> (#[trigger] out@[p]@.contains(y) <==> und@[p]@.contains(y)),
        decreases n - x,
    {
        let sorted = merge_sort(&und[x]);
        let d = dedup_sorted(&sorted);
        proof {
            assert forall|y: usize| d@.contains(y) <==> und@[x as int]@.contains(y) by {
                assert(sorted@.contains(y) <==> sorted@.to_multiset().count(y) > 0);
                assert(und@[x as int]@.contains(y) <==> und@[x as int]@.to_multiset().count(y) > 0);
            }
        }
        out.push(d);
        x = x + 1;
    }
    proof {
        assert forall|p: int, v: int| 0 <= p < n implies ((#[trigger] out@[p]@.contains(v as usize)
            && 0 <= v <= usize::MAX) <==> (0 <= v < n && linked(g.adj@, p, v))) by {
            if 0 <= v <= usize::MAX && out@[p]@.contains(v as usize) {
                assert(linked_before(g.adj@, p, v, n as int, 0));
                let (aa, ii) = choose|aa: int, ii: int|
                    0 <= aa < g.adj@.len() && 0 <= ii < g.adj@[aa]@.len() && arc_before(
                        aa,
                        ii,
                        n as int,
                        0,
                    ) && ((aa == p && g.adj@[aa]@[ii].0 == v) || (aa == v && g.adj@[aa]@[ii].0
                        == p));
                assert(g.adj@[aa]@[ii].0 < n);
            }
            if 0 <= v < n && linked(g.adj@, p, v) {
                if exists|j: int| 0 <= j < g.adj@[p]@.len() && g.adj@[p]@[j].0 == v {
                    let j = choose|j: int| 0 <= j < g.adj@[p]@.len() && g.adj@[p]@[j].0 == v;
                    assert(arc_before(p, j, n as int, 0));
                } else {
                    let j = choose|j: int| 0 <= j < g.adj@[v]@.len() && g.adj@[v]@[j].0 == p;
                    assert(arc_before(v, j, n as int, 0));
                }
                assert(linked_before(g.adj@, p, v, n as int, 0));
            }
        }
    }
    out
}

/// Weights of the arcs leaving the first `k` vertices of `tails`, list by
/// list in storage order.
pub open spec fn weights_of(adj: Seq<Vec<(usize, u64)>>, tails: Seq<usize>, k: int) -> Seq<u64>
    decreases k,
{
    if k <= 0 {
        Seq::empty()
    } else {
        weights_of(adj, tails, k - 1) + adj[tails[k - 1] as int]@.map_values(|a: (usize, u64)| a.1)
    }
}

/// `x` is `u` or a head of an arc leaving `u`.
pub open spec fn in_closed_nbhd(adj: Seq<Vec<(usize, u64)>>, u: int, x: usize) -> bool {
    x == u || exists|j: int| 0 <= j < adj[u]@.len() && adj[u]@[j].0 == x
}

/// Weights of the arcs leaving `u` and its out-neighbours, each such vertex
/// once and in increasing order: the two-hop weight sample of `u`.
pub fn two_hop_weights(g: &Graph, u: usize) -> (r: Vec<u64>)
    requires
        g.wf(),
        g.heads_in_range(),
        u < g.n,
    ensures
        exists|tails: Seq<usize>|
            {
                &&& strictly_increasing(tails)
                &&& forall|x: usize| #[trigger] tails.contains(x) <==> in_closed_nbhd(g.adj@, u as int, x)
                &&& r@ == weights_of(g.adj@, tails, tails.len() as int)
            },
{
    let row = &g.adj[u];
    let mut heads: Vec<usize> = Vec::new();
    heads.push(u);
    let mut j: usize = 0;
    while j < row.len()
        invariant
            row@ == g.adj@[u as int]@,
            j <= row@.len(),
            heads@.len() == j + 1,
            heads@[0] == u,
            forall|i: int| 0 <= i < j ==> #[trigger] heads@[i + 1] == row@[i].0,
        decreases row@.len() - j,
    {
        heads.push(row[j].0);
        j = j + 1;
    }
    let sorted = merge_sort(&heads);
    let tails = dedup_sorted(&sorted);
    proof {
        assert forall|x: usize| #[trigger] tails@.contains(x) <==> in_closed_nbhd(g.adj@, u as int, x) by {
            assert(tails@.contains(x) <==> sorted@.contains(x));
            assert(sorted@.contains(x) <==> sorted@.to_multiset().count(x) > 0);
            assert(heads@.contains(x) <==> heads@.to_multiset().count(x) > 0);
            if heads@.contains(x) {
                let i = choose|i: int| 0 <= i < heads@.len() && heads@[i] == x;
                if i > 0 {
                    assert(heads@[(i - 1) + 1] == row@[i - 1].0);
                }
            }
            if in_closed_nbhd(g.adj@, u as int, x) {
                if x != u {
                    let i = choose|i: int| 0 <= i < g.adj@[u as int]@.len() && g.adj@[u as int]@[i].0 == x;
                    assert(heads@[i + 1] == x);
                } else {
                    assert(heads@[0] == x);
                }
            }
        }
    }
    proof {
        assert forall|i: int| 0 <= i < tails@.len() implies (#[trigger] tails@[i]) < g.n by {
            let x = tails@[i];
            assert(tails@.contains(x));
            assert(in_closed_nbhd(g.adj@, u as int, x));
            if x != u {
                let q = choose|q: int| 0 <= q < g.adj@[u as int]@.len() && g.adj@[u as int]@[q].0 == x;
                assert(g.adj@[u as int]@[q].0 < g.n);
            }
        }
    }
    let mut r: Vec<u64> = Vec::new();
    let mut k: usize = 0;
    while k < tails.len()
        invariant
            g.wf(),
            g.heads_in_range(),
            k <= tails@.len(),
            forall|i: int| 0 <= i < tails@.len() ==> (#[trigger] tails@[i]) < g.n,
            r@ == weights_of(g.adj@, tails@, k as int),
        decreases tails@.len() - k,
    {
        let t = tails[k];
        let out = &g.adj[t];
        let ghost base = r@;
        let mut i: usize = 0;
        while i < out.len()
            invariant
                out@ == g.adj@[t as int]@,
                i <= out@.len(),
                r@ == base + out@.subrange(0, i as int).map_values(|a: (usize, u64)| a.1),
            decreases out@.len() - i,
        {
            r.push(out[i].1);
            proof {
                assert(out@.subrange(0, i + 1).map_values(|a: (usize, u64)| a.1) == out@.subrange(
                    0,
                    i as int,
                ).map_values(|a: (usize, u64)| a.1).push(out@[i as int].1));
            }
            i = i + 1;
        }
        proof {
            assert(out@.subrange(0, i as int) == out@);
        }
        k = k + 1;
    }
    r
}

} // verus!
