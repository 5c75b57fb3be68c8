//! Vertex relabelings: applying an ordering to a graph, and the BFS / RCM
//! orderings of its undirected support.
use crate::graph::{finish, Graph};
use crate::mask::{lemma_count_update, lemma_row_bounds, row_count};
use crate::sort::{merge_sort, sorted_by, SortKey};
use crate::support::{linked, strictly_increasing, undirected_support};
use std::collections::VecDeque;
use vstd::prelude::*;

verus! {

broadcast use {vstd::seq_lib::to_multiset_contains, vstd::multiset::group_multiset_axioms};

/// Position of the last occurrence of `v` among the first `k` entries of
/// `order`, or 0 when it does not occur.
pub open spec fn last_pos(order: Seq<usize>, v: int, k: int) -> int
    decreases k,
{
    if k <= 0 {
        0
    } else if order[k - 1] == v {
        k - 1
    } else {
        last_pos(order, v, k - 1)
    }
}

/// An adjacency list with every head renamed through `map`.
pub open spec fn relabel(row: Seq<(usize, u64)>, map: Seq<usize>) -> Seq<(usize, u64)> {
    row.map_values(|a: (usize, u64)| (map[a.0 as int], a.1))
}

/// Arcs that land in the list of label `x`: the renamed lists of the first
/// `k` vertices whose label is `x`, in vertex order.
pub open spec fn label_seq(adj: Seq<Vec<(usize, u64)>>, map: Seq<usize>, x: int, k: int) -> Seq<
    (usize, u64),
>
    decreases k,
{
    if k <= 0 {
        Seq::empty()
    } else {
        label_seq(adj, map, x, k - 1) + if map[k - 1] == x {
            relabel(adj[k - 1]@, map)
        } else {
            Seq::empty()
        }
    }
}

/// `order` lists each of the vertices `0..n` exactly once.
pub open spec fn is_permutation(order: Seq<usize>, n: int) -> bool {
    &&& order.len() == n
    &&& order.no_duplicates()
    &&& forall|i: int| 0 <= i < order.len() ==> #[trigger] order[i] < n
}

proof fn lemma_last_pos(order: Seq<usize>, v: int, k: int)
    requires
        0 <= k <= order.len(),
    ensures
        0 <= last_pos(order, v, k) < k || last_pos(order, v, k) == 0,
        (exists|i: int| 0 <= i < k && order[i] == v) ==> order[last_pos(order, v, k)] == v,
        forall|i: int| 0 <= i < k && order[i] == v ==> i <= last_pos(order, v, k),
    decreases k,
{
    if k > 0 {
        lemma_last_pos(order, v, k - 1);
    }
}

proof fn lemma_label_single(adj: Seq<Vec<(usize, u64)>>, map: Seq<usize>, x: int, k: int, w: int)
    requires
        0 <= w < k,
        map[w] == x,
        forall|y: int| 0 <= y < k && y != w ==> map[y] != x,
    ensures
        label_seq(adj, map, x, k) == relabel(adj[w]@, map),
    decreases k,
{
    if k - 1 > w {
        lemma_label_single(adj, map, x, k - 1, w);
    } else {
        lemma_label_none(adj, map, x, w);
    }
}

proof fn lemma_label_none(adj: Seq<Vec<(usize, u64)>>, map: Seq<usize>, x: int, k: int)
    requires
        0 <= k,
        forall|y: int| 0 <= y < k ==> map[y] != x,
    ensures
        label_seq(adj, map, x, k) == Seq::<(usize, u64)>::empty(),
    decreases k,
{
    if k > 0 {
        lemma_label_none(adj, map, x, k - 1);
    }
}

/// Every tail and head of an arc gets a name below `n` from `order`: the
/// renamed graph has room for it.
pub open spec fn endpoints_named(adj: Seq<Vec<(usize, u64)>>, order: Seq<usize>, n: int) -> bool {
    &&& forall|u: int|
        0 <= u < adj.len() && (#[trigger] adj[u])@.len() > 0 ==> last_pos(order, u, order.len() as int) < n
    &&& forall|u: int, j: int|
        0 <= u < adj.len() && 0 <= j < adj[u]@.len() ==> last_pos(
            order,
            (#[trigger] adj[u]@[j]).0 as int,
            order.len() as int,
        ) < n
}

/// Every tail and head of an arc has its new name below `n` in `map`.
spec fn endpoints_in_range(adj: Seq<Vec<(usize, u64)>>, map: Seq<usize>, n: usize) -> bool {
    &&& forall|u: int| 0 <= u < adj.len() && (#[trigger] adj[u])@.len() > 0 ==> map[u] < n
    &&& forall|u: int, j: int|
        0 <= u < adj.len() && 0 <= j < adj[u]@.len() ==> map[(#[trigger] adj[u]@[j]).0 as int] < n
}

/// Renames vertex `order[i]` to `i` (later positions win; unlisted vertices
/// get 0), rebuilds the arcs under the new names in vertex order and sorts
/// each list. Returns the new graph and the renaming.
pub fn permute(g: &Graph, order: &Vec<usize>) -> (r: (Graph, Vec<usize>))
    requires
        g.wf(),
        g.heads_in_range(),
        forall|i: int| 0 <= i < order@.len() ==> #[trigger] order@[i] < g.n,
        endpoints_named(g.adj@, order@, g.n as int),
    ensures
        r.1@.len() == g.n,
        forall|v: int| 0 <= v < g.n ==> #[trigger] r.1@[v] == last_pos(order@, v, order@.len() as int),
        r.0.wf(),
        r.0.heads_in_range(),
        r.0.n == g.n,
        r.0.m == g.m,
        forall|x: int|
            0 <= x < g.n ==> sorted_by(#[trigger] r.0.out(x)) && r.0.out(x).to_multiset() == label_seq(
                g.adj@,
                r.1@,
                x,
                g.n as int,
            ).to_multiset(),
{
    let n = g.n;
    let mut map: Vec<usize> = Vec::new();
    let mut k: usize = 0;
    while k < n
        invariant
            k <= n,
            map@.len() == k,
            forall|v: int| 0 <= v < k ==> map@[v] == 0,
        decreases n - k,
    {
        map.push(0);
        k = k + 1;
    }
    let mut i: usize = 0;
    while i < order.len()
        invariant
            n == g.n,
            forall|q: int| 0 <= q < order@.len() ==> #[trigger] order@[q] < n,
            i <= order@.len(),
            map@.len() == n,
            forall|v: int| 0 <= v < n ==> #[trigger] map@[v] == last_pos(order@, v, i as int),
        decreases order@.len() - i,
    {
        let u = order[i];
        map.set(u, i);
        i = i + 1;
    }
    proof {
        assert forall|u: int| 0 <= u < g.adj@.len() && (#[trigger] g.adj@[u])@.len() > 0 implies map@[u] < n by {
            assert(map@[u] == last_pos(order@, u, order@.len() as int));
        }
        assert forall|u: int, j: int|
            0 <= u < g.adj@.len() && 0 <= j < g.adj@[u]@.len() implies map@[(#[trigger] g.adj@[u]@[j]).0 as int] < n by {
            let v = g.adj@[u]@[j].0 as int;
            assert(0 <= v < n);
            assert(map@[v] == last_pos(order@, v, order@.len() as int));
        }
        assert(endpoints_in_range(g.adj@, map@, n));
    }
    let mut h = Graph::new(n);
    let mut u: usize = 0;
    while u < n
        invariant
            n == g.n,
            g.wf(),
            g.heads_in_range(),
            u <= n,
            map@.len() == n,
            endpoints_in_range(g.adj@, map@, n),
            h.wf(),
            h.heads_in_range(),
            h.n == n,
            h.m == crate::graph::arc_total(g.adj@.subrange(0, u as int)),
            forall|x: int| 0 <= x < n ==> #[trigger] h.out(x) == label_seq(g.adj@, map@, x, u as int),
        decreases n - u,
    {
        let row = &g.adj[u];
        let mu = map[u];
        let mut j: usize = 0;
        proof {
            crate::mask::lemma_arc_prefix(g.adj@, u as int);
        }
        while j < row.len()
            invariant
                n == g.n,
                g.wf(),
                g.heads_in_range(),
                u < n,
                row@ == g.adj@[u as int]@,
                mu == map@[u as int],
                j <= row@.len(),
                map@.len() == n,
                endpoints_in_range(g.adj@, map@, n),
                h.wf(),
                h.heads_in_range(),
                h.n == n,
                h.m == crate::graph::arc_total(g.adj@.subrange(0, u as int)) + j,
                crate::graph::arc_total(g.adj@.subrange(0, u as int)) + row@.len() <= g.m,
                g.m == crate::graph::arc_total(g.adj@),
                forall|x: int|
                    0 <= x < n ==> #[trigger] h.out(x) == label_seq(g.adj@, map@, x, u as int) + if x
                        == mu {
                        relabel(row@, map@).subrange(0, j as int)
                    } else {
                        Seq::empty()
                    },
            decreases row@.len() - j,
        {
            let (v, w) = row[j];
            proof {
                assert(g.adj@[u as int]@[j as int] == row@[j as int]);
                assert(v < n);
                assert(g.adj@[u as int]@.len() > 0);
                assert(mu < n && map@[v as int] < n);
            }
            let mv = map[v];
            let ghost h0 = h;
            h.add_edge(mu, mv, w);
            proof {
                assert forall|x: int| 0 <= x < n implies #[trigger] h.out(x) == label_seq(
                    g.adj@,
                    map@,
                    x,
                    u as int,
                ) + if x == mu {
                    relabel(row@, map@).subrange(0, j + 1)
                } else {
                    Seq::empty()
                } by {
                    if x == mu {
                        assert(relabel(row@, map@).subrange(0, j + 1) == relabel(row@, map@).subrange(
                            0,
                            j as int,
                        ).push((mv, w)));
                    } else {
                        assert(h.adj@[x] == h0.adj@[x]);
                        assert(h0.out(x) == h.out(x));
                    }
                }
            }
            j = j + 1;
        }
        proof {
            assert forall|x: int| 0 <= x < n implies #[trigger] h.out(x) == label_seq(
                g.adj@,
                map@,
                x,
                u + 1,
            ) by {
                assert(relabel(row@, map@).subrange(0, j as int) == relabel(row@, map@));
            }
        }
        u = u + 1;
    }
    proof {
        assert(g.adj@.subrange(0, n as int) == g.adj@);
    }
    let ghost h1 = h;
    finish(&mut h);
    proof {
        assert forall|x: int| 0 <= x < n implies sorted_by(#[trigger] h.out(x))
            && h.out(x).to_multiset() == label_seq(g.adj@, map@, x, n as int).to_multiset() by {
            assert(h1.out(x) == label_seq(g.adj@, map@, x, n as int));
        }
    }
    (h, map)
}

/// Lists `vs` by increasing `(degrees[v], v)`.
fn sort_by_degree(vs: &Vec<usize>, degrees: &Vec<usize>) -> (r: Vec<usize>)
    requires
        forall|i: int| 0 <= i < vs@.len() ==> #[trigger] vs@[i] < degrees@.len(),
    ensures
        r@.len() == vs@.len(),
        forall|v: usize| r@.contains(v) <==> vs@.contains(v),
        forall|i: int, j: int|
            0 <= i < j < r@.len() ==> (degrees@[r@[i] as int] < degrees@[r@[j] as int] || (
            degrees@[r@[i] as int] == degrees@[r@[j] as int] && r@[i] <= r@[j])),
        vs@.no_duplicates() ==> r@.no_duplicates(),
{
    let mut pairs: Vec<(u64, usize)> = Vec::new();
    let mut k: usize = 0;
    while k < vs.len()
        invariant
            k <= vs@.len(),
            forall|i: int| 0 <= i < vs@.len() ==> #[trigger] vs@[i] < degrees@.len(),
            pairs@.len() == k,
            forall|i: int|
                0 <= i < k ==> #[trigger] pairs@[i] == (degrees@[vs@[i] as int] as u64, vs@[i]),
        decreases vs@.len() - k,
    {
        let v = vs[k];
        pairs.push((degrees[v] as u64, v));
        k = k + 1;
    }
    let sorted = merge_sort(&pairs);
    let mut r: Vec<usize> = Vec::new();
    let mut i: usize = 0;
    while i < sorted.len()
        invariant
            i <= sorted@.len(),
            r@.len() == i,
            forall|q: int| 0 <= q < i ==> #[trigger] r@[q] == sorted@[q].1,
        decreases sorted@.len() - i,
    {
        r.push(sorted[i].1);
        i = i + 1;
    }
    proof {
        vstd::seq_lib::to_multiset_len(sorted@);
        vstd::seq_lib::to_multiset_len(pairs@);
        assert forall|q: int| 0 <= q < sorted@.len() implies #[trigger] sorted@[q] == (
        degrees@[sorted@[q].1 as int] as u64, sorted@[q].1) by {
            assert(sorted@.to_multiset().count(sorted@[q]) > 0);
            assert(pairs@.contains(sorted@[q]));
        }
        assert forall|v: usize| r@.contains(v) <==> vs@.contains(v) by {
            if r@.contains(v) {
                let q = choose|q: int| 0 <= q < r@.len() && r@[q] == v;
                assert(sorted@.to_multiset().count(sorted@[q]) > 0);
                assert(pairs@.contains(sorted@[q]));
                let p = choose|p: int| 0 <= p < pairs@.len() && pairs@[p] == sorted@[q];
                assert(vs@[p] == v);
            }
            if vs@.contains(v) {
                let p = choose|p: int| 0 <= p < vs@.len() && vs@[p] == v;
                assert(pairs@[p] == (degrees@[v as int] as u64, v));
                assert(pairs@.to_multiset().count(pairs@[p]) > 0);
                assert(sorted@.contains(pairs@[p]));
                let q = choose|q: int| 0 <= q < sorted@.len() && sorted@[q] == pairs@[p];
                assert(r@[q] == v);
            }
        }
        assert forall|a: int, b: int| 0 <= a < b < r@.len() implies (degrees@[r@[a] as int]
            < degrees@[r@[b] as int] || (degrees@[r@[a] as int] == degrees@[r@[b] as int]
            && r@[a] <= r@[b])) by {
            assert(sorted@[a].key_le(sorted@[b]));
        }
        if vs@.no_duplicates() {
            assert(pairs@.no_duplicates()) by {
                assert forall|a: int, b: int| 0 <= a < pairs@.len() && 0 <= b < pairs@.len() && a != b implies pairs@[a]
                    != pairs@[b] by {
                    assert(pairs@[a].1 == vs@[a]);
                    assert(pairs@[b].1 == vs@[b]);
                }
            }
            pairs@.lemma_multiset_has_no_duplicates();
            assert forall|x: (u64, usize)| sorted@.to_multiset().contains(x) implies sorted@.to_multiset().count(x)
                == 1 by {
                assert(pairs@.to_multiset().count(x) == 1);
            }
            sorted@.lemma_multiset_has_no_duplicates_conv();
            assert forall|a: int, b: int| 0 <= a < r@.len() && 0 <= b < r@.len() && a != b implies r@[a] != r@[b] by {
                if r@[a] == r@[b] {
                    assert(sorted@[a] == sorted@[b]);
                }
            }
        }
    }
    r
}

/// The entries of `s` that are not in `seen`, each once, in order of first
/// appearance.
pub open spec fn fresh(s: Seq<usize>, seen: Seq<usize>) -> Seq<usize>
    decreases s.len(),
{
    if s.len() == 0 {
        Seq::empty()
    } else {
        let f = fresh(s.drop_last(), seen);
        if seen.contains(s.last()) || f.contains(s.last()) {
            f
        } else {
            f.push(s.last())
        }
    }
}

/// Breadth-first search over the lists `nbrs`: `o` holds the vertices
/// queued so far in queue order, the first `p` of them already expanded, and
/// `roots[ri..]` are the roots still to try. Expanding the next queued vertex
/// queues its unseen neighbours in list order; with the queue drained, the
/// next unseen root is queued. The result is the final queue order.
pub open spec fn bfs(nbrs: Seq<Seq<usize>>, roots: Seq<usize>, n: int, o: Seq<usize>, p: int, ri: int) -> Seq<
    usize,
>
    decreases n - o.len(), o.len() - p, roots.len() - ri,
{
    if o.len() > n || p < 0 || p > o.len() || ri < 0 || ri > roots.len() {
        o
    } else if p < o.len() {
        let o2 = o + fresh(nbrs[o[p] as int], o);
        if o2.len() > n {
            o2
        } else {
            bfs(nbrs, roots, n, o2, p + 1, ri)
        }
    } else if ri < roots.len() {
        if o.contains(roots[ri]) {
            bfs(nbrs, roots, n, o, p, ri + 1)
        } else if o.len() + 1 > n {
            o.push(roots[ri])
        } else {
            bfs(nbrs, roots, n, o.push(roots[ri]), p, ri + 1)
        }
    } else {
        o
    }
}

/// The contents of a list of vectors.
pub open spec fn lists(v: Seq<Vec<usize>>) -> Seq<Seq<usize>> {
    v.map_values(|x: Vec<usize>| x@)
}

/// Distinct vertices below `n` number at most `n`.
pub proof fn lemma_distinct_bound(s: Seq<usize>, n: int)
    requires
        0 <= n,
        s.no_duplicates(),
        forall|i: int| 0 <= i < s.len() ==> #[trigger] s[i] < n,
    ensures
        s.len() <= n,
{
    let t = s.to_set();
    s.unique_seq_to_set();
    let r = vstd::set_lib::set_int_range(0, n);
    let f = |x: int| x as usize;
    assert forall|x: usize| t.contains(x) implies r.map(f).contains(x) by {
        let i = choose|i: int| 0 <= i < s.len() && s[i] == x;
        assert(r.contains(x as int));
        assert(f(x as int) == x);
    }
    assert(t.subset_of(r.map(f)));
    vstd::set_lib::lemma_int_range(0, n);
    vstd::set_lib::lemma_map_size_bound(r, r.map(f), f);
    vstd::set_lib::lemma_len_subset(t, r.map(f));
}

/// Breadth-first order: roots are tried in the given order, each unseen one
/// starts a new search, and neighbours are queued in list order.
fn bfs_order(und: &Vec<Vec<usize>>, roots: &Vec<usize>, n: usize) -> (order: Vec<usize>)
    requires
        und@.len() == n,
        forall|u: int, i: int| 0 <= u < n && 0 <= i < und@[u]@.len() ==> #[trigger] und@[u]@[i] < n,
        forall|i: int| 0 <= i < roots@.len() ==> #[trigger] roots@[i] < n,
        forall|v: int| 0 <= v < n ==> #[trigger] roots@.contains(v as usize),
    ensures
        is_permutation(order@, n as int),
        order@ == bfs(lists(und@), roots@, n as int, Seq::empty(), 0, 0),
{
    let mut seen: Vec<bool> = Vec::new();
    let mut k: usize = 0;
    while k < n
        invariant
            k <= n,
            seen@.len() == k,
            forall|v: int| 0 <= v < k ==> !seen@[v],
        decreases n - k,
    {
        seen.push(false);
        k = k + 1;
    }
    proof {
        lemma_all_false(seen@, n as int);
    }
    let mut order: Vec<usize> = Vec::new();
    let mut q: VecDeque<usize> = VecDeque::new();
    let mut ri: usize = 0;
    let ghost nv = lists(und@);
    let ghost target = bfs(nv, roots@, n as int, Seq::empty(), 0, 0);
    proof {
        assert(order@ == Seq::<usize>::empty());
    }
    while ri < roots.len()
        invariant
            nv == lists(und@),
            bfs(nv, roots@, n as int, order@, order@.len() as int, ri as int) == target,
            und@.len() == n,
            forall|u: int, i: int| 0 <= u < n && 0 <= i < und@[u]@.len() ==> #[trigger] und@[u]@[i] < n,
            forall|i: int| 0 <= i < roots@.len() ==> #[trigger] roots@[i] < n,
            ri <= roots@.len(),
            seen@.len() == n,
            q@.len() == 0,
            forall|v: int| 0 <= v < n ==> (#[trigger] seen@[v] <==> order@.contains(v as usize)),
            forall|i: int| 0 <= i < order@.len() ==> #[trigger] order@[i] < n,
            order@.no_duplicates(),
            order@.len() == row_count(seen@, n as int),
            forall|i: int| 0 <= i < ri ==> seen@[#[trigger] roots@[i] as int],
        decreases roots@.len() - ri,
    {
        let root = roots[ri];
        let ghost o = order@;
        proof {
            lemma_distinct_bound(order@, n as int);
        }
        if !seen[root] {
            let ghost s0 = seen@;
            seen.set(root, true);
            proof {
                lemma_count_update(s0, root as int, n as int);
            }
            q.push_back(root);
            proof {
                assert(q@ == seq![root]);
                assert(!order@.contains(root));
                assert forall|v: int| 0 <= v < n implies (#[trigger] seen@[v] <==> (
                order@.contains(v as usize) || q@.contains(v as usize))) by {
                    if v == root as int {
                        assert(q@[0] == root);
                    }
                }
                assert((order@ + q@) == order@.push(root));
                assert(!o.contains(root));
                lemma_distinct_bound(order@ + q@, n as int);
                assert(bfs(nv, roots@, n as int, o, o.len() as int, ri as int) == bfs(
                    nv,
                    roots@,
                    n as int,
                    o.push(root),
                    o.len() as int,
                    ri + 1,
                ));
            }
            while q.len() > 0
                invariant
                    nv == lists(und@),
                    bfs(nv, roots@, n as int, order@ + q@, order@.len() as int, ri + 1) == target,
                    und@.len() == n,
                    forall|u: int, i: int|
                        0 <= u < n && 0 <= i < und@[u]@.len() ==> #[trigger] und@[u]@[i] < n,
                    seen@.len() == n,
                    forall|v: int|
                        0 <= v < n ==> (#[trigger] seen@[v] <==> (order@.contains(v as usize)
                            || q@.contains(v as usize))),
                    forall|i: int| 0 <= i < order@.len() ==> #[trigger] order@[i] < n,
                    forall|i: int| 0 <= i < q@.len() ==> #[trigger] q@[i] < n,
                    (order@ + q@).no_duplicates(),
                    order@.len() + q@.len() == row_count(seen@, n as int),
                    root < n,
                    ri < roots@.len(),
                    seen@[root as int],
                    forall|i: int| 0 <= i < roots@.len() ==> #[trigger] roots@[i] < n,
                    forall|i: int| 0 <= i < ri ==> seen@[#[trigger] roots@[i] as int],
                decreases n - order@.len(),
            {
                proof {
                    lemma_row_bounds(seen@, Seq::empty(), Seq::empty(), n as int);
                }
                let ghost o0 = order@;
                let ghost q0 = q@;
                let ghost oq = order@ + q@;
                let u = match q.pop_front() {
                    Some(u) => u,
                    None => {
                        proof {
                            assert(false);
                        }
                        0
                    },
                };
                order.push(u);
                proof {
                    assert(order@ + q@ == o0 + q0);
                    assert forall|v: int| 0 <= v < n implies (#[trigger] seen@[v] <==> (
                    order@.contains(v as usize) || q@.contains(v as usize))) by {
                        if o0.contains(v as usize) {
                            let i = choose|i: int| 0 <= i < o0.len() && o0[i] == v as usize;
                            assert(order@[i] == v as usize);
                        }
                        if q0.contains(v as usize) {
                            let i = choose|i: int| 0 <= i < q0.len() && q0[i] == v as usize;
                            if i == 0 {
                                assert(order@[o0.len() as int] == v as usize);
                            } else {
                                assert(q@[i - 1] == v as usize);
                            }
                        }
                        if order@.contains(v as usize) {
                            let i = choose|i: int| 0 <= i < order@.len() && order@[i] == v as usize;
                            if i < o0.len() {
                                assert(o0[i] == v as usize);
                            } else {
                                assert(q0[0] == v as usize);
                            }
                        }
                        if q@.contains(v as usize) {
                            let i = choose|i: int| 0 <= i < q@.len() && q@[i] == v as usize;
                            assert(q0[i + 1] == v as usize);
                        }
                    }
                }
                let nbrs = &und[u];
                let mut j: usize = 0;
                proof {
                    assert(oq[o0.len() as int] == u);
                    assert(nv[u as int] == nbrs@);
                    assert(nbrs@.subrange(0, 0) == Seq::<usize>::empty());
                    assert(oq + fresh(Seq::<usize>::empty(), oq) == oq);
                }
                while j < nbrs.len()
                    invariant
                        nv == lists(und@),
                        order@.len() == o0.len() + 1,
                        o0.len() < oq.len(),
                        oq[o0.len() as int] == u,
                        bfs(nv, roots@, n as int, oq, o0.len() as int, ri + 1) == target,
                        order@ + q@ == oq + fresh(nbrs@.subrange(0, j as int), oq),
                        und@.len() == n,
                        forall|x: int, i: int|
                            0 <= x < n && 0 <= i < und@[x]@.len() ==> #[trigger] und@[x]@[i] < n,
                        u < n,
                        nbrs@ == und@[u as int]@,
                        j <= nbrs@.len(),
                        seen@.len() == n,
                        forall|v: int|
                            0 <= v < n ==> (#[trigger] seen@[v] <==> (order@.contains(v as usize)
                                || q@.contains(v as usize))),
                        forall|i: int| 0 <= i < order@.len() ==> #[trigger] order@[i] < n,
                        forall|i: int| 0 <= i < q@.len() ==> #[trigger] q@[i] < n,
                        (order@ + q@).no_duplicates(),
                        order@.len() + q@.len() == row_count(seen@, n as int),
                        root < n,
                        ri < roots@.len(),
                        seen@[root as int],
                        forall|i: int| 0 <= i < roots@.len() ==> #[trigger] roots@[i] < n,
                        forall|i: int| 0 <= i < ri ==> seen@[#[trigger] roots@[i] as int],
                    decreases nbrs@.len() - j,
                {
                    let v = nbrs[j];
                    let ghost f = fresh(nbrs@.subrange(0, j as int), oq);
                    let ghost before = order@ + q@;
                    let ghost was_seen = seen@[v as int];
                    proof {
                        assert(und@[u as int]@[j as int] == v);
                        let sub = nbrs@.subrange(0, j + 1);
                        assert(sub.drop_last() == nbrs@.subrange(0, j as int));
                        assert(sub.last() == v);
                        assert(before == oq + f);
                        assert(v < n);
                        assert(was_seen <==> (order@.contains(v) || q@.contains(v)));
                        assert(before.contains(v) <==> (order@.contains(v) || q@.contains(v))) by {
                            if before.contains(v) {
                                let i = choose|i: int| 0 <= i < before.len() && before[i] == v;
                                if i < order@.len() {
                                    assert(order@[i] == v);
                                } else {
                                    assert(q@[i - order@.len()] == v);
                                }
                            }
                            if order@.contains(v) {
                                let i = choose|i: int| 0 <= i < order@.len() && order@[i] == v;
                                assert(before[i] == v);
                            }
                            if q@.contains(v) {
                                let i = choose|i: int| 0 <= i < q@.len() && q@[i] == v;
                                assert(before[order@.len() + i] == v);
                            }
                        }
                        assert((oq + f).contains(v) <==> (oq.contains(v) || f.contains(v))) by {
                            if (oq + f).contains(v) {
                                let i = choose|i: int| 0 <= i < (oq + f).len() && (oq + f)[i] == v;
                                if i < oq.len() {
                                    assert(oq[i] == v);
                                } else {
                                    assert(f[i - oq.len()] == v);
                                }
                            }
                            if oq.contains(v) {
                                let i = choose|i: int| 0 <= i < oq.len() && oq[i] == v;
                                assert((oq + f)[i] == v);
                            }
                            if f.contains(v) {
                                let i = choose|i: int| 0 <= i < f.len() && f[i] == v;
                                assert((oq + f)[oq.len() + i] == v);
                            }
                        }
                    }
                    if !seen[v] {
                        let ghost s1 = seen@;
                        let ghost q1 = q@;
                        seen.set(v, true);
                        proof {
                            lemma_count_update(s1, v as int, n as int);
                            assert forall|i: int| 0 <= i < ri implies seen@[#[trigger] roots@[i] as int] by {
                                assert(s1[roots@[i] as int]);
                            }
                        }
                        q.push_back(v);
                        proof {
                            assert(!(order@ + q1).contains(v));
                            assert(order@ + q@ == (order@ + q1).push(v));
                            assert forall|y: int| 0 <= y < n implies (#[trigger] seen@[y] <==> (
                            order@.contains(y as usize) || q@.contains(y as usize))) by {
                                if q1.contains(y as usize) {
                                    let i = choose|i: int| 0 <= i < q1.len() && q1[i] == y as usize;
                                    assert(q@[i] == y as usize);
                                }
                                if q@.contains(y as usize) && y != v {
                                    let i = choose|i: int| 0 <= i < q@.len() && q@[i] == y as usize;
                                    assert(q1[i] == y as usize);
                                }
                                if y == v {
                                    assert(q@[q1.len() as int] == v);
                                }
                            }
                            assert((order@ + q@).no_duplicates()) by {
                                let a = order@ + q1;
                                assert forall|x: int, y: int|
                                    0 <= x < (order@ + q@).len() && 0 <= y < (order@ + q@).len() && x
                                        != y implies (order@ + q@)[x] != (order@ + q@)[y] by {
                                    if x < a.len() && y < a.len() {
                                        assert((order@ + q@)[x] == a[x]);
                                        assert((order@ + q@)[y] == a[y]);
                                    } else if x < a.len() {
                                        assert((order@ + q@)[x] == a[x]);
                                        assert(a.contains(a[x]));
                                    } else if y < a.len() {
                                        assert((order@ + q@)[y] == a[y]);
                                        assert(a.contains(a[y]));
                                    }
                                }
                            }
                        }
                    }
                    proof {
                        let sub = nbrs@.subrange(0, j + 1);
                        if was_seen {
                            assert(fresh(sub, oq) == f);
                        } else {
                            assert(fresh(sub, oq) == f.push(v));
                            assert(order@ + q@ == before.push(v));
                        }
                    }
                    j = j + 1;
                }
                proof {
                    assert(nbrs@.subrange(0, nbrs@.len() as int) == nbrs@);
                    lemma_distinct_bound(order@ + q@, n as int);
                    assert(nv[oq[o0.len() as int] as int] == nbrs@);
                }
            }
            proof {
                assert(order@ + q@ == order@);
            }
        }
        ri = ri + 1;
    }
    proof {
        assert forall|v: int| 0 <= v < n implies #[trigger] seen@[v] by {
            assert(roots@.contains(v as usize));
            let i = choose|i: int| 0 <= i < roots@.len() && roots@[i] == v as usize;
            assert(seen@[roots@[i] as int]);
        }
        lemma_all_true(seen@, n as int);
    }
    order
}

proof fn lemma_all_false(s: Seq<bool>, j: int)
    requires
        0 <= j <= s.len(),
        forall|i: int| 0 <= i < j ==> !s[i],
    ensures
        row_count(s, j) == 0,
    decreases j,
{
    if j > 0 {
        lemma_all_false(s, j - 1);
    }
}

proof fn lemma_all_true(s: Seq<bool>, j: int)
    requires
        0 <= j <= s.len(),
        forall|i: int| 0 <= i < j ==> s[i],
    ensures
        row_count(s, j) == j,
    decreases j,
{
    if j > 0 {
        lemma_all_true(s, j - 1);
    }
}

/// Number of vertices joined to `v` by an arc in either direction.
pub open spec fn support_degree(adj: Seq<Vec<(usize, u64)>>, n: int, v: int) -> nat {
    Set::new(|w: usize| w < n && linked(adj, v, w as int)).len()
}

/// `a` comes before `b` in the layout order: smaller support degree first,
/// ties by smaller id.
pub open spec fn degree_before(adj: Seq<Vec<(usize, u64)>>, n: int, a: usize, b: usize) -> bool {
    support_degree(adj, n, a as int) < support_degree(adj, n, b as int) || (support_degree(
        adj,
        n,
        a as int,
    ) == support_degree(adj, n, b as int) && a < b)
}

/// `s` is listed in layout order.
pub open spec fn by_degree(adj: Seq<Vec<(usize, u64)>>, n: int, s: Seq<usize>) -> bool {
    forall|i: int, j: int| 0 <= i < j < s.len() ==> degree_before(adj, n, s[i], s[j])
}

/// `order` is the breadth-first layout of the undirected support: every
/// vertex's neighbours are expanded in layout order, and each search starts
/// from the first unvisited vertex in layout order.
pub open spec fn bfs_layout(adj: Seq<Vec<(usize, u64)>>, n: int, order: Seq<usize>) -> bool {
    exists|nbrs: Seq<Seq<usize>>, roots: Seq<usize>|
        {
            &&& nbrs.len() == n
            &&& forall|u: int|
                0 <= u < n ==> by_degree(adj, n, #[trigger] nbrs[u]) && forall|x: usize|
                    #[trigger] nbrs[u].contains(x) <==> (x < n && linked(adj, u, x as int))
            &&& by_degree(adj, n, roots)
            &&& forall|x: usize| #[trigger] roots.contains(x) <==> x < n
            &&& order == bfs(nbrs, roots, n, Seq::empty(), 0, 0)
        }
}

proof fn lemma_support_degree(g: &Graph, und: Seq<Vec<usize>>, x: int)
    requires
        g.wf(),
        und.len() == g.n,
        0 <= x < g.n,
        strictly_increasing(und[x]@),
        forall|u: int, v: int|
            0 <= u < g.n ==> ((#[trigger] und[u]@.contains(v as usize) && 0 <= v <= usize::MAX) <==> (0 <= v
                < g.n && linked(g.adj@, u, v))),
    ensures
        und[x]@.len() == support_degree(g.adj@, g.n as int, x),
        und[x]@.no_duplicates(),
{
    let s = und[x]@;
    assert(s.no_duplicates()) by {
        assert forall|i: int, j: int| 0 <= i < s.len() && 0 <= j < s.len() && i != j implies s[i] != s[j] by {
            if i < j {
                assert(s[i] < s[j]);
            } else {
                assert(s[j] < s[i]);
            }
        }
    }
    s.unique_seq_to_set();
    let t = Set::new(|w: usize| w < g.n && linked(g.adj@, x, w as int));
    assert forall|w: usize| s.to_set().contains(w) <==> t.contains(w) by {
        assert(s.contains(w as int as usize) <==> (0 <= w as int <= usize::MAX && s.contains(w)));
    }
    assert(s.to_set() =~= t);
}

/// Relabels `g` by breadth-first search on its undirected support:
/// neighbours are visited by increasing (support degree, id) and components
/// are started from unvisited vertices of least (support degree, id); with
/// `reverse` the order is reversed (the RCM-style control). Returns the
/// relabelled graph, adjacency lists sorted, and the map from old to new
/// labels.
pub fn reorder_with_map(g: &Graph, reverse: bool) -> (r: (Graph, Vec<usize>))
    requires
        g.wf(),
        g.heads_in_range(),
    ensures
        r.1@.len() == g.n,
        forall|v: int| 0 <= v < g.n ==> #[trigger] r.1@[v] < g.n,
        forall|v: int, w: int| 0 <= v < g.n && 0 <= w < g.n && r.1@[v] == r.1@[w] ==> v == w,
        r.0.wf(),
        r.0.heads_in_range(),
        r.0.n == g.n,
        r.0.m == g.m,
        forall|u: int|
            0 <= u < g.n ==> sorted_by(#[trigger] r.0.out(r.1@[u] as int)) && r.0.out(
                r.1@[u] as int,
            ).to_multiset() == relabel(g.out(u), r.1@).to_multiset(),
        exists|order: Seq<usize>|
            {
                &&& bfs_layout(g.adj@, g.n as int, order)
                &&& is_permutation(order, g.n as int)
                &&& forall|i: int|
                    0 <= i < g.n ==> #[trigger] r.1@[order[i] as int] == (if reverse {
                        g.n - 1 - i
                    } else {
                        i
                    })
            },
        has_layout(g.adj@, g.n as int),
        r.1@ == bfs_labels(g.adj@, g.n as int, reverse),
{
    let n = g.n;
    let und = undirected_support(g);
    let mut degrees: Vec<usize> = Vec::new();
    let mut k: usize = 0;
    while k < n
        invariant
            k <= n,
            und@.len() == n,
            degrees@.len() == k,
            forall|x: int| 0 <= x < k ==> #[trigger] degrees@[x] == und@[x]@.len(),
        decreases n - k,
    {
        degrees.push(und[k].len());
        k = k + 1;
    }
    proof {
        assert forall|x: int| 0 <= x < n implies #[trigger] degrees@[x] == support_degree(g.adj@, n as int, x)
            && und@[x]@.no_duplicates() by {
            lemma_support_degree(g, und@, x);
        }
    }
    let mut nbrs: Vec<Vec<usize>> = Vec::new();
    let mut x: usize = 0;
    while x < n
        invariant
            n == g.n,
            g.wf(),
            x <= n,
            und@.len() == n,
            degrees@.len() == n,
            forall|y: int| 0 <= y < n ==> #[trigger] degrees@[y] == support_degree(g.adj@, n as int, y)
                && und@[y]@.no_duplicates(),
            forall|u: int, v: int|
                0 <= u < g.n ==> ((#[trigger] und@[u]@.contains(v as usize) && 0 <= v <= usize::MAX)
                    <==> (0 <= v < g.n && crate::support::linked(g.adj@, u, v))),
            nbrs@.len() == x,
            forall|u: int, i: int| 0 <= u < x && 0 <= i < nbrs@[u]@.len() ==> #[trigger] nbrs@[u]@[i] < n,
            forall|u: int|
                0 <= u < x ==> by_degree(g.adj@, n as int, #[trigger] nbrs@[u]@) && forall|y: usize|
                    #[trigger] nbrs@[u]@.contains(y) <==> (y < n && linked(g.adj@, u, y as int)),
        decreases n - x,
    {
        proof {
            assert forall|i: int| 0 <= i < und@[x as int]@.len() implies #[trigger] und@[x as int]@[i]
                < degrees@.len() by {
                let v = und@[x as int]@[i];
                assert(und@[x as int]@.contains(v));
                assert(und@[x as int]@.contains(v as int as usize));
            }
        }
        proof {
            assert(degrees@[x as int] == support_degree(g.adj@, n as int, x as int));
            assert(und@[x as int]@.no_duplicates());
        }
        let sorted = sort_by_degree(&und[x], &degrees);
        proof {
            assert forall|i: int| 0 <= i < sorted@.len() implies #[trigger] sorted@[i] < n by {
                let v = sorted@[i];
                assert(sorted@.contains(v));
                assert(und@[x as int]@.contains(v as int as usize));
            }
            assert forall|i: int, j: int| 0 <= i < j < sorted@.len() implies degree_before(
                g.adj@,
                n as int,
                sorted@[i],
                sorted@[j],
            ) by {
                assert(sorted@[i] < n);
                assert(sorted@[j] < n);
                assert(sorted@[i] != sorted@[j]);
            }
            assert forall|y: usize| #[trigger] sorted@.contains(y) <==> (y < n && linked(g.adj@, x as int, y as int)) by {
                assert(und@[x as int]@.contains(y as int as usize) <==> (0 <= y as int <= usize::MAX
                    && und@[x as int]@.contains(y)));
            }
        }
        let ghost before = nbrs@;
        nbrs.push(sorted);
        proof {
            assert forall|u: int| 0 <= u < x + 1 implies by_degree(g.adj@, n as int, #[trigger] nbrs@[u]@)
                && forall|y: usize| #[trigger] nbrs@[u]@.contains(y) <==> (y < n && linked(g.adj@, u, y as int)) by {
                if u < x {
                    assert(nbrs@[u] == before[u]);
                }
            }
        }
        x = x + 1;
    }
    let mut all: Vec<usize> = Vec::new();
    let mut v: usize = 0;
    while v < n
        invariant
            v <= n,
            all@.len() == v,
            forall|i: int| 0 <= i < v ==> #[trigger] all@[i] == i,
        decreases n - v,
    {
        all.push(v);
        v = v + 1;
    }
    proof {
        assert(all@.no_duplicates()) by {
            assert forall|a: int, b: int| 0 <= a < all@.len() && 0 <= b < all@.len() && a != b implies all@[a]
                != all@[b] by {
                assert(all@[a] == a);
                assert(all@[b] == b);
            }
        }
    }
    let roots = sort_by_degree(&all, &degrees);
    proof {
        assert forall|w: int| 0 <= w < n implies #[trigger] roots@.contains(w as usize) by {
            assert(all@[w] == w);
            assert(all@.contains(w as usize));
        }
        assert forall|i: int| 0 <= i < roots@.len() implies #[trigger] roots@[i] < n by {
            assert(roots@.contains(roots@[i]));
            let p = choose|p: int| 0 <= p < all@.len() && all@[p] == roots@[i];
        }
        assert forall|i: int, j: int| 0 <= i < j < roots@.len() implies degree_before(
            g.adj@,
            n as int,
            roots@[i],
            roots@[j],
        ) by {
            assert(roots@[i] < n);
            assert(roots@[j] < n);
            assert(roots@[i] != roots@[j]);
        }
        assert forall|y: usize| #[trigger] roots@.contains(y) <==> y < n by {
            if y < n {
                assert(roots@.contains(y as int as usize));
            }
            if roots@.contains(y) {
                let p = choose|p: int| 0 <= p < roots@.len() && roots@[p] == y;
                assert(roots@[p] < n);
            }
        }
    }
    let layout = bfs_order(&nbrs, &roots, n);
    let ghost nb = lists(nbrs@);
    proof {
        assert forall|u: int| 0 <= u < n implies by_degree(g.adj@, n as int, #[trigger] nb[u]) && forall|y: usize|
            #[trigger] nb[u].contains(y) <==> (y < n && linked(g.adj@, u, y as int)) by {
            assert(nb[u] == nbrs@[u]@);
        }
        assert(bfs_layout(g.adj@, n as int, layout@));
    }
    let order = if reverse {
        let mut rev: Vec<usize> = Vec::new();
        let mut i: usize = layout.len();
        while i > 0
            invariant
                i <= layout@.len(),
                rev@.len() == layout@.len() - i,
                forall|p: int| 0 <= p < rev@.len() ==> #[trigger] rev@[p] == layout@[layout@.len() - 1 - p],
            decreases i,
        {
            i = i - 1;
            rev.push(layout[i]);
        }
        proof {
            assert(is_permutation(rev@, n as int)) by {
                assert forall|a: int, b: int| 0 <= a < rev@.len() && 0 <= b < rev@.len() && a != b
                    implies rev@[a] != rev@[b] by {
                    assert(rev@[a] == layout@[layout@.len() - 1 - a]);
                    assert(rev@[b] == layout@[layout@.len() - 1 - b]);
                }
            }
        }
        rev
    } else {
        layout.clone()
    };
    proof {
        assert forall|u: int| 0 <= u < g.adj@.len() && (#[trigger] g.adj@[u])@.len() > 0 implies last_pos(
            order@,
            u,
            order@.len() as int,
        ) < n by {
            lemma_last_pos(order@, u, order@.len() as int);
        }
        assert forall|u: int, j: int| 0 <= u < g.adj@.len() && 0 <= j < g.adj@[u]@.len() implies last_pos(
            order@,
            (#[trigger] g.adj@[u]@[j]).0 as int,
            order@.len() as int,
        ) < n by {
            lemma_last_pos(order@, g.adj@[u]@[j].0 as int, order@.len() as int);
        }
    }
    let (h, map) = permute(g, &order);
    proof {
        lemma_permute_bijective(g.adj@, order@, map@, n as int);
        assert forall|a: int, b: int| 0 <= a < n && 0 <= b < n && map@[a] == map@[b] implies a == b by {
            assert(order@[map@[a] as int] == a);
            assert(order@[map@[b] as int] == b);
        }
        assert forall|i: int| 0 <= i < n implies #[trigger] map@[layout@[i] as int] == (if reverse {
            n - 1 - i
        } else {
            i
        }) by {
            if reverse {
                assert(order@[n - 1 - i] == layout@[i]);
                assert(map@[order@[n - 1 - i] as int] == n - 1 - i);
            } else {
                assert(order@[i] == layout@[i]);
            }
        }
        assert(bfs_layout(g.adj@, n as int, layout@) && is_permutation(layout@, n as int));
        assert(has_layout(g.adj@, n as int));
        let o = choose|o: Seq<usize>| bfs_layout(g.adj@, n as int, o) && is_permutation(o, n as int);
        lemma_bfs_layout_unique(g.adj@, n as int, layout@, o);
        let labels = bfs_labels(g.adj@, n as int, reverse);
        assert forall|v: int| 0 <= v < n implies #[trigger] map@[v] == labels[v] by {
            lemma_permutation_covers(o, n as int, v);
            let i = choose|i: int| 0 <= i < n && o[i] == v;
            assert(map@[layout@[i] as int] == (if reverse {
                n - 1 - i
            } else {
                i
            }));
        }
        assert(map@ =~= labels);
    }
    (h, map)
}

/// Some breadth-first layout of the graph lists each vertex once.
pub open spec fn has_layout(adj: Seq<Vec<(usize, u64)>>, n: int) -> bool {
    exists|o: Seq<usize>| bfs_layout(adj, n, o) && is_permutation(o, n)
}

/// The labels the layout gives: vertex `v` at position `i` of the
/// breadth-first layout gets `i`, or `n - 1 - i` when `reverse`.
pub open spec fn bfs_labels(adj: Seq<Vec<(usize, u64)>>, n: int, reverse: bool) -> Seq<usize> {
    let o = choose|o: Seq<usize>| bfs_layout(adj, n, o) && is_permutation(o, n);
    Seq::new(
        n as nat,
        |v: int|
            {
                let i = choose|i: int| 0 <= i < n && o[i] == v;
                (if reverse {
                    n - 1 - i
                } else {
                    i
                }) as usize
            },
    )
}

/// The reversed (RCM-style) relabelling sends every vertex to `n - 1` minus
/// its breadth-first label: `reorder_with_map(g, true).1[v] ==
/// g.n - 1 - reorder_with_map(g, false).1[v]`.
pub proof fn lemma_rcm_reverses_bfs(adj: Seq<Vec<(usize, u64)>>, n: usize)
    requires
        has_layout(adj, n as int),
    ensures
        forall|v: int|
            0 <= v < n ==> #[trigger] bfs_labels(adj, n as int, true)[v] == n - 1 - bfs_labels(
                adj,
                n as int,
                false,
            )[v],
{
    let o = choose|o: Seq<usize>| bfs_layout(adj, n as int, o) && is_permutation(o, n as int);
    assert forall|v: int| 0 <= v < n implies #[trigger] bfs_labels(adj, n as int, true)[v] == n - 1
        - bfs_labels(adj, n as int, false)[v] by {
        lemma_permutation_covers(o, n as int, v);
        let i = choose|i: int| 0 <= i < n && o[i] == v;
        assert(bfs_labels(adj, n as int, true)[v] == (n - 1 - i) as usize);
        assert(bfs_labels(adj, n as int, false)[v] == i as usize);
    }
}

/// For a permutation, the renaming is a bijection on `0..n` inverse to the
/// ordering, and each vertex's renamed list is exactly its own list renamed.
pub proof fn lemma_permute_bijective(adj: Seq<Vec<(usize, u64)>>, order: Seq<usize>, map: Seq<usize>, n: int)
    requires
        is_permutation(order, n),
        map.len() == n,
        forall|v: int| 0 <= v < n ==> #[trigger] map[v] == last_pos(order, v, n),
    ensures
        forall|i: int| 0 <= i < n ==> #[trigger] map[order[i] as int] == i,
        forall|v: int| 0 <= v < n ==> 0 <= #[trigger] map[v] < n && order[map[v] as int] == v,
        forall|u: int| 0 <= u < n ==> label_seq(adj, map, #[trigger] map[u] as int, n) == relabel(adj[u]@, map),
{
    assert forall|i: int| 0 <= i < n implies #[trigger] map[order[i] as int] == i by {
        lemma_last_pos(order, order[i] as int, n);
        let p = last_pos(order, order[i] as int, n);
        assert(order[p] == order[i]);
    }
    assert forall|v: int| 0 <= v < n implies 0 <= #[trigger] map[v] < n && order[map[v] as int] == v by {
        lemma_permutation_covers(order, n, v);
        let i = choose|i: int| 0 <= i < n && order[i] == v;
        assert(map[order[i] as int] == i);
    }
    assert forall|u: int| 0 <= u < n implies label_seq(adj, map, #[trigger] map[u] as int, n) == relabel(adj[u]@, map) by {
        assert forall|y: int| 0 <= y < n && y != u implies map[y] != map[u] by {
            assert(order[map[y] as int] == y);
            assert(order[map[u] as int] == u);
        }
        lemma_label_single(adj, map, map[u] as int, n, u);
    }
}

/// A permutation of `0..n` lists every vertex.
proof fn lemma_permutation_covers(order: Seq<usize>, n: int, v: int)
    requires
        is_permutation(order, n),
        0 <= v < n,
    ensures
        exists|i: int| 0 <= i < n && order[i] == v,
{
    if !(exists|i: int| 0 <= i < n && order[i] == v) {
        let s = order.to_set();
        order.unique_seq_to_set();
        let r = vstd::set_lib::set_int_range(0, n).remove(v);
        let f = |x: int| x as usize;
        assert forall|x: usize| s.contains(x) implies r.map(f).contains(x) by {
            let i = choose|i: int| 0 <= i < order.len() && order[i] == x;
            assert(r.contains(x as int));
            assert(f(x as int) == x);
        }
        assert(s.subset_of(r.map(f)));
        vstd::set_lib::lemma_int_range(0, n);
        assert(vstd::set_lib::set_int_range(0, n).contains(v));
        assert(r.len() == n - 1);
        vstd::set_lib::lemma_map_size_bound(r, r.map(f), f);
        vstd::set_lib::lemma_len_subset(s, r.map(f));
    }
}

/// Two lists in layout order with the same members are equal.
pub proof fn lemma_by_degree_unique(adj: Seq<Vec<(usize, u64)>>, n: int, s1: Seq<usize>, s2: Seq<usize>)
    requires
        by_degree(adj, n, s1),
        by_degree(adj, n, s2),
        forall|x: usize| s1.contains(x) <==> s2.contains(x),
    ensures
        s1 == s2,
    decreases s1.len(),
{
    if s1.len() == 0 {
        if s2.len() > 0 {
            assert(s2.contains(s2[0]));
        }
        assert(s1 =~= s2);
    } else {
        assert(s1.contains(s1[0]));
        assert(s2.len() > 0);
        assert(s2.contains(s2[0]));
        let j = choose|j: int| 0 <= j < s2.len() && s2[j] == s1[0];
        let i = choose|i: int| 0 <= i < s1.len() && s1[i] == s2[0];
        if s1[0] != s2[0] {
            assert(i > 0 && j > 0);
            assert(degree_before(adj, n, s1[0], s1[i]));
            assert(degree_before(adj, n, s2[0], s2[j]));
        }
        let t1 = s1.drop_first();
        let t2 = s2.drop_first();
        assert forall|x: usize| t1.contains(x) <==> t2.contains(x) by {
            if t1.contains(x) {
                let a = choose|a: int| 0 <= a < t1.len() && t1[a] == x;
                assert(s1[a + 1] == x);
                assert(degree_before(adj, n, s1[0], s1[a + 1]));
                assert(s2.contains(x));
                let b = choose|b: int| 0 <= b < s2.len() && s2[b] == x;
                assert(b != 0);
                assert(t2[b - 1] == x);
            }
            if t2.contains(x) {
                let a = choose|a: int| 0 <= a < t2.len() && t2[a] == x;
                assert(s2[a + 1] == x);
                assert(degree_before(adj, n, s2[0], s2[a + 1]));
                assert(s1.contains(x));
                let b = choose|b: int| 0 <= b < s1.len() && s1[b] == x;
                assert(b != 0);
                assert(t1[b - 1] == x);
            }
        }
        assert(by_degree(adj, n, t1)) by {
            assert forall|a: int, b: int| 0 <= a < b < t1.len() implies degree_before(adj, n, t1[a], t1[b]) by {
                assert(degree_before(adj, n, s1[a + 1], s1[b + 1]));
            }
        }
        assert(by_degree(adj, n, t2)) by {
            assert forall|a: int, b: int| 0 <= a < b < t2.len() implies degree_before(adj, n, t2[a], t2[b]) by {
                assert(degree_before(adj, n, s2[a + 1], s2[b + 1]));
            }
        }
        lemma_by_degree_unique(adj, n, t1, t2);
        assert(s1 =~= seq![s1[0]] + t1);
        assert(s2 =~= seq![s2[0]] + t2);
    }
}

/// The breadth-first layout of a graph is unique.
pub proof fn lemma_bfs_layout_unique(adj: Seq<Vec<(usize, u64)>>, n: int, o1: Seq<usize>, o2: Seq<usize>)
    requires
        bfs_layout(adj, n, o1),
        bfs_layout(adj, n, o2),
    ensures
        o1 == o2,
{
    let (nb1, r1) = choose|nbrs: Seq<Seq<usize>>, roots: Seq<usize>|
        {
            &&& nbrs.len() == n
            &&& forall|u: int|
                0 <= u < n ==> by_degree(adj, n, #[trigger] nbrs[u]) && forall|x: usize|
                    #[trigger] nbrs[u].contains(x) <==> (x < n && linked(adj, u, x as int))
            &&& by_degree(adj, n, roots)
            &&& forall|x: usize| #[trigger] roots.contains(x) <==> x < n
            &&& o1 == bfs(nbrs, roots, n, Seq::empty(), 0, 0)
        };
    let (nb2, r2) = choose|nbrs: Seq<Seq<usize>>, roots: Seq<usize>|
        {
            &&& nbrs.len() == n
            &&& forall|u: int|
                0 <= u < n ==> by_degree(adj, n, #[trigger] nbrs[u]) && forall|x: usize|
                    #[trigger] nbrs[u].contains(x) <==> (x < n && linked(adj, u, x as int))
            &&& by_degree(adj, n, roots)
            &&& forall|x: usize| #[trigger] roots.contains(x) <==> x < n
            &&& o2 == bfs(nbrs, roots, n, Seq::empty(), 0, 0)
        };
    assert forall|u: int| 0 <= u < n implies #[trigger] nb1[u] == nb2[u] by {
        assert forall|x: usize| nb1[u].contains(x) <==> nb2[u].contains(x) by {}
        lemma_by_degree_unique(adj, n, nb1[u], nb2[u]);
    }
    assert(nb1 =~= nb2);
    assert forall|x: usize| r1.contains(x) <==> r2.contains(x) by {}
    lemma_by_degree_unique(adj, n, r1, r2);
}

/// The reversed layout is the breadth-first layout read backwards: the
/// RCM-style relabelling sends each vertex to `n - 1` minus its BFS label.
pub proof fn lemma_reverse_layout(adj: Seq<Vec<(usize, u64)>>, n: int, mf: Seq<usize>, mr: Seq<usize>)
    requires
        exists|o: Seq<usize>|
            {
                &&& bfs_layout(adj, n, o)
                &&& is_permutation(o, n)
                &&& forall|i: int| 0 <= i < n ==> #[trigger] mf[o[i] as int] == i
            },
        exists|o: Seq<usize>|
            {
                &&& bfs_layout(adj, n, o)
                &&& is_permutation(o, n)
                &&& forall|i: int| 0 <= i < n ==> #[trigger] mr[o[i] as int] == n - 1 - i
            },
    ensures
        forall|v: int| 0 <= v < n ==> #[trigger] mr[v] == n - 1 - mf[v],
{
    let o1 = choose|o: Seq<usize>|
        {
            &&& bfs_layout(adj, n, o)
            &&& is_permutation(o, n)
            &&& forall|i: int| 0 <= i < n ==> #[trigger] mf[o[i] as int] == i
        };
    let o2 = choose|o: Seq<usize>|
        {
            &&& bfs_layout(adj, n, o)
            &&& is_permutation(o, n)
            &&& forall|i: int| 0 <= i < n ==> #[trigger] mr[o[i] as int] == n - 1 - i
        };
    lemma_bfs_layout_unique(adj, n, o1, o2);
    assert forall|v: int| 0 <= v < n implies #[trigger] mr[v] == n - 1 - mf[v] by {
        lemma_permutation_covers(o1, n, v);
        let i = choose|i: int| 0 <= i < n && o1[i] == v;
        assert(mf[o1[i] as int] == i);
        assert(mr[o2[i] as int] == n - 1 - i);
    }
}

} // verus!
