//! Two-hop neighbourhoods of a vertex, walked in storage order: the arcs met
//! (one per tail-head pair) and the vertices met (each once).
use crate::graph::Graph;
use vstd::prelude::*;

verus! {

/// Arcs met by the walk over the first `k` arcs leaving `u`: each such arc
/// `(u, v)`, followed by the arcs leaving `v`, as `(tail, head, weight)`.
pub open spec fn two_hop_walk(adj: Seq<Vec<(usize, u64)>>, u: int, k: int) -> Seq<(usize, usize, u64)>
    decreases k,
{
    if k <= 0 {
        Seq::empty()
    } else {
        let (v, w) = adj[u]@[k - 1];
        two_hop_walk(adj, u, k - 1).push((u as usize, v, w)) + adj[v as int]@.map_values(
            |a: (usize, u64)| (v, a.0, a.1),
        )
    }
}

/// Some entry of `s` joins `a` to `b`.
pub open spec fn has_pair(s: Seq<(usize, usize, u64)>, a: usize, b: usize) -> bool {
    exists|i: int| 0 <= i < s.len() && s[i].0 == a && s[i].1 == b
}

/// `s` with every entry dropped whose tail-head pair occurred earlier.
pub open spec fn first_by_pair(s: Seq<(usize, usize, u64)>) -> Seq<(usize, usize, u64)>
    decreases s.len(),
{
    if s.len() == 0 {
        Seq::empty()
    } else {
        let p = first_by_pair(s.drop_last());
        if has_pair(p, s.last().0, s.last().1) {
            p
        } else {
            p.push(s.last())
        }
    }
}

/// Vertices met by the walk over the first `k` arcs leaving `u`: each head
/// `v`, followed by the heads of the arcs leaving `v`.
pub open spec fn two_hop_reach(adj: Seq<Vec<(usize, u64)>>, u: int, k: int) -> Seq<usize>
    decreases k,
{
    if k <= 0 {
        Seq::empty()
    } else {
        let v = adj[u]@[k - 1].0;
        two_hop_reach(adj, u, k - 1).push(v) + adj[v as int]@.map_values(|a: (usize, u64)| a.0)
    }
}

/// `s` with every repeated entry dropped, first occurrences kept.
pub open spec fn first_seen(s: Seq<usize>) -> Seq<usize>
    decreases s.len(),
{
    if s.len() == 0 {
        Seq::empty()
    } else {
        let p = first_seen(s.drop_last());
        if p.contains(s.last()) {
            p
        } else {
            p.push(s.last())
        }
    }
}

proof fn lemma_first_by_pair_push(s: Seq<(usize, usize, u64)>, x: (usize, usize, u64))
    ensures
        first_by_pair(s.push(x)) == if has_pair(first_by_pair(s), x.0, x.1) {
            first_by_pair(s)
        } else {
            first_by_pair(s).push(x)
        },
{
    assert(s.push(x).drop_last() == s);
}

proof fn lemma_first_seen_push(s: Seq<usize>, x: usize)
    ensures
        first_seen(s.push(x)) == if first_seen(s).contains(x) {
            first_seen(s)
        } else {
            first_seen(s).push(x)
        },
{
    assert(s.push(x).drop_last() == s);
}

/// Appends `x` unless an entry with its tail-head pair is already there.
fn push_new_pair(out: &mut Vec<(usize, usize, u64)>, x: (usize, usize, u64))
    ensures
        final(out)@ == if has_pair(old(out)@, x.0, x.1) {
            old(out)@
        } else {
            old(out)@.push(x)
        },
{
    let mut i: usize = 0;
    while i < out.len()
        invariant
            i <= out@.len(),
            forall|q: int| 0 <= q < i ==> !(#[trigger] out@[q].0 == x.0 && out@[q].1 == x.1),
        decreases out@.len() - i,
    {
        if out[i].0 == x.0 && out[i].1 == x.1 {
            return;
        }
        i = i + 1;
    }
    out.push(x);
}

/// Appends `x` unless it is already there.
fn push_new(out: &mut Vec<usize>, x: usize)
    ensures
        final(out)@ == if old(out)@.contains(x) {
            old(out)@
        } else {
            old(out)@.push(x)
        },
{
    let mut i: usize = 0;
    while i < out.len()
        invariant
            i <= out@.len(),
            forall|q: int| 0 <= q < i ==> #[trigger] out@[q] != x,
        decreases out@.len() - i,
    {
        if out[i] == x {
            return;
        }
        i = i + 1;
    }
    out.push(x);
}

/// The arcs leaving `u`, and after each arc `(u, v)` the arcs leaving `v`,
/// keeping the first arc of every tail-head pair: the two-hop arc sample of
/// `u` as `(tail, head, weight)`.
pub fn two_hop_arcs(g: &Graph, u: usize) -> (r: Vec<(usize, usize, u64)>)
    requires
        g.wf(),
        g.heads_in_range(),
        u < g.n,
    ensures
        r@ == first_by_pair(two_hop_walk(g.adj@, u as int, g.adj@[u as int]@.len() as int)),
{
    let row = &g.adj[u];
    let mut out: Vec<(usize, usize, u64)> = Vec::new();
    let mut j: usize = 0;
    while j < row.len()
        invariant
            g.wf(),
            g.heads_in_range(),
            u < g.n,
            row@ == g.adj@[u as int]@,
            j <= row@.len(),
            out@ == first_by_pair(two_hop_walk(g.adj@, u as int, j as int)),
        decreases row@.len() - j,
    {
        let (v, w) = row[j];
        proof {
            assert(g.adj@[u as int]@[j as int] == row@[j as int]);
            lemma_first_by_pair_push(two_hop_walk(g.adj@, u as int, j as int), (u, v, w));
        }
        push_new_pair(&mut out, (u, v, w));
        let ghost walked = two_hop_walk(g.adj@, u as int, j as int).push((u, v, w));
        let next = &g.adj[v];
        let mut i: usize = 0;
        while i < next.len()
            invariant
                next@ == g.adj@[v as int]@,
                i <= next@.len(),
                out@ == first_by_pair(
                    walked + next@.subrange(0, i as int).map_values(|a: (usize, u64)| (v, a.0, a.1)),
                ),
            decreases next@.len() - i,
        {
            let (x, w2) = next[i];
            proof {
                let s = walked + next@.subrange(0, i as int).map_values(|a: (usize, u64)| (v, a.0, a.1));
                assert(walked + next@.subrange(0, i + 1).map_values(|a: (usize, u64)| (v, a.0, a.1))
                    == s.push((v, x, w2)));
                lemma_first_by_pair_push(s, (v, x, w2));
            }
            push_new_pair(&mut out, (v, x, w2));
            i = i + 1;
        }
        proof {
            assert(next@.subrange(0, i as int) == next@);
            assert(two_hop_walk(g.adj@, u as int, j + 1) == walked + next@.map_values(
                |a: (usize, u64)| (v, a.0, a.1),
            ));
        }
        j = j + 1;
    }
    out
}

/// `u`, then every vertex met by walking the arcs leaving `u` and, after
/// each head `v`, the arcs leaving `v`: each vertex once, in the order first
/// met. The two-hop vertex set of `u`.
pub fn two_hop_vertices(g: &Graph, u: usize) -> (r: Vec<usize>)
    requires
        g.wf(),
        g.heads_in_range(),
        u < g.n,
    ensures
        r@ == first_seen(seq![u].add(two_hop_reach(g.adj@, u as int, g.adj@[u as int]@.len() as int))),
{
    let row = &g.adj[u];
    let mut out: Vec<usize> = Vec::new();
    out.push(u);
    proof {
        let one = seq![u];
        assert(Seq::<usize>::empty().push(u) == one);
        lemma_first_seen_push(Seq::<usize>::empty(), u);
        assert(first_seen(one) == seq![u]);
        assert(one.add(two_hop_reach(g.adj@, u as int, 0)) == one);
    }
    let mut j: usize = 0;
    while j < row.len()
        invariant
            g.wf(),
            g.heads_in_range(),
            u < g.n,
            row@ == g.adj@[u as int]@,
            j <= row@.len(),
            out@ == first_seen(seq![u].add(two_hop_reach(g.adj@, u as int, j as int))),
        decreases row@.len() - j,
    {
        let v = row[j].0;
        let ghost before = seq![u].add(two_hop_reach(g.adj@, u as int, j as int));
        proof {
            assert(g.adj@[u as int]@[j as int] == row@[j as int]);
            lemma_first_seen_push(before, v);
        }
        push_new(&mut out, v);
        let ghost walked = before.push(v);
        let next = &g.adj[v];
        let mut i: usize = 0;
        while i < next.len()
            invariant
                next@ == g.adj@[v as int]@,
                i <= next@.len(),
                out@ == first_seen(walked + next@.subrange(0, i as int).map_values(|a: (usize, u64)| a.0)),
            decreases next@.len() - i,
        {
            let x = next[i].0;
            proof {
                let s = walked + next@.subrange(0, i as int).map_values(|a: (usize, u64)| a.0);
                assert(walked + next@.subrange(0, i + 1).map_values(|a: (usize, u64)| a.0) == s.push(x));
                lemma_first_seen_push(s, x);
            }
            push_new(&mut out, x);
            i = i + 1;
        }
        proof {
            assert(next@.subrange(0, i as int) == next@);
            assert(seq![u].add(two_hop_reach(g.adj@, u as int, j + 1)) == walked + next@.map_values(
                |a: (usize, u64)| a.0,
            ));
        }
        j = j + 1;
    }
    out
}

} // verus!
