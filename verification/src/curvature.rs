//! Edge curvature scores for gating corridor scouts: undirected neighbour
//! sets, triangle counts, augmented Forman-Ricci curvature, and the
//! rate-matched thresholds that make every gate fire on as many edges as the
//! published degree gate.
use crate::graph::Graph;
use crate::mask::{arc_list, lemma_arc_list};
use crate::sort::{merge_sort, sorted_by, SortKey};
use crate::support::{linked, undirected_support};
use std::collections::HashSet;
use vstd::prelude::*;

verus! {

broadcast use vstd::std_specs::hash::group_hash_axioms;

/// Which score decides whether a relaxed edge fires a scout.
#[derive(Clone, Copy, PartialEq, Eq, Structural, Debug)]
pub enum CurveGate {
    /// Both endpoints have degree at most `t`: the published gate.
    Degree,
    /// Both endpoints have degree at most the adaptive threshold `tau`.
    DegreeAdaptive,
    /// Augmented Forman-Ricci curvature at or above a rate-matched threshold.
    Forman,
    /// Triangle count at or above a rate-matched threshold.
    Triangle,
}

/// Number of the first `k` entries of `s` that lie in `b`.
pub open spec fn count_in(s: Seq<usize>, b: Set<usize>, k: int) -> int
    decreases k,
{
    if k <= 0 {
        0
    } else {
        count_in(s, b, k - 1) + if b.contains(s[k - 1]) {
            1int
        } else {
            0int
        }
    }
}

proof fn lemma_count_in(s: Seq<usize>, b: Set<usize>, k: int)
    requires
        0 <= k <= s.len(),
        s.no_duplicates(),
    ensures
        count_in(s, b, k) == s.subrange(0, k).to_set().intersect(b).len(),
        s.subrange(0, k).to_set().intersect(b).finite(),
    decreases k,
{
    let t = s.subrange(0, k).to_set().intersect(b);
    if k == 0 {
        assert(t =~= Set::empty());
    } else {
        lemma_count_in(s, b, k - 1);
        let p = s.subrange(0, k - 1).to_set().intersect(b);
        let x = s[k - 1];
        assert(s.subrange(0, k) == s.subrange(0, k - 1).push(x));
        assert(!s.subrange(0, k - 1).to_set().contains(x)) by {
            let q = s.subrange(0, k - 1);
            if q.to_set().contains(x) {
                assert(q.contains(x));
                let i = choose|i: int| 0 <= i < q.len() && #[trigger] q[i] == x;
                assert(s[i] == s[k - 1]);
            }
        }
        s.subrange(0, k - 1).lemma_push_to_set_commute(x);
        if b.contains(x) {
            assert(t =~= p.insert(x));
        } else {
            assert(t =~= p);
        }
    }
}

/// Counting a duplicate-free sequence through `b` gives the size of the
/// intersection of its elements with `b`.
pub broadcast proof fn lemma_count_in_full(s: Seq<usize>, b: Set<usize>)
    requires
        s.no_duplicates(),
    ensures
        #[trigger] count_in(s, b, s.len() as int) == s.to_set().intersect(b).len(),
{
    lemma_count_in(s, b, s.len() as int);
    assert(s.subrange(0, s.len() as int) == s);
}

/// Undirected neighbour sets: `w` is a neighbour of `u` when an arc joins
/// them in either direction (a self-loop makes `u` its own neighbour).
pub fn neighbour_sets(g: &Graph) -> (ns: Vec<HashSet<usize>>)
    requires
        g.wf(),
        g.heads_in_range(),
    ensures
        ns@.len() == g.n,
        forall|u: int, v: usize|
            0 <= u < g.n ==> (#[trigger] ns@[u]@.contains(v) <==> (v < g.n && linked(
                g.adj@,
                u,
                v as int,
            ))),
{
    let und = undirected_support(g);
    let mut ns: Vec<HashSet<usize>> = Vec::new();
    let mut u: usize = 0;
    while u < g.n
        invariant
            u <= g.n,
            und@.len() == g.n,
            ns@.len() == u,
            forall|x: int, v: usize|
                0 <= x < u ==> (#[trigger] ns@[x]@.contains(v) <==> und@[x]@.contains(v)),
        decreases g.n - u,
    {
        let mut set: HashSet<usize> = HashSet::new();
        let row = &und[u];
        let mut j: usize = 0;
        while j < row.len()
            invariant
                j <= row@.len(),
                set@ == row@.subrange(0, j as int).to_set(),
            decreases row@.len() - j,
        {
            set.insert(row[j]);
            proof {
                assert(row@.subrange(0, j + 1) == row@.subrange(0, j as int).push(row@[j as int]));
                row@.subrange(0, j as int).lemma_push_to_set_commute(row@[j as int]);
            }
            j = j + 1;
        }
        proof {
            assert(row@.subrange(0, j as int) == row@);
        }
        ns.push(set);
        u = u + 1;
    }
    proof {
        assert forall|x: int, v: usize| 0 <= x < g.n implies (#[trigger] ns@[x]@.contains(v) <==> (
        v < g.n && linked(g.adj@, x, v as int))) by {
            assert(und@[x]@.contains(v as int as usize) <==> (0 <= v as int <= usize::MAX && und@[x]@.contains(v)));
        }
    }
    ns
}

/// Triangles on the edge `(u, v)`: the number of common neighbours,
/// `|N(u) ∩ N(v)|`.
pub fn triangles(ns: &[HashSet<usize>], u: usize, v: usize) -> (r: usize)
    requires
        u < ns@.len(),
        v < ns@.len(),
    ensures
        r == ns@[u as int]@.intersect(ns@[v as int]@).len(),
{
    let (a, b) = if ns[u].len() <= ns[v].len() {
        (u, v)
    } else {
        (v, u)
    };
    let sa = &ns[a];
    let sb = &ns[b];
    let mut c: usize = 0;
    proof {
        assert(sa@.len() == 0 ==> sa@.intersect(sb@).len() == 0) by {
            if sa@.len() == 0 {
                let keys = vstd::std_specs::iter::IteratorSpec::remaining(&vstd::std_specs::hash::spec_hash_keys_iter(sa)).unref();
                assert(sa@.finite());
                sa@.lemma_len0_is_empty();
                assert(sa@.intersect(sb@) =~= Set::empty());
            }
        }
    }
    for w in it: sa.iter()
        invariant
            it.seq().unref().no_duplicates(),
            it.seq().unref().to_set() == sa@,
            it.seq().len() == sa@.len(),
            sa@.len() <= usize::MAX,
            sa@.len() == 0 ==> sa@.intersect(sb@).len() == 0,
            c == count_in(it.seq().unref(), sb@, it.index() as int),
            c <= it.index(),
            it.index() == it.seq().len() ==> c == sa@.intersect(sb@).len(),
    {
        if sb.contains(w) {
            c = c + 1;
        }
        assert(count_in(it.seq().unref(), sb@, it.seq().len() as int)
            == it.seq().unref().to_set().intersect(sb@).len()) by {
            broadcast use lemma_count_in_full;
        }
    }
    proof {
        assert(ns@[u as int]@.intersect(ns@[v as int]@) =~= ns@[v as int]@.intersect(ns@[u as int]@));
    }
    c
}

/// Augmented Forman-Ricci curvature of an unweighted edge whose endpoints
/// have degrees `du` and `dv` and which lies on `t` triangles.
pub open spec fn forman_value(du: int, dv: int, t: int) -> int {
    4 - du - dv + 3 * t
}

/// The augmented Forman-Ricci curvature of an edge with no common
/// neighbour is `4 - deg(u) - deg(v)`; every further common neighbour
/// (triangle on the edge) adds exactly 3, every further unit of either
/// endpoint's degree takes away exactly 1, and the two endpoints play the
/// same part.
pub proof fn lemma_forman_per_triangle(du: int, dv: int, t: int)
    requires
        t >= 0,
    ensures
        forman_value(du, dv, 0) == 4 - du - dv,
        forman_value(du, dv, t + 1) == forman_value(du, dv, t) + 3,
        forman_value(du, dv, t) == forman_value(du, dv, 0) + 3 * t,
        forman_value(du + 1, dv, t) == forman_value(du, dv, t) - 1,
        forman_value(du, dv, t) == forman_value(dv, du, t),
{
}

/// Vertices joined to both `u` and `v` in the undirected support.
pub open spec fn common(adj: Seq<Vec<(usize, u64)>>, n: int, u: int, v: int) -> Set<usize> {
    Set::new(|w: usize| w < n && linked(adj, u, w as int) && linked(adj, v, w as int))
}

/// Augmented Forman-Ricci curvature of the edge `(u, v)`,
/// `4 - deg(u) - deg(v) + 3 T(u, v)`, with `T` counted on `ns`.
pub fn forman(g: &Graph, ns: &[HashSet<usize>], u: usize, v: usize) -> (r: i128)
    requires
        g.wf(),
        u < g.n,
        v < g.n,
        u < ns@.len(),
        v < ns@.len(),
    ensures
        r == forman_value(
            g.degree@[u as int] as int,
            g.degree@[v as int] as int,
            ns@[u as int]@.intersect(ns@[v as int]@).len() as int,
        ),
{
    let t = triangles(ns, u, v);
    4 - (g.degree[u] as i128) - (g.degree[v] as i128) + 3 * (t as i128)
}

/// The published gate: both endpoints have degree at most `t`.
pub open spec fn degree_gate(degree: Seq<usize>, u: int, v: int, t: int) -> bool {
    degree[u] <= t && degree[v] <= t
}

/// Number of the first `k` arcs of `l` on which the degree gate fires.
pub open spec fn fire_count(l: Seq<(usize, usize, usize)>, degree: Seq<usize>, t: int, k: int) -> int
    decreases k,
{
    if k <= 0 {
        0
    } else {
        fire_count(l, degree, t, k - 1) + if degree_gate(degree, l[k - 1].0 as int, l[k - 1].2 as int, t) {
            1int
        } else {
            0int
        }
    }
}

/// The degree gate counts an arc exactly when both its tail and its head
/// have out-degree at most `t`: the count over the first `k` arcs of `l` is
/// the number of those arcs that pass that test, so with every endpoint
/// degree at most `t` every arc counts, and with some endpoint of every arc
/// above `t` none does.
pub proof fn lemma_fire_count_counts(l: Seq<(usize, usize, usize)>, degree: Seq<usize>, t: int, k: int)
    requires
        0 <= k <= l.len(),
    ensures
        fire_count(l, degree, t, k) == l.take(k).filter(
            |e: (usize, usize, usize)| degree[e.0 as int] <= t && degree[e.2 as int] <= t,
        ).len(),
        (forall|i: int| 0 <= i < k ==> degree[(#[trigger] l[i]).0 as int] <= t && degree[l[i].2 as int] <= t)
            ==> fire_count(l, degree, t, k) == k,
        (forall|i: int| 0 <= i < k ==> degree[(#[trigger] l[i]).0 as int] > t || degree[l[i].2 as int] > t)
            ==> fire_count(l, degree, t, k) == 0,
    decreases k,
{
    let pred = |e: (usize, usize, usize)| degree[e.0 as int] <= t && degree[e.2 as int] <= t;
    reveal(Seq::filter);
    if k > 0 {
        lemma_fire_count_counts(l, degree, t, k - 1);
        assert(l.take(k).drop_last() == l.take(k - 1));
        assert(l.take(k).last() == l[k - 1]);
    } else {
        assert(l.take(0).len() == 0);
    }
}

/// Per-arc gate scores, listed in storage order of the arcs.
pub struct EdgeScores {
    /// Tail and head of every arc.
    pub pairs: Vec<(usize, usize)>,
    /// `deg(u) + deg(v)`.
    pub degree_sum: Vec<u128>,
    /// Augmented Forman-Ricci curvature.
    pub forman: Vec<i128>,
    /// Triangles on the edge.
    pub triangle: Vec<usize>,
    /// Number of arcs on which the published degree gate fires.
    pub fired: usize,
}

/// The scores of arc `e = (u, j, v)` sit at the same position of each list.
pub open spec fn scores_at(g: &Graph, sc: &EdgeScores, i: int, e: (usize, usize, usize)) -> bool {
    let du = g.degree@[e.0 as int] as int;
    let dv = g.degree@[e.2 as int] as int;
    let t = common(g.adj@, g.n as int, e.0 as int, e.2 as int).len() as int;
    &&& sc.pairs@[i] == (e.0, e.2)
    &&& sc.degree_sum@[i] == du + dv
    &&& sc.triangle@[i] == t
    &&& sc.forman@[i] == forman_value(du, dv, t)
}

/// Scores every arc of `g` under each gate, and counts the arcs on which
/// the degree gate with threshold `t` fires.
pub fn edge_scores(g: &Graph, t: usize) -> (sc: EdgeScores)
    requires
        g.wf(),
        g.heads_in_range(),
    ensures
        sc.pairs@.len() == g.m,
        sc.degree_sum@.len() == g.m,
        sc.forman@.len() == g.m,
        sc.triangle@.len() == g.m,
        forall|i: int| 0 <= i < g.m ==> scores_at(g, &sc, i, #[trigger] arc_list(g.adj@, g.n as int)[i]),
        sc.fired == fire_count(arc_list(g.adj@, g.n as int), g.degree@, t as int, g.m as int),
{
    let n = g.n;
    let ns = neighbour_sets(g);
    let mut sc = EdgeScores {
        pairs: Vec::new(),
        degree_sum: Vec::new(),
        forman: Vec::new(),
        triangle: Vec::new(),
        fired: 0,
    };
    let mut u: usize = 0;
    while u < n
        invariant
            n == g.n,
            g.wf(),
            g.heads_in_range(),
            ns@.len() == n,
            forall|x: int, v: usize|
                0 <= x < n ==> (#[trigger] ns@[x]@.contains(v) <==> (v < n && linked(g.adj@, x, v as int))),
            u <= n,
            sc.pairs@.len() == arc_list(g.adj@, u as int).len(),
            sc.degree_sum@.len() == arc_list(g.adj@, u as int).len(),
            sc.forman@.len() == arc_list(g.adj@, u as int).len(),
            sc.triangle@.len() == arc_list(g.adj@, u as int).len(),
            forall|i: int|
                0 <= i < arc_list(g.adj@, u as int).len() ==> scores_at(g, &sc, i, #[trigger] arc_list(g.adj@, u as int)[i]),
            sc.fired == fire_count(arc_list(g.adj@, u as int), g.degree@, t as int, arc_list(g.adj@, u as int).len() as int),
            sc.fired <= arc_list(g.adj@, u as int).len(),
        decreases n - u,
    {
        let row = &g.adj[u];
        let ghost base = arc_list(g.adj@, u as int);
        let ghost full = arc_list(g.adj@, u + 1);
        proof {
            assert(full == base + Seq::new(row@.len(), |j: int| (u, j as usize, row@[j].0)));
            lemma_fire_prefix(base, full, g.degree@, t as int, base.len() as int);
            lemma_arc_list(g.adj@, u + 1);
            crate::mask::lemma_arc_prefix(g.adj@, u as int);
        }
        let mut j: usize = 0;
        while j < row.len()
            invariant
                n == g.n,
                g.wf(),
                g.heads_in_range(),
                ns@.len() == n,
                forall|x: int, v: usize|
                    0 <= x < n ==> (#[trigger] ns@[x]@.contains(v) <==> (v < n && linked(g.adj@, x, v as int))),
                u < n,
                row@ == g.adj@[u as int]@,
                base == arc_list(g.adj@, u as int),
                full == base + Seq::new(row@.len(), |i: int| (u, i as usize, row@[i].0)),
                j <= row@.len(),
                full.len() <= g.m,
                sc.pairs@.len() == base.len() + j,
                sc.degree_sum@.len() == base.len() + j,
                sc.forman@.len() == base.len() + j,
                sc.triangle@.len() == base.len() + j,
                forall|i: int| 0 <= i < base.len() + j ==> scores_at(g, &sc, i, #[trigger] full[i]),
                sc.fired == fire_count(full, g.degree@, t as int, base.len() + j),
                sc.fired <= base.len() + j,
            decreases row@.len() - j,
        {
            let v = row[j].0;
            proof {
                assert(full[base.len() + j] == (u, j, v));
            }
            let du = g.degree[u];
            let dv = g.degree[v];
            let tri = triangles(&ns, u, v);
            let fo = forman(g, &ns, u, v);
            proof {
                assert(ns@[u as int]@.intersect(ns@[v as int]@) =~= common(g.adj@, n as int, u as int, v as int));
            }
            sc.pairs.push((u, v));
            sc.degree_sum.push(du as u128 + dv as u128);
            sc.forman.push(fo);
            sc.triangle.push(tri);
            if du <= t && dv <= t {
                sc.fired = sc.fired + 1;
            }
            j = j + 1;
        }
        proof {
            lemma_arc_list(g.adj@, u + 1);
            assert forall|i: int| 0 <= i < base.len() implies base[i] == full[i] by {}
            assert forall|k: int| 0 <= k <= base.len() implies fire_count(full, g.degree@, t as int, k)
                == fire_count(base, g.degree@, t as int, k) by {
                lemma_fire_prefix(base, full, g.degree@, t as int, k);
            }
        }
        u = u + 1;
    }
    proof {
        lemma_arc_list(g.adj@, n as int);
        assert(g.adj@.subrange(0, n as int) == g.adj@);
    }
    sc
}

/// Counts over two lists that agree on their first `k` arcs agree.
pub proof fn lemma_fire_prefix(
    a: Seq<(usize, usize, usize)>,
    b: Seq<(usize, usize, usize)>,
    degree: Seq<usize>,
    t: int,
    k: int,
)
    requires
        0 <= k <= a.len(),
        k <= b.len(),
        forall|i: int| 0 <= i < k ==> a[i] == b[i],
    ensures
        fire_count(b, degree, t, k) == fire_count(a, degree, t, k),
    decreases k,
{
    if k > 0 {
        lemma_fire_prefix(a, b, degree, t, k - 1);
    }
}

impl SortKey for i128 {
    open spec fn key_le(self, other: Self) -> bool {
        self <= other
    }

    fn le(&self, other: &Self) -> (r: bool) {
        *self <= *other
    }

    proof fn lemma_total(a: Self, b: Self) {
    }

    proof fn lemma_trans(a: Self, b: Self, c: Self) {
    }
}

/// `o` lists the same scores as `s`, from highest to lowest.
pub open spec fn descending_order(o: Seq<i128>, s: Seq<i128>) -> bool {
    &&& o.to_multiset() == s.to_multiset()
    &&& forall|i: int, j: int| 0 <= i < j < o.len() ==> o[i] >= o[j]
}

/// Number of entries of `s` at or above `x`; strictly above when `strict`.
pub open spec fn count_from(s: Seq<i128>, x: i128, strict: bool) -> nat
    decreases s.len(),
{
    if s.len() == 0 {
        0
    } else {
        count_from(s.drop_last(), x, strict) + if (strict && s.last() > x) || (!strict && s.last() >= x) {
            1nat
        } else {
            0nat
        }
    }
}

proof fn lemma_count_remove(s: Seq<i128>, i: int, x: i128, strict: bool)
    requires
        0 <= i < s.len(),
    ensures
        count_from(s, x, strict) == count_from(s.remove(i), x, strict) + if (strict && s[i] > x) || (
        !strict && s[i] >= x) {
            1nat
        } else {
            0nat
        },
    decreases s.len(),
{
    if i == s.len() - 1 {
        assert(s.remove(i) == s.drop_last());
    } else {
        assert(s.remove(i).drop_last() == s.drop_last().remove(i));
        assert(s.remove(i).last() == s.last());
        lemma_count_remove(s.drop_last(), i, x, strict);
    }
}

/// Counts depend only on the multiset of entries.
proof fn lemma_count_perm(s1: Seq<i128>, s2: Seq<i128>, x: i128, strict: bool)
    requires
        s1.to_multiset() == s2.to_multiset(),
    ensures
        count_from(s1, x, strict) == count_from(s2, x, strict),
    decreases s1.len(),
{
    broadcast use {vstd::seq_lib::to_multiset_contains, vstd::multiset::group_multiset_axioms};

    vstd::seq_lib::to_multiset_len(s1);
    vstd::seq_lib::to_multiset_len(s2);
    if s1.len() > 0 {
        let a = s1.last();
        let t = s1.drop_last();
        assert(t.push(a) == s1);
        vstd::seq_lib::to_multiset_build(t, a);
        assert(s2.to_multiset().count(a) > 0);
        assert(s2.contains(a));
        let i = choose|i: int| 0 <= i < s2.len() && s2[i] == a;
        vstd::seq_lib::to_multiset_remove(s2, i);
        assert(s2.remove(i).to_multiset() =~= t.to_multiset());
        lemma_count_perm(t, s2.remove(i), x, strict);
        lemma_count_remove(s2, i, x, strict);
    }
}

/// On a descending list with `x` its entry of rank `f - 1`, the first `k`
/// entries hold at least `min(k, f)` at or above `x` and at most
/// `min(k, f - 1)` strictly above it.
proof fn lemma_count_descending(o: Seq<i128>, f: int, k: int)
    requires
        1 <= f <= o.len(),
        0 <= k <= o.len(),
        forall|i: int, j: int| 0 <= i < j < o.len() ==> o[i] >= o[j],
    ensures
        count_from(o.take(k), o[f - 1], false) >= if k < f { k } else { f },
        count_from(o.take(k), o[f - 1], true) <= if k < f - 1 { k } else { f - 1 },
    decreases k,
{
    if k > 0 {
        assert(o.take(k).drop_last() == o.take(k - 1));
        assert(o.take(k).last() == o[k - 1]);
        lemma_count_descending(o, f, k - 1);
    }
}

/// Entries at or above `x` are those strictly above it plus the copies of `x`.
proof fn lemma_count_split(s: Seq<i128>, x: i128)
    ensures
        count_from(s, x, false) == count_from(s, x, true) + s.to_multiset().count(x),
    decreases s.len(),
{
    broadcast use {vstd::seq_lib::to_multiset_len, vstd::multiset::group_multiset_axioms};

    if s.len() == 0 {
        assert(s.to_multiset().len() == 0);
        assert(s.to_multiset().count(x) == 0);
    } else {
        let t = s.drop_last();
        assert(t.push(s.last()) == s);
        vstd::seq_lib::to_multiset_build(t, s.last());
        lemma_count_split(t, x);
    }
}

/// The threshold at which the curvature gate fires on as many arcs as the
/// published gate: the `fired`-th highest of `scores` (the lowest score when
/// `fired` exceeds their number), so that at least `fired` scores lie at or
/// above it and fewer than `fired` strictly above, and exactly `fired` at or
/// above it when the scores are distinct. `None` when nothing may fire
/// (`fired` is 0) or there are no scores.
pub fn rate_matched_threshold(scores: &[i128], fired: usize) -> (r: Option<i128>)
    ensures
        r is None <==> (fired == 0 || scores@.len() == 0),
        r matches Some(x) ==> {
            let f = if fired < scores@.len() { fired as int } else { scores@.len() as int };
            &&& exists|o: Seq<i128>| descending_order(o, scores@) && x == o[f - 1]
            &&& count_from(scores@, x, false) >= f
            &&& count_from(scores@, x, true) < f
            &&& scores@.no_duplicates() ==> count_from(scores@, x, false) == f
        },
{
    let len = scores.len();
    if len == 0 || fired == 0 {
        return None;
    }
    let mut v: Vec<i128> = Vec::new();
    let mut i: usize = 0;
    while i < len
        invariant
            len == scores@.len(),
            i <= len,
            v@ == scores@.subrange(0, i as int),
        decreases len - i,
    {
        v.push(scores[i]);
        i = i + 1;
    }
    proof {
        assert(v@ == scores@);
    }
    let sorted = merge_sort(&v);
    let f = if fired < len {
        fired
    } else {
        len
    };
    let x = sorted[len - f];
    proof {
        let o = sorted@.reverse();
        sorted@.lemma_reverse_to_multiset();
        assert forall|a: int, b: int| 0 <= a < b < o.len() implies o[a] >= o[b] by {
            assert(sorted@[len - 1 - b].key_le(sorted@[len - 1 - a]));
        }
        assert(descending_order(o, scores@));
        assert(x == o[f - 1]);
        lemma_count_descending(o, f as int, len as int);
        assert(o.take(len as int) == o);
        lemma_count_perm(o, scores@, x, false);
        lemma_count_perm(o, scores@, x, true);
        if scores@.no_duplicates() {
            lemma_count_split(scores@, x);
            scores@.lemma_multiset_has_no_duplicates();
        }
    }
    Some(x)
}

impl CurveGate {
    /// True when this arm admits an edge whose endpoints have degrees `du`
    /// and `dv`, with curvature `forman` and `tri` triangles. `t` is the
    /// paper's degree threshold and `tau` the adaptive one; an absent
    /// curvature or triangle threshold admits no edge.
    pub fn fires(
        self,
        du: usize,
        dv: usize,
        t: usize,
        tau: usize,
        forman: i128,
        forman_threshold: Option<i128>,
        tri: usize,
        triangle_threshold: Option<i128>,
    ) -> (r: bool)
        ensures
            r == match self {
                CurveGate::Degree => du <= t && dv <= t,
                CurveGate::DegreeAdaptive => du <= tau && dv <= tau,
                CurveGate::Forman => match forman_threshold {
                    Some(x) => forman >= x,
                    None => false,
                },
                CurveGate::Triangle => match triangle_threshold {
                    Some(x) => tri >= x,
                    None => false,
                },
            },
    {
        match self {
            CurveGate::Degree => du <= t && dv <= t,
            CurveGate::DegreeAdaptive => du <= tau && dv <= tau,
            CurveGate::Forman => match forman_threshold {
                Some(x) => forman >= x,
                None => false,
            },
            CurveGate::Triangle => match triangle_threshold {
                Some(x) => (tri as i128) >= x,
                None => false,
            },
        }
    }
}

} // verus!
