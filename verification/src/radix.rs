//! Single-source shortest paths on integer arc weights with a monotone radix
//! heap: no rounding, exact distances.
use crate::graph::{arc_total, Graph};
use crate::mask::{lemma_count_update, lemma_row_bounds, row_count};
use crate::reorder::relabel;
use vstd::multiset::Multiset;
use vstd::prelude::*;

verus! {

broadcast use {
    vstd::multiset::group_multiset_axioms,
    vstd::seq_lib::to_multiset_build,
    vstd::seq_lib::to_multiset_contains,
    vstd::seq_lib::to_multiset_len,
};

/// A walk from `s` that takes arc `ix[k]` out of vertex `vs[k]` at step `k`.
pub open spec fn is_path(adj: Seq<Vec<(usize, u64)>>, s: int, vs: Seq<usize>, ix: Seq<usize>) -> bool
    decreases ix.len(),
{
    if ix.len() == 0 {
        vs.len() == 1 && vs[0] == s
    } else {
        let k = ix.len() - 1;
        &&& vs.len() == ix.len() + 1
        &&& is_path(adj, s, vs.drop_last(), ix.drop_last())
        &&& vs[k] < adj.len()
        &&& ix[k] < adj[vs[k] as int]@.len()
        &&& adj[vs[k] as int]@[ix[k] as int].0 == vs[k + 1]
    }
}

/// Total weight of the arcs taken by a walk, weights read as integers.
pub open spec fn path_weight(adj: Seq<Vec<(usize, u64)>>, vs: Seq<usize>, ix: Seq<usize>) -> int
    decreases ix.len(),
{
    if ix.len() == 0 {
        0
    } else {
        let k = ix.len() - 1;
        path_weight(adj, vs.drop_last(), ix.drop_last()) + adj[vs[k] as int]@[ix[k] as int].1
    }
}

/// Some walk from `s` ends at `v` with total weight at most `bound`.
pub open spec fn reaches(adj: Seq<Vec<(usize, u64)>>, s: int, v: int, bound: int) -> bool {
    exists|vs: Seq<usize>, ix: Seq<usize>|
        #[trigger] is_path(adj, s, vs, ix) && vs.last() == v && path_weight(adj, vs, ix) <= bound
}

/// Leaving any vertex reachable below `u64::MAX` along any of its arcs keeps
/// some walk within `u64::MAX`.
pub open spec fn sums_fit(adj: Seq<Vec<(usize, u64)>>, s: int) -> bool {
    forall|u: int, i: int| 0 <= u < adj.len() && 0 <= i < adj[u]@.len() ==> #[trigger] arc_fits(adj, s, u, i)
}

/// If `u` is reachable below `u64::MAX`, some walk to `u` followed by its
/// arc `i` stays within `u64::MAX`.
pub open spec fn arc_fits(adj: Seq<Vec<(usize, u64)>>, s: int, u: int, i: int) -> bool {
    reaches(adj, s, u, u64::MAX - 1) ==> reaches(adj, s, u, u64::MAX - adj[u]@[i].1)
}

/// Sum of the weights of the first `j` arcs of a row.
pub open spec fn row_weight(row: Seq<(usize, u64)>, j: int) -> int
    decreases j,
{
    if j <= 0 {
        0
    } else {
        row_weight(row, j - 1) + row[j - 1].1
    }
}

/// Sum of all arc weights in the first `k` rows.
pub open spec fn weight_total(adj: Seq<Vec<(usize, u64)>>, k: int) -> int
    decreases k,
{
    if k <= 0 {
        0
    } else {
        weight_total(adj, k - 1) + row_weight(adj[k - 1]@, adj[k - 1]@.len() as int)
    }
}

/// Sum of the full rows of the vertices listed in `l`.
spec fn rows_weight(adj: Seq<Vec<(usize, u64)>>, l: Seq<usize>) -> int
    decreases l.len(),
{
    if l.len() == 0 {
        0
    } else {
        rows_weight(adj, l.drop_last()) + row_weight(adj[l.last() as int]@, adj[l.last() as int]@.len() as int)
    }
}

proof fn lemma_row_weight(row: Seq<(usize, u64)>, j: int, i: int)
    requires
        0 <= i < j <= row.len(),
    ensures
        0 <= row[i].1 <= row_weight(row, j),
    decreases j,
{
    if j - 1 > i {
        lemma_row_weight(row, j - 1, i);
    } else {
        lemma_row_weight_nonneg(row, j - 1);
    }
}

proof fn lemma_row_weight_nonneg(row: Seq<(usize, u64)>, j: int)
    ensures
        row_weight(row, j) >= 0,
    decreases j,
{
    if j > 0 {
        lemma_row_weight_nonneg(row, j - 1);
    }
}

proof fn lemma_weight_total_grows(adj: Seq<Vec<(usize, u64)>>, k: int)
    requires
        k >= 1,
    ensures
        weight_total(adj, k - 1) <= weight_total(adj, k),
{
    lemma_row_weight_nonneg(adj[k - 1]@, adj[k - 1]@.len() as int);
}

proof fn lemma_rows_weight_remove(adj: Seq<Vec<(usize, u64)>>, l: Seq<usize>, p: int)
    requires
        0 <= p < l.len(),
    ensures
        rows_weight(adj, l) == rows_weight(adj, l.remove(p)) + row_weight(
            adj[l[p] as int]@,
            adj[l[p] as int]@.len() as int,
        ),
    decreases l.len(),
{
    if p == l.len() - 1 {
        assert(l.remove(p) == l.drop_last());
    } else {
        assert(l.remove(p).drop_last() == l.drop_last().remove(p));
        assert(l.remove(p).last() == l.last());
        lemma_rows_weight_remove(adj, l.drop_last(), p);
    }
}

/// Distinct vertices below `k` hold no more weight than the first `k` rows.
proof fn lemma_rows_weight_distinct(adj: Seq<Vec<(usize, u64)>>, l: Seq<usize>, k: int)
    requires
        0 <= k <= adj.len(),
        l.no_duplicates(),
        forall|i: int| 0 <= i < l.len() ==> #[trigger] l[i] < k,
    ensures
        rows_weight(adj, l) <= weight_total(adj, k),
    decreases k,
{
    if k == 0 {
        if l.len() > 0 {
            assert(l[0] < 0);
        }
    } else if exists|p: int| 0 <= p < l.len() && l[p] == k - 1 {
        let p = choose|p: int| 0 <= p < l.len() && l[p] == k - 1;
        let l2 = l.remove(p);
        assert forall|i: int| 0 <= i < l2.len() implies #[trigger] l2[i] < k - 1 by {
            if i < p {
                assert(l2[i] == l[i]);
            } else {
                assert(l2[i] == l[i + 1]);
            }
        }
        assert(l2.no_duplicates()) by {
            assert forall|a: int, b: int| 0 <= a < b < l2.len() implies l2[a] != l2[b] by {
                let a1 = if a < p { a } else { a + 1 };
                let b1 = if b < p { b } else { b + 1 };
                assert(l2[a] == l[a1] && l2[b] == l[b1]);
            }
        }
        lemma_rows_weight_remove(adj, l, p);
        lemma_rows_weight_distinct(adj, l2, k - 1);
    } else {
        assert forall|i: int| 0 <= i < l.len() implies #[trigger] l[i] < k - 1 by {
            assert(l[i] != k - 1);
        }
        lemma_rows_weight_distinct(adj, l, k - 1);
        lemma_weight_total_grows(adj, k);
    }
}

/// A walk has one more vertex than arcs and starts at `s`.
proof fn lemma_path_len(adj: Seq<Vec<(usize, u64)>>, s: int, vs: Seq<usize>, ix: Seq<usize>)
    requires
        is_path(adj, s, vs, ix),
    ensures
        vs.len() == ix.len() + 1,
        vs[0] == s,
    decreases ix.len(),
{
    if ix.len() > 0 {
        lemma_path_len(adj, s, vs.drop_last(), ix.drop_last());
    }
}

/// A prefix of a walk is a walk, and no heavier.
proof fn lemma_path_prefix(adj: Seq<Vec<(usize, u64)>>, s: int, vs: Seq<usize>, ix: Seq<usize>, p: int)
    requires
        is_path(adj, s, vs, ix),
        0 <= p <= ix.len(),
    ensures
        is_path(adj, s, vs.take(p + 1), ix.take(p)),
        path_weight(adj, vs.take(p + 1), ix.take(p)) <= path_weight(adj, vs, ix),
    decreases ix.len() - p,
{
    lemma_path_len(adj, s, vs, ix);
    if p == ix.len() {
        assert(vs.take(p + 1) == vs);
        assert(ix.take(p) == ix);
    } else {
        lemma_path_prefix(adj, s, vs.drop_last(), ix.drop_last(), p);
        assert(vs.drop_last().take(p + 1) == vs.take(p + 1));
        assert(ix.drop_last().take(p) == ix.take(p));
    }
}

/// Every walk to `v` can be shortened to one that visits no vertex twice.
proof fn lemma_simple_walk(adj: Seq<Vec<(usize, u64)>>, s: int, vs: Seq<usize>, ix: Seq<usize>) -> (r: (
    Seq<usize>,
    Seq<usize>,
))
    requires
        is_path(adj, s, vs, ix),
    ensures
        is_path(adj, s, r.0, r.1),
        r.0.last() == vs.last(),
        r.0.no_duplicates(),
        path_weight(adj, r.0, r.1) <= path_weight(adj, vs, ix),
    decreases ix.len(),
{
    lemma_path_len(adj, s, vs, ix);
    if ix.len() == 0 {
        assert(vs == seq![vs[0]]);
        (vs, ix)
    } else {
        let k = ix.len() - 1;
        let (a, b) = lemma_simple_walk(adj, s, vs.drop_last(), ix.drop_last());
        lemma_path_len(adj, s, a, b);
        let v = vs[k + 1];
        assert(adj[vs[k] as int]@[ix[k] as int].0 == v);
        assert(a.last() == vs[k]);
        if a.contains(v) {
            let p = choose|p: int| 0 <= p < a.len() && a[p] == v;
            lemma_path_prefix(adj, s, a, b, p);
            assert(a.take(p + 1).last() == v);
            lemma_row_weight_nonneg(adj[vs[k] as int]@, 0);
            (a.take(p + 1), b.take(p))
        } else {
            lemma_path_extend(adj, s, a, b, ix[k]);
            assert(vs.last() == v);
            (a.push(v), b.push(ix[k]))
        }
    }
}

/// A walk weighs no more than the full rows of the vertices it leaves.
proof fn lemma_walk_rows(adj: Seq<Vec<(usize, u64)>>, s: int, vs: Seq<usize>, ix: Seq<usize>)
    requires
        is_path(adj, s, vs, ix),
    ensures
        path_weight(adj, vs, ix) <= rows_weight(adj, vs.drop_last()),
    decreases ix.len(),
{
    lemma_path_len(adj, s, vs, ix);
    if ix.len() > 0 {
        let k = ix.len() - 1;
        lemma_walk_rows(adj, s, vs.drop_last(), ix.drop_last());
        lemma_row_weight(adj[vs[k] as int]@, adj[vs[k] as int]@.len() as int, ix[k] as int);
        assert(vs.drop_last().drop_last() == vs.drop_last().drop_last());
        assert(vs.drop_last().last() == vs[k]);
    }
}

/// When all arc weights together fit in `u64`, no sum along a walk to a
/// reachable vertex and on along one of its arcs leaves `u64`: `radix`'s
/// `sums_fit` holds from every source.
pub proof fn lemma_total_weight_fits(adj: Seq<Vec<(usize, u64)>>, s: int)
    requires
        weight_total(adj, adj.len() as int) <= u64::MAX,
    ensures
        sums_fit(adj, s),
{
    assert forall|u: int, i: int| 0 <= u < adj.len() && 0 <= i < adj[u]@.len() implies #[trigger] arc_fits(
        adj,
        s,
        u,
        i,
    ) by {
        if reaches(adj, s, u, u64::MAX - 1) {
            let (vs, ix) = choose|vs: Seq<usize>, ix: Seq<usize>|
                #[trigger] is_path(adj, s, vs, ix) && vs.last() == u && path_weight(adj, vs, ix) <= u64::MAX - 1;
            let (a, b) = lemma_simple_walk(adj, s, vs, ix);
            lemma_path_len(adj, s, a, b);
            lemma_walk_rows(adj, s, a, b);
            lemma_row_weight(adj[u]@, adj[u]@.len() as int, i);
            assert(a.drop_last().push(u as usize) == a);
            assert forall|t: int| 0 <= t < a.len() implies #[trigger] a[t] < adj.len() by {
                if t < a.len() - 1 {
                    lemma_path_prefix(adj, s, a, b, t + 1);
                    path_tail_in_range(adj, s, a.take(t + 2), b.take(t + 1));
                    assert(a.take(t + 2)[t] == a[t]);
                }
            }
            lemma_rows_weight_distinct(adj, a, adj.len() as int);
            assert(reaches(adj, s, u, u64::MAX - adj[u]@[i].1));
        }
    }
}

proof fn path_tail_in_range(adj: Seq<Vec<(usize, u64)>>, s: int, vs: Seq<usize>, ix: Seq<usize>)
    requires
        is_path(adj, s, vs, ix),
        ix.len() >= 1,
    ensures
        vs[ix.len() - 1] < adj.len(),
{
}

/// `x` belongs to radix bucket `k` relative to `last`: bucket 0 holds `last`
/// itself, bucket `k > 0` the values whose highest bit differing from `last`
/// is bit `k - 1`.
pub open spec fn in_bucket(x: u64, last: u64, k: int) -> bool {
    if k == 0 {
        x == last
    } else {
        1 <= k <= 64 && (x ^ last) >> ((k - 1) as u64) == 1u64
    }
}

proof fn lemma_bucket_order_bits(x: u64, y: u64, l: u64, a: u64, b: u64)
    requires
        x >= l,
        y >= l,
        a < b < 64,
        (x ^ l) >> a == 1u64,
        (y ^ l) >> b == 1u64,
    ensures
        x < y,
{
    assert(x >= l && y >= l && a < b && b < 64 && (x ^ l) >> a == 1u64 && (y ^ l) >> b == 1u64 ==> x
        < y) by (bit_vector);
}

/// Values above `last` in a lower bucket are smaller than those in a higher one.
pub proof fn lemma_bucket_order(x: u64, y: u64, last: u64, a: int, b: int)
    requires
        x >= last,
        y >= last,
        in_bucket(x, last, a),
        in_bucket(y, last, b),
        a < b,
    ensures
        x < y,
{
    if a == 0 {
        assert(y != last) by {
            let c = (b - 1) as u64;
            assert(y == last ==> (y ^ last) >> c == 0u64) by (bit_vector);
        }
    } else {
        lemma_bucket_order_bits(x, y, last, (a - 1) as u64, (b - 1) as u64);
    }
}

proof fn lemma_bucket_stable_bits(x: u64, l: u64, m: u64, a: u64, b: u64)
    requires
        a < b < 64,
        (m ^ l) >> a == 1u64,
        (x ^ l) >> b == 1u64,
    ensures
        (x ^ m) >> b == 1u64,
{
    assert(a < b && b < 64 && (m ^ l) >> a == 1u64 && (x ^ l) >> b == 1u64 ==> (x ^ m) >> b == 1u64)
        by (bit_vector);
}

/// Raising the reference from `last` to a value `m` of bucket `j` keeps every
/// value of a higher bucket in the same bucket.
pub proof fn lemma_bucket_stable(x: u64, last: u64, m: u64, j: int, k: int)
    requires
        in_bucket(m, last, j),
        in_bucket(x, last, k),
        0 < j < k,
    ensures
        in_bucket(x, m, k),
{
    lemma_bucket_stable_bits(x, last, m, (j - 1) as u64, (k - 1) as u64);
}

/// The radix bucket of `x` relative to `last`.
fn bucket_of(x: u64, last: u64) -> (k: usize)
    ensures
        k <= 64,
        in_bucket(x, last, k as int),
{
    if x == last {
        0
    } else {
        let d = x ^ last;
        let z = d.leading_zeros();
        proof {
            vstd::std_specs::bits::axiom_u64_leading_zeros(d);
            assert(d != 0) by (bit_vector)
                requires
                    x != last,
                    d == x ^ last,
            ;
            let a = (63 - z) as u64;
            assert((d >> a) & 1u64 != 0u64);
            assert(a < 63 ==> d >> ((a + 1) as u64) == 0u64);
            assert(d >> a == 1u64) by (bit_vector)
                requires
                    a < 64,
                    (d >> a) & 1u64 != 0u64,
                    a < 63 ==> d >> ((a + 1) as u64) == 0u64,
            ;
        }
        (64 - z) as usize
    }
}

/// A value is in bucket 0 relative to itself and in no other.
proof fn lemma_bucket_self(x: u64, k: int)
    requires
        in_bucket(x, x, k),
    ensures
        k == 0,
{
    if k != 0 {
        let c = (k - 1) as u64;
        assert((x ^ x) >> c == 0u64) by (bit_vector);
    }
}

/// Entries `(value, vertex)` held by the first `k` buckets.
pub open spec fn bag(b: Seq<Vec<(u64, usize)>>, k: int) -> Multiset<(u64, usize)>
    decreases k,
{
    if k <= 0 {
        Multiset::empty()
    } else {
        bag(b, k - 1).add(b[k - 1]@.to_multiset())
    }
}

/// Entry `e` may sit in bucket `k` while the heap's reference is `last`.
pub open spec fn entry_ok(e: (u64, usize), last: u64, k: int) -> bool {
    e.0 >= last && in_bucket(e.0, last, k)
}

/// The radix-heap layout: 65 buckets, each entry at least `last` and in its
/// radix bucket relative to `last`.
pub open spec fn buckets_ok(b: Seq<Vec<(u64, usize)>>, last: u64) -> bool {
    &&& b.len() == 65
    &&& forall|k: int, i: int| 0 <= k < 65 && 0 <= i < b[k]@.len() ==> #[trigger] entry_ok(b[k]@[i], last, k)
}

proof fn lemma_bag_set(b: Seq<Vec<(u64, usize)>>, j: int, nv: Vec<(u64, usize)>, k: int)
    requires
        0 <= j < b.len(),
        0 <= k <= b.len(),
    ensures
        j < k ==> bag(b.update(j, nv), k).add(b[j]@.to_multiset()) =~= bag(b, k).add(nv@.to_multiset()),
        j >= k ==> bag(b.update(j, nv), k) =~= bag(b, k),
    decreases k,
{
    if k > 0 {
        lemma_bag_set(b, j, nv, k - 1);
        let b2 = b.update(j, nv);
        assert(bag(b2, k) == bag(b2, k - 1).add(b2[k - 1]@.to_multiset()));
        assert(bag(b, k) == bag(b, k - 1).add(b[k - 1]@.to_multiset()));
        if j == k - 1 {
            assert(b2[k - 1] == nv);
            assert(bag(b2, k - 1) =~= bag(b, k - 1));
            assert(bag(b2, k).add(b[j]@.to_multiset()) =~= bag(b, k).add(nv@.to_multiset()));
        } else if j < k - 1 {
            assert(b2[k - 1] == b[k - 1]);
            let x = bag(b2, k - 1).add(b[j]@.to_multiset());
            let y = bag(b, k - 1).add(nv@.to_multiset());
            assert(x =~= y);
            assert(bag(b2, k).add(b[j]@.to_multiset()) =~= x.add(b[k - 1]@.to_multiset()));
            assert(bag(b, k).add(nv@.to_multiset()) =~= y.add(b[k - 1]@.to_multiset()));
        } else {
            assert(b2[k - 1] == b[k - 1]);
        }
    }
}

proof fn lemma_bag_member(b: Seq<Vec<(u64, usize)>>, k: int, e: (u64, usize))
    requires
        0 <= k <= b.len(),
        bag(b, k).count(e) > 0,
    ensures
        exists|kk: int, i: int| 0 <= kk < k && 0 <= i < b[kk]@.len() && b[kk]@[i] == e,
    decreases k,
{
    if bag(b, k - 1).count(e) > 0 {
        lemma_bag_member(b, k - 1, e);
    } else {
        assert(b[k - 1]@.to_multiset().count(e) > 0);
        assert(b[k - 1]@.contains(e));
        let row = b[k - 1]@;
        let i = choose|i: int| 0 <= i < row.len() && #[trigger] row[i] == e;
        assert(b[k - 1]@[i] == e);
    }
}

proof fn lemma_bag_empty(b: Seq<Vec<(u64, usize)>>, k: int)
    requires
        0 <= k <= b.len(),
        forall|kk: int| 0 <= kk < k ==> (#[trigger] b[kk])@.len() == 0,
    ensures
        bag(b, k).len() == 0,
    decreases k,
{
    if k > 0 {
        lemma_bag_empty(b, k - 1);
        assert(b[k - 1]@.to_multiset().len() == 0);
    }
}

/// Every entry held is at least `last`.
proof fn lemma_bag_above(b: Seq<Vec<(u64, usize)>>, last: u64, e: (u64, usize))
    requires
        buckets_ok(b, last),
        bag(b, 65).count(e) > 0,
    ensures
        e.0 >= last,
{
    lemma_bag_member(b, 65, e);
    let (kk, i) = choose|kk: int, i: int| 0 <= kk < 65 && 0 <= i < b[kk]@.len() && b[kk]@[i] == e;
    assert(entry_ok(b[kk]@[i], last, kk));
}

/// Appends `e` to bucket `k`.
fn push_entry(buckets: &mut Vec<Vec<(u64, usize)>>, k: usize, e: (u64, usize))
    requires
        old(buckets)@.len() == 65,
        k < 65,
    ensures
        final(buckets)@.len() == 65,
        final(buckets)@[k as int]@ == old(buckets)@[k as int]@.push(e),
        forall|kk: int| 0 <= kk < 65 && kk != k ==> #[trigger] final(buckets)@[kk] == old(buckets)@[kk],
        bag(final(buckets)@, 65) == bag(old(buckets)@, 65).insert(e),
{
    let ghost b0 = buckets@;
    let mut slot: Vec<(u64, usize)> = Vec::new();
    std::mem::swap(&mut buckets[k], &mut slot);
    slot.push(e);
    std::mem::swap(&mut buckets[k], &mut slot);
    proof {
        assert(buckets@ =~= b0.update(k as int, buckets@[k as int]));
        lemma_bag_set(b0, k as int, buckets@[k as int], 65);
        assert(b0[k as int]@.push(e).to_multiset() =~= b0[k as int]@.to_multiset().insert(e));
        let x = bag(buckets@, 65);
        let y = bag(b0, 65);
        let bk = b0[k as int]@.to_multiset();
        let nk = buckets@[k as int]@.to_multiset();
        assert(x.add(bk) =~= y.add(nk));
        assert forall|v: (u64, usize)| x.count(v) == y.insert(e).count(v) by {
            assert(x.add(bk).count(v) == y.add(nk).count(v));
        }
        assert(x =~= y.insert(e));
    }
}

/// Removes and returns the last entry of bucket `k`.
fn pop_entry(buckets: &mut Vec<Vec<(u64, usize)>>, k: usize) -> (e: (u64, usize))
    requires
        old(buckets)@.len() == 65,
        k < 65,
        old(buckets)@[k as int]@.len() > 0,
    ensures
        final(buckets)@.len() == 65,
        e == old(buckets)@[k as int]@.last(),
        final(buckets)@[k as int]@ == old(buckets)@[k as int]@.drop_last(),
        forall|kk: int| 0 <= kk < 65 && kk != k ==> #[trigger] final(buckets)@[kk] == old(buckets)@[kk],
        bag(old(buckets)@, 65).count(e) > 0,
        bag(final(buckets)@, 65) == bag(old(buckets)@, 65).remove(e),
{
    let ghost b0 = buckets@;
    let mut slot: Vec<(u64, usize)> = Vec::new();
    std::mem::swap(&mut buckets[k], &mut slot);
    let e = match slot.pop() {
        Some(e) => e,
        None => {
            proof {
                assert(false);
            }
            (0, 0)
        },
    };
    std::mem::swap(&mut buckets[k], &mut slot);
    proof {
        let s0 = b0[k as int]@;
        assert(s0 == s0.drop_last().push(e));
        assert(s0.drop_last().push(e).to_multiset() =~= s0.drop_last().to_multiset().insert(e));
        assert(s0.to_multiset().count(e) > 0);
        assert(buckets@ =~= b0.update(k as int, buckets@[k as int]));
        lemma_bag_set(b0, k as int, buckets@[k as int], 65);
        let x = bag(buckets@, 65);
        let y = bag(b0, 65);
        let bk = s0.to_multiset();
        let nk = buckets@[k as int]@.to_multiset();
        assert(bk =~= nk.insert(e));
        assert(x.add(bk) =~= y.add(nk));
        assert(y.add(nk).count(e) == x.add(bk).count(e));
        assert(y.count(e) > 0);
        assert forall|v: (u64, usize)| x.count(v) == y.remove(e).count(v) by {
            assert(x.add(bk).count(v) == y.add(nk).count(v));
        }
        assert(x =~= y.remove(e));
    }
    e
}

/// Moves the entries of the first non-empty bucket down below a new
/// reference, the least value among them, once bucket 0 has run dry.
fn refill(buckets: &mut Vec<Vec<(u64, usize)>>, last: u64) -> (m: u64)
    requires
        buckets_ok(old(buckets)@, last),
        old(buckets)@[0]@.len() == 0,
        bag(old(buckets)@, 65).len() > 0,
    ensures
        buckets_ok(final(buckets)@, m),
        m >= last,
        final(buckets)@[0]@.len() > 0,
        bag(final(buckets)@, 65) == bag(old(buckets)@, 65),
{
    let ghost b0 = buckets@;
    let mut j: usize = 1;
    while j < 65 && buckets[j].len() == 0
        invariant
            buckets@ == b0,
            b0.len() == 65,
            1 <= j <= 65,
            forall|kk: int| 0 <= kk < j ==> (#[trigger] b0[kk])@.len() == 0,
        decreases 65 - j,
    {
        j = j + 1;
    }
    if j == 65 {
        proof {
            lemma_bag_empty(b0, 65);
        }
        return last;
    }
    let mut moved: Vec<(u64, usize)> = Vec::new();
    std::mem::swap(&mut buckets[j], &mut moved);
    proof {
        assert(buckets@ =~= b0.update(j as int, buckets@[j as int]));
        lemma_bag_set(b0, j as int, buckets@[j as int], 65);
    }
    let mut m: u64 = moved[0].0;
    let mut p: usize = 1;
    while p < moved.len()
        invariant
            1 <= p <= moved@.len(),
            exists|q: int| 0 <= q < p && moved@[q].0 == m,
            forall|q: int| 0 <= q < p ==> m <= (#[trigger] moved@[q]).0,
        decreases moved@.len() - p,
    {
        if moved[p].0 < m {
            m = moved[p].0;
        }
        p = p + 1;
    }
    proof {
        let q = choose|q: int| 0 <= q < moved@.len() && moved@[q].0 == m;
        assert(entry_ok(b0[j as int]@[q], last, j as int));
        assert forall|kk: int, i: int| 0 <= kk < 65 && 0 <= i < buckets@[kk]@.len() implies #[trigger] entry_ok(
            buckets@[kk]@[i],
            m,
            kk,
        ) by {
            assert(kk > j);
            assert(entry_ok(b0[kk]@[i], last, kk));
            lemma_bucket_stable(b0[kk]@[i].0, last, m, j as int, kk);
            lemma_bucket_order(m, b0[kk]@[i].0, last, j as int, kk);
        }
        assert forall|q: int| 0 <= q < moved@.len() implies (#[trigger] moved@[q]).0 >= last by {
            assert(entry_ok(b0[j as int]@[q], last, j as int));
        }
    }
    while moved.len() > 0
        invariant
            buckets_ok(buckets@, m),
            m >= last,
            forall|q: int| 0 <= q < moved@.len() ==> m <= (#[trigger] moved@[q]).0,
            buckets@[0]@.len() > 0 || exists|q: int| 0 <= q < moved@.len() && moved@[q].0 == m,
            bag(buckets@, 65).add(moved@.to_multiset()) == bag(b0, 65),
        decreases moved@.len(),
    {
        let ghost mv = moved@;
        let e = match moved.pop() {
            Some(e) => e,
            None => {
                proof {
                    assert(false);
                }
                (0, 0)
            },
        };
        proof {
            assert(mv == moved@.push(e));
            assert(moved@.push(e).to_multiset() =~= moved@.to_multiset().insert(e));
        }
        let k = bucket_of(e.0, m);
        let ghost bb = buckets@;
        push_entry(buckets, k, e);
        proof {
            assert(bag(buckets@, 65).add(moved@.to_multiset()) =~= bag(b0, 65));
            assert forall|kk: int, i: int| 0 <= kk < 65 && 0 <= i < buckets@[kk]@.len() implies #[trigger] entry_ok(
                buckets@[kk]@[i],
                m,
                kk,
            ) by {
                if kk == k && i == bb[kk]@.len() {
                } else {
                    assert(buckets@[kk]@[i] == bb[kk]@[i]);
                }
            }
            if e.0 == m {
                lemma_bucket_self(m, k as int);
            }
            if bb[0]@.len() == 0 && !(exists|q: int| 0 <= q < moved@.len() && moved@[q].0 == m) {
                let q = choose|q: int| 0 <= q < mv.len() && mv[q].0 == m;
                assert(q == moved@.len());
            }
        }
    }
    proof {
        vstd::seq_lib::to_multiset_len(moved@);
        assert(moved@.to_multiset() =~= Multiset::empty());
    }
    m
}

/// Every arc out of `u` is relaxed: its head's label is at most `u`'s
/// label plus the arc's weight.
pub open spec fn relaxed(adj: Seq<Vec<(usize, u64)>>, d: Seq<u64>, u: int) -> bool {
    forall|i: int| 0 <= i < adj[u]@.len() ==> d[adj[u]@[i].0 as int] <= d[u] + (#[trigger] adj[u]@[i]).1
}

/// Arcs leaving the settled vertices.
pub open spec fn settled_arcs(done: Seq<bool>, adj: Seq<Vec<(usize, u64)>>) -> int
    decreases adj.len(),
{
    if adj.len() == 0 {
        0
    } else {
        settled_arcs(done.drop_last(), adj.drop_last()) + if done.last() {
            adj.last()@.len() as int
        } else {
            0int
        }
    }
}

proof fn lemma_settled_bound(done: Seq<bool>, adj: Seq<Vec<(usize, u64)>>)
    requires
        done.len() == adj.len(),
    ensures
        0 <= settled_arcs(done, adj) <= arc_total(adj),
    decreases adj.len(),
{
    if adj.len() > 0 {
        lemma_settled_bound(done.drop_last(), adj.drop_last());
    }
}

proof fn lemma_settled_update(done: Seq<bool>, adj: Seq<Vec<(usize, u64)>>, p: int)
    requires
        done.len() == adj.len(),
        0 <= p < done.len(),
        !done[p],
    ensures
        settled_arcs(done.update(p, true), adj) == settled_arcs(done, adj) + adj[p]@.len(),
    decreases adj.len(),
{
    if p == adj.len() - 1 {
        assert(done.update(p, true).drop_last() =~= done.drop_last());
    } else {
        lemma_settled_update(done.drop_last(), adj.drop_last(), p);
        assert(done.update(p, true).drop_last() =~= done.drop_last().update(p, true));
    }
}

/// Following arc `i` out of the end of a walk gives a walk whose weight
/// grows by that arc's weight.
proof fn lemma_path_extend(adj: Seq<Vec<(usize, u64)>>, s: int, vs: Seq<usize>, ix: Seq<usize>, i: usize)
    requires
        is_path(adj, s, vs, ix),
        vs.last() < adj.len(),
        i < adj[vs.last() as int]@.len(),
    ensures
        is_path(adj, s, vs.push(adj[vs.last() as int]@[i as int].0), ix.push(i)),
        path_weight(adj, vs.push(adj[vs.last() as int]@[i as int].0), ix.push(i)) == path_weight(
            adj,
            vs,
            ix,
        ) + adj[vs.last() as int]@[i as int].1,
        vs.push(adj[vs.last() as int]@[i as int].0).last() == adj[vs.last() as int]@[i as int].0,
{
    lemma_path_len(adj, s, vs, ix);
    let v = adj[vs.last() as int]@[i as int].0;
    assert(vs.push(v).drop_last() == vs);
    assert(ix.push(i).drop_last() == ix);
}

/// Along any walk from `s`, either the weight reaches `theta`, or the walk
/// ends at a settled vertex whose label is at most the weight; this holds
/// while every unsettled label is at least `theta`, every settled vertex is
/// relaxed and `s` is labelled 0.
proof fn lemma_frontier(
    adj: Seq<Vec<(usize, u64)>>,
    s: int,
    d: Seq<u64>,
    done: Seq<bool>,
    theta: int,
    vs: Seq<usize>,
    ix: Seq<usize>,
)
    requires
        is_path(adj, s, vs, ix),
        0 <= s < adj.len(),
        d.len() == adj.len(),
        done.len() == adj.len(),
        d[s] == 0,
        forall|u: int, i: int|
            0 <= u < adj.len() && 0 <= i < adj[u]@.len() ==> (#[trigger] adj[u]@[i]).0 < adj.len(),
        forall|v: int| 0 <= v < adj.len() && !done[v] ==> theta <= #[trigger] d[v],
        forall|u: int| 0 <= u < adj.len() && #[trigger] done[u] ==> relaxed(adj, d, u),
    ensures
        vs.last() < adj.len(),
        path_weight(adj, vs, ix) >= theta || (done[vs.last() as int] && d[vs.last() as int] <= path_weight(
            adj,
            vs,
            ix,
        )),
    decreases ix.len(),
{
    if ix.len() == 0 {
        if !done[s] {
            assert(theta <= d[s]);
        }
    } else {
        let k = ix.len() - 1;
        let pv = vs.drop_last();
        let pi = ix.drop_last();
        lemma_frontier(adj, s, d, done, theta, pv, pi);
        lemma_path_len(adj, s, pv, pi);
        let u = vs[k] as int;
        assert(pv.last() == vs[k]);
        let a = adj[u]@[ix[k] as int];
        assert(a.0 == vs.last());
        if path_weight(adj, pv, pi) < theta {
            assert(done[u]);
            assert(relaxed(adj, d, u));
            assert(d[a.0 as int] <= d[u] + a.1);
            let v = vs.last() as int;
            if !done[v] {
                assert(theta <= d[v]);
            }
        }
    }
}

/// `d` gives every vertex the least weight of a walk to it from `s`, or
/// `u64::MAX` when no walk reaches it below `u64::MAX`.
pub open spec fn exact_distances(adj: Seq<Vec<(usize, u64)>>, s: int, d: Seq<u64>) -> bool {
    &&& d.len() == adj.len()
    &&& forall|v: int| 0 <= v < d.len() && #[trigger] d[v] < u64::MAX ==> reaches(adj, s, v, d[v] as int)
    &&& forall|vs: Seq<usize>, ix: Seq<usize>|
        #[trigger] is_path(adj, s, vs, ix) ==> vs.last() < d.len() && d[vs.last() as int] <= path_weight(
            adj,
            vs,
            ix,
        )
}

/// Shortest-path distances from `s` with the arc weights of `g` read as
/// unsigned integers, computed by Dijkstra's algorithm over a monotone radix
/// heap. A vertex gets the least weight of a walk to it from `s`, or
/// `u64::MAX` when no walk reaches it below `u64::MAX`.
pub fn radix(g: &Graph, s: usize) -> (dist: Vec<u64>)
    requires
        g.wf(),
        g.heads_in_range(),
        s < g.n,
        g.m < usize::MAX,
        sums_fit(g.adj@, s as int),
    ensures
        exact_distances(g.adj@, s as int, dist@),
{
    let n = g.n;
    let ghost adj = g.adj@;
    let mut buckets: Vec<Vec<(u64, usize)>> = Vec::new();
    let mut k: usize = 0;
    while k < 65
        invariant
            k <= 65,
            buckets@.len() == k,
            forall|kk: int| 0 <= kk < k ==> (#[trigger] buckets@[kk])@.len() == 0,
        decreases 65 - k,
    {
        buckets.push(Vec::new());
        k = k + 1;
    }
    let mut d: Vec<u64> = Vec::new();
    let mut v: usize = 0;
    while v < n
        invariant
            v <= n,
            d@.len() == v,
            forall|x: int| 0 <= x < v ==> d@[x] == u64::MAX,
        decreases n - v,
    {
        d.push(u64::MAX);
        v = v + 1;
    }
    d.set(s, 0);
    proof {
        lemma_bag_empty(buckets@, 65);
        assert(bag(buckets@, 65) =~= Multiset::empty());
    }
    let ghost b0 = buckets@;
    push_entry(&mut buckets, 0, (0, s));
    let mut last: u64 = 0;
    let mut len: usize = 1;
    let ghost mut done: Seq<bool> = Seq::new(n as nat, |i: int| false);
    proof {
        assert forall|kk: int, i: int| 0 <= kk < 65 && 0 <= i < buckets@[kk]@.len() implies #[trigger] entry_ok(
            buckets@[kk]@[i],
            last,
            kk,
        ) by {
            if kk != 0 {
                assert(buckets@[kk] == b0[kk]);
            }
        }
        assert forall|w: int| 0 <= w < n && d@[w] < u64::MAX implies reaches(adj, s as int, w, d@[w] as int) by {
            assert(w == s);
            let vs = seq![s];
            let ix = Seq::<usize>::empty();
            assert(is_path(adj, s as int, vs, ix));
        }
        lemma_settled_bound(done, adj);
        assert(settled_arcs(done, adj) == 0) by {
            lemma_settled_zero(done, adj);
        }
    }
    while len > 0
        invariant
            n == g.n,
            adj == g.adj@,
            g.wf(),
            g.heads_in_range(),
            s < n,
            g.m < usize::MAX,
            sums_fit(adj, s as int),
            buckets_ok(buckets@, last),
            len == bag(buckets@, 65).len(),
            forall|e: (u64, usize)| #[trigger] bag(buckets@, 65).count(e) > 0 ==> e.1 < n && e.0 < u64::MAX,
            d@.len() == n,
            done.len() == n,
            d@[s as int] == 0,
            forall|w: int|
                0 <= w < n && !done[w] && d@[w] < u64::MAX ==> #[trigger] bag(buckets@, 65).count(
                    (d@[w], w as usize),
                ) > 0,
            forall|w: int| 0 <= w < n && #[trigger] done[w] ==> d@[w] <= last,
            forall|w: int| 0 <= w < n && #[trigger] done[w] ==> relaxed(adj, d@, w),
            forall|w: int|
                0 <= w < n && #[trigger] d@[w] < u64::MAX ==> reaches(adj, s as int, w, d@[w] as int),
            len <= 1 + settled_arcs(done, adj),
            settled_arcs(done, adj) <= g.m,
        decreases n - row_count(done, n as int), len,
    {
        proof {
            lemma_row_bounds(done, Seq::empty(), Seq::empty(), n as int);
        }
        if buckets[0].len() == 0 {
            last = refill(&mut buckets, last);
        }
        let ghost b1 = buckets@;
        let (x, u) = pop_entry(&mut buckets, 0);
        proof {
            assert(entry_ok(b1[0]@[b1[0]@.len() - 1], last, 0));
        }
        len = len - 1;
        if x != d[u] {
            proof {
                assert forall|w: int|
                    0 <= w < n && !done[w] && d@[w] < u64::MAX implies #[trigger] bag(buckets@, 65).count(
                    (d@[w], w as usize),
                ) > 0 by {
                    assert(bag(b1, 65).count((d@[w], w as usize)) > 0);
                }
            }
            continue;
        }
        let ghost was_done = done[u as int];
        proof {
            assert forall|w: int| 0 <= w < n && !done[w] implies last <= #[trigger] d@[w] by {
                if d@[w] < u64::MAX {
                    lemma_bag_above(b1, last, (d@[w], w as usize));
                }
            }
            assert forall|i: int| 0 <= i < adj[u as int]@.len() implies x + (#[trigger] adj[u as int]@[i]).1
                <= u64::MAX by {
                assert(reaches(adj, s as int, u as int, x as int));
                let (pv, pi) = choose|pv: Seq<usize>, pi: Seq<usize>|
                    is_path(adj, s as int, pv, pi) && pv.last() == u && path_weight(adj, pv, pi) <= x;
                assert(is_path(adj, s as int, pv, pi));
                assert(reaches(adj, s as int, u as int, u64::MAX - 1));
                assert(arc_fits(adj, s as int, u as int, i));
                let (qv, qi) = choose|qv: Seq<usize>, qi: Seq<usize>|
                    is_path(adj, s as int, qv, qi) && qv.last() == u && path_weight(adj, qv, qi)
                        <= u64::MAX - adj[u as int]@[i].1;
                lemma_frontier(adj, s as int, d@, done, last as int, qv, qi);
            }
            if !was_done {
                lemma_count_update(done, u as int, n as int);
                lemma_settled_update(done, adj, u as int);
            } else {
                assert(done.update(u as int, true) =~= done);
            }
            done = done.update(u as int, true);
            lemma_settled_bound(done, adj);
            lemma_row_bounds(done, Seq::empty(), Seq::empty(), n as int);
            assert(len + (if was_done {
                0
            } else {
                adj[u as int]@.len() as int
            }) <= 1 + settled_arcs(done, adj));
        }
        let ghost len0 = len;
        let row = &g.adj[u];
        let mut j: usize = 0;
        while j < row.len()
            invariant
                n == g.n,
                adj == g.adj@,
                g.wf(),
                g.heads_in_range(),
                s < n,
                g.m < usize::MAX,
                u < n,
                row@ == adj[u as int]@,
                j <= row@.len(),
                x == last,
                forall|i: int| 0 <= i < row@.len() ==> x + (#[trigger] row@[i]).1 <= u64::MAX,
                buckets_ok(buckets@, last),
                len == bag(buckets@, 65).len(),
                forall|e: (u64, usize)| #[trigger] bag(buckets@, 65).count(e) > 0 ==> e.1 < n && e.0 < u64::MAX,
                d@.len() == n,
                done.len() == n,
                done[u as int],
                d@[u as int] == x,
                d@[s as int] == 0,
                forall|w: int|
                    0 <= w < n && !done[w] && d@[w] < u64::MAX ==> #[trigger] bag(buckets@, 65).count(
                        (d@[w], w as usize),
                    ) > 0,
                forall|w: int| 0 <= w < n && #[trigger] done[w] ==> d@[w] <= last,
                forall|w: int| 0 <= w < n && w != u && #[trigger] done[w] ==> relaxed(adj, d@, w),
                forall|i: int| 0 <= i < j ==> d@[adj[u as int]@[i].0 as int] <= x + (#[trigger] adj[u as int]@[i]).1,
                was_done ==> relaxed(adj, d@, u as int),
                was_done ==> len == len0,
                forall|w: int|
                    0 <= w < n && #[trigger] d@[w] < u64::MAX ==> reaches(adj, s as int, w, d@[w] as int),
                len + (if was_done {
                    0
                } else {
                    row@.len() - j
                }) <= 1 + settled_arcs(done, adj),
                settled_arcs(done, adj) <= g.m,
            decreases row@.len() - j,
        {
            let (t, w) = row[j];
            proof {
                assert(adj[u as int]@[j as int] == row@[j as int]);
            }
            let nd = x + w;
            if nd < d[t] {
                let ghost d0 = d@;
                let ghost bb = buckets@;
                proof {
                    if was_done {
                        assert(relaxed(adj, d0, u as int));
                        assert(d0[t as int] <= d0[u as int] + adj[u as int]@[j as int].1);
                    }
                    if done[t as int] {
                        assert(d0[t as int] <= last);
                    }
                    assert(reaches(adj, s as int, u as int, x as int));
                    let (pv, pi) = choose|pv: Seq<usize>, pi: Seq<usize>|
                        is_path(adj, s as int, pv, pi) && pv.last() == u && path_weight(adj, pv, pi) <= x;
                    lemma_path_extend(adj, s as int, pv, pi, j);
                    assert(is_path(adj, s as int, pv.push(t), pi.push(j)));
                }
                d.set(t, nd);
                let b = bucket_of(nd, last);
                push_entry(&mut buckets, b, (nd, t));
                len = len + 1;
                proof {
                    assert forall|kk: int, i: int| 0 <= kk < 65 && 0 <= i < buckets@[kk]@.len() implies #[trigger] entry_ok(
                        buckets@[kk]@[i],
                        last,
                        kk,
                    ) by {
                        if kk == b && i == bb[kk]@.len() {
                        } else {
                            assert(buckets@[kk]@[i] == bb[kk]@[i]);
                        }
                    }
                    assert forall|y: int| 0 <= y < n && #[trigger] done[y] && y != u implies relaxed(adj, d@, y) by {
                        assert(relaxed(adj, d0, y));
                        assert forall|i: int| 0 <= i < adj[y]@.len() implies d@[adj[y]@[i].0 as int] <= d@[y]
                            + (#[trigger] adj[y]@[i]).1 by {
                            assert(d0[adj[y]@[i].0 as int] <= d0[y] + adj[y]@[i].1);
                        }
                    }
                    assert forall|i: int| 0 <= i < j + 1 implies d@[adj[u as int]@[i].0 as int] <= x + (
                    #[trigger] adj[u as int]@[i]).1 by {
                        if i < j {
                            assert(d0[adj[u as int]@[i].0 as int] <= x + adj[u as int]@[i].1);
                        }
                    }
                    assert forall|y: int|
                        0 <= y < n && !done[y] && d@[y] < u64::MAX implies #[trigger] bag(buckets@, 65).count(
                        (d@[y], y as usize),
                    ) > 0 by {
                        if y != t {
                            assert(bag(bb, 65).count((d0[y], y as usize)) > 0);
                        }
                    }
                }
            }
            j = j + 1;
        }
        proof {
            assert(relaxed(adj, d@, u as int));
        }
    }
    proof {
        assert forall|w: int| 0 <= w < n && !done[w] implies u64::MAX <= #[trigger] d@[w] by {
            if d@[w] < u64::MAX {
                assert(bag(buckets@, 65).count((d@[w], w as usize)) > 0);
            }
        }
        assert forall|vs: Seq<usize>, ix: Seq<usize>| #[trigger] is_path(adj, s as int, vs, ix) implies vs.last()
            < n && d@[vs.last() as int] <= path_weight(adj, vs, ix) by {
            lemma_frontier(adj, s as int, d@, done, u64::MAX as int, vs, ix);
        }
    }
    d
}

proof fn lemma_settled_zero(done: Seq<bool>, adj: Seq<Vec<(usize, u64)>>)
    requires
        done.len() == adj.len(),
        forall|i: int| 0 <= i < done.len() ==> !done[i],
    ensures
        settled_arcs(done, adj) == 0,
    decreases adj.len(),
{
    if adj.len() > 0 {
        lemma_settled_zero(done.drop_last(), adj.drop_last());
    }
}

/// Distances are determined by the graph and the source: two labellings
/// that are both exact distances agree.
pub proof fn lemma_distances_unique(adj: Seq<Vec<(usize, u64)>>, s: int, d1: Seq<u64>, d2: Seq<u64>)
    requires
        exact_distances(adj, s, d1),
        exact_distances(adj, s, d2),
    ensures
        d1 == d2,
{
    assert forall|v: int| 0 <= v < d1.len() implies d1[v] == d2[v] by {
        if d1[v] < u64::MAX {
            let (vs, ix) = choose|vs: Seq<usize>, ix: Seq<usize>|
                is_path(adj, s, vs, ix) && vs.last() == v && path_weight(adj, vs, ix) <= d1[v];
            assert(is_path(adj, s, vs, ix));
        }
        if d2[v] < u64::MAX {
            let (vs, ix) = choose|vs: Seq<usize>, ix: Seq<usize>|
                is_path(adj, s, vs, ix) && vs.last() == v && path_weight(adj, vs, ix) <= d2[v];
            assert(is_path(adj, s, vs, ix));
        }
    }
    assert(d1 =~= d2);
}

/// `h` is `g` with every vertex `u` renamed `map[u]`: each renamed list holds
/// the arcs of the original list with their heads renamed.
pub open spec fn relabelled(g: Seq<Vec<(usize, u64)>>, h: Seq<Vec<(usize, u64)>>, map: Seq<usize>) -> bool {
    &&& g.len() <= usize::MAX
    &&& map.len() == g.len()
    &&& h.len() == g.len()
    &&& forall|u: int| 0 <= u < g.len() ==> #[trigger] map[u] < g.len()
    &&& forall|u: int, v: int| 0 <= u < g.len() && 0 <= v < g.len() && map[u] == map[v] ==> u == v
    &&& forall|u: int|
        0 <= u < g.len() ==> (#[trigger] h[map[u] as int])@.to_multiset() == relabel(g[u]@, map).to_multiset()
}

/// A walk of `g` renamed is a walk of `h` of the same weight.
proof fn lemma_walk_forward(
    g: Seq<Vec<(usize, u64)>>,
    h: Seq<Vec<(usize, u64)>>,
    map: Seq<usize>,
    s: int,
    vs: Seq<usize>,
    ix: Seq<usize>,
) -> (r: (Seq<usize>, Seq<usize>))
    requires
        relabelled(g, h, map),
        forall|u: int, j: int| 0 <= u < g.len() && 0 <= j < g[u]@.len() ==> (#[trigger] g[u]@[j]).0 < g.len(),
        0 <= s < g.len(),
        is_path(g, s, vs, ix),
    ensures
        vs.last() < g.len(),
        is_path(h, map[s] as int, r.0, r.1),
        r.0.last() == map[vs.last() as int],
        path_weight(h, r.0, r.1) == path_weight(g, vs, ix),
    decreases ix.len(),
{
    broadcast use vstd::seq_lib::to_multiset_contains;

    if ix.len() == 0 {
        let r = (seq![map[s]], Seq::<usize>::empty());
        assert(is_path(h, map[s] as int, r.0, r.1));
        r
    } else {
        let k = ix.len() - 1;
        let pv = vs.drop_last();
        let pi = ix.drop_last();
        let p = lemma_walk_forward(g, h, map, s, pv, pi);
        lemma_path_len(g, s, pv, pi);
        let u = vs[k] as int;
        assert(pv.last() == vs[k]);
        let a = g[u]@[ix[k] as int];
        let b = (map[a.0 as int], a.1);
        let row = relabel(g[u]@, map);
        assert(row[ix[k] as int] == b);
        assert(row.contains(b));
        assert(h[map[u] as int]@.to_multiset().count(b) > 0);
        assert(h[map[u] as int]@.contains(b));
        let j = choose|j: int| 0 <= j < h[map[u] as int]@.len() && h[map[u] as int]@[j] == b;
        assert(h[map[u] as int]@.len() == h[map[u] as int].len());
        assert((j as usize) as int == j);
        lemma_path_extend(h, map[s] as int, p.0, p.1, j as usize);
        (p.0.push(b.0), p.1.push(j as usize))
    }
}

/// A walk of `h` from a renamed vertex is the renaming of a walk of `g` of
/// the same weight.
proof fn lemma_walk_back(
    g: Seq<Vec<(usize, u64)>>,
    h: Seq<Vec<(usize, u64)>>,
    map: Seq<usize>,
    s: int,
    vs: Seq<usize>,
    ix: Seq<usize>,
) -> (r: (Seq<usize>, Seq<usize>))
    requires
        relabelled(g, h, map),
        forall|u: int, j: int| 0 <= u < g.len() && 0 <= j < g[u]@.len() ==> (#[trigger] g[u]@[j]).0 < g.len(),
        0 <= s < g.len(),
        is_path(h, map[s] as int, vs, ix),
    ensures
        is_path(g, s, r.0, r.1),
        r.0.last() < g.len(),
        map[r.0.last() as int] == vs.last(),
        path_weight(g, r.0, r.1) == path_weight(h, vs, ix),
    decreases ix.len(),
{
    broadcast use vstd::seq_lib::to_multiset_contains;

    if ix.len() == 0 {
        let r = (seq![s as usize], Seq::<usize>::empty());
        assert(is_path(g, s, r.0, r.1));
        r
    } else {
        let k = ix.len() - 1;
        let pv = vs.drop_last();
        let pi = ix.drop_last();
        let p = lemma_walk_back(g, h, map, s, pv, pi);
        lemma_path_len(h, map[s] as int, pv, pi);
        lemma_path_len(g, s, p.0, p.1);
        let u = p.0.last() as int;
        assert(pv.last() == vs[k]);
        let b = h[vs[k] as int]@[ix[k] as int];
        let row = relabel(g[u]@, map);
        assert(h[map[u] as int]@.contains(b));
        assert(h[map[u] as int]@.to_multiset().count(b) > 0);
        assert(row.contains(b));
        let i = choose|i: int| 0 <= i < row.len() && row[i] == b;
        let a = g[u]@[i];
        assert(map[a.0 as int] == b.0 && a.1 == b.1);
        assert(g[u]@.len() == g[u].len());
        assert((i as usize) as int == i);
        lemma_path_extend(g, s, p.0, p.1, i as usize);
        (p.0.push(a.0), p.1.push(i as usize))
    }
}

/// Renaming the vertices of a graph bijectively renames its distances:
/// the distance from `map[s]` to `map[v]` in the renamed graph is the
/// distance from `s` to `v` in the original.
pub proof fn lemma_relabel_distances(
    g: Seq<Vec<(usize, u64)>>,
    h: Seq<Vec<(usize, u64)>>,
    map: Seq<usize>,
    s: int,
    dg: Seq<u64>,
    dh: Seq<u64>,
)
    requires
        relabelled(g, h, map),
        forall|u: int, j: int| 0 <= u < g.len() && 0 <= j < g[u]@.len() ==> (#[trigger] g[u]@[j]).0 < g.len(),
        0 <= s < g.len(),
        exact_distances(g, s, dg),
        exact_distances(h, map[s] as int, dh),
    ensures
        forall|v: int| 0 <= v < g.len() ==> #[trigger] dh[map[v] as int] == dg[v],
{
    assert forall|v: int| 0 <= v < g.len() implies #[trigger] dh[map[v] as int] == dg[v] by {
        if dg[v] < u64::MAX {
            let (vs, ix) = choose|vs: Seq<usize>, ix: Seq<usize>|
                is_path(g, s, vs, ix) && vs.last() == v && path_weight(g, vs, ix) <= dg[v];
            let r = lemma_walk_forward(g, h, map, s, vs, ix);
            assert(is_path(h, map[s] as int, r.0, r.1));
        }
        if dh[map[v] as int] < u64::MAX {
            let y = map[v] as int;
            let (vs, ix) = choose|vs: Seq<usize>, ix: Seq<usize>|
                is_path(h, map[s] as int, vs, ix) && vs.last() == y && path_weight(h, vs, ix) <= dh[y];
            let r = lemma_walk_back(g, h, map, s, vs, ix);
            assert(is_path(g, s, r.0, r.1));
            assert(r.0.last() == v);
        }
    }
}

} // verus!
