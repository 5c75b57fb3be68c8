//! A D-ary min-heap of (priority, node) entries with optional operation
//! counting. The priority is an order key: a solver with floating distances
//! stores a key whose unsigned order is the order of its distances.
use crate::counts::Counts;
use vstd::multiset::Multiset;
use vstd::prelude::*;

verus! {

broadcast use {
    vstd::seq_lib::to_multiset_update,
    vstd::seq_lib::to_multiset_build,
    vstd::seq_lib::to_multiset_remove,
    vstd::seq_lib::to_multiset_contains,
    vstd::multiset::group_multiset_axioms,
    vstd::multiset::group_multiset_properties,
};

/// A queued node with its priority key.
#[derive(Clone, Copy, Debug)]
pub struct Entry {
    pub dist: u64,
    pub node: usize,
}

/// Strict order of entries: by key, ties broken by node.
pub open spec fn entry_lt(a: Entry, b: Entry) -> bool {
    a.dist < b.dist || (a.dist == b.dist && a.node < b.node)
}

/// Non-strict order of entries.
pub open spec fn entry_le(a: Entry, b: Entry) -> bool {
    !entry_lt(b, a)
}

/// Position of the parent of slot `k` in a `d`-ary heap.
pub open spec fn parent(k: int, d: int) -> int {
    (k - 1) / d
}

/// Every entry is no smaller than its parent.
pub open spec fn is_heap(s: Seq<Entry>, d: int) -> bool {
    forall|k: int| 1 <= k < s.len() ==> entry_le(s[parent(k, d)], #[trigger] s[k])
}

/// Every parent edge holds except the one into slot `i`, and the parent of
/// `i` is no larger than the children of `i`.
spec fn heap_but_up(s: Seq<Entry>, d: int, i: int) -> bool {
    &&& forall|k: int| 1 <= k < s.len() && k != i ==> entry_le(s[parent(k, d)], #[trigger] s[k])
    &&& i >= 1 ==> forall|k: int|
        1 <= k < s.len() && parent(k, d) == i ==> entry_le(s[parent(i, d)], #[trigger] s[k])
}

/// Every parent edge holds except those out of slot `i`, and the parent of
/// `i` is no larger than the children of `i`.
spec fn heap_but_down(s: Seq<Entry>, d: int, i: int) -> bool {
    &&& forall|k: int|
        1 <= k < s.len() && parent(k, d) != i ==> entry_le(s[parent(k, d)], #[trigger] s[k])
    &&& i >= 1 ==> forall|k: int|
        1 <= k < s.len() && parent(k, d) == i ==> entry_le(s[parent(i, d)], #[trigger] s[k])
}

pub proof fn lemma_parent_range(k: int, p: int, d: int)
    requires
        d >= 1,
        k >= 1,
        p >= 0,
    ensures
        (parent(k, d) == p) <==> (d * p + 1 <= k <= d * p + d),
        0 <= parent(k, d) < k,
{
    assert((((k - 1) / d) == p) <==> (d * p + 1 <= k <= d * p + d)) by (nonlinear_arith)
        requires
            d >= 1,
            k >= 1,
            p >= 0,
    ;
    assert(0 <= (k - 1) / d < k) by (nonlinear_arith)
        requires
            d >= 1,
            k >= 1,
    ;
}

proof fn lemma_parent_all(d: int)
    requires
        d >= 1,
    ensures
        forall|k: int|
            k >= 1 ==> 0 <= #[trigger] parent(k, d) < k && d * parent(k, d) + 1 <= k <= d * parent(
                k,
                d,
            ) + d,
{
    assert forall|k: int| k >= 1 implies 0 <= #[trigger] parent(k, d) < k && d * parent(k, d) + 1
        <= k <= d * parent(k, d) + d by {
        lemma_parent_range(k, 0, d);
        lemma_parent_range(k, parent(k, d), d);
    }
}

/// In a heap the root is no larger than any entry.
proof fn lemma_root_least(s: Seq<Entry>, d: int, k: int)
    requires
        d >= 1,
        is_heap(s, d),
        0 <= k < s.len(),
    ensures
        entry_le(s[0], s[k]),
    decreases k,
{
    if k > 0 {
        lemma_parent_range(k, 0, d);
        lemma_root_least(s, d, parent(k, d));
    }
}

proof fn lemma_swap_multiset(s: Seq<Entry>, i: int, j: int)
    requires
        0 <= i < s.len(),
        0 <= j < s.len(),
    ensures
        s.update(i, s[j]).update(j, s[i]).to_multiset() == s.to_multiset(),
{
    let s1 = s.update(i, s[j]);
    assert(s1[j] == s[j]);
    assert(s1.to_multiset() == s.to_multiset().insert(s[j]).remove(s[i]));
    assert(s1.update(j, s[i]).to_multiset() == s1.to_multiset().insert(s[i]).remove(s[j]));
    assert(s1.update(j, s[i]).to_multiset() =~= s.to_multiset());
}

/// `s` with the entries at `i` and `j` exchanged.
pub open spec fn swap_at(s: Seq<Entry>, i: int, j: int) -> Seq<Entry> {
    s.update(i, s[j]).update(j, s[i])
}

/// Sifting the entry at `i` up a `d`-ary heap: while it orders strictly
/// before its parent, exchange the two. Returns the final arrangement and the
/// number of comparisons made, one per parent looked at.
pub open spec fn sift_up(s: Seq<Entry>, i: int, d: int) -> (Seq<Entry>, nat)
    decreases i,
{
    if i <= 0 || d < 1 || i >= s.len() {
        (s, 0nat)
    } else {
        let p = parent(i, d);
        proof {
            lemma_parent_range(i, 0, d);
        }
        if !entry_lt(s[i], s[p]) {
            (s, 1nat)
        } else {
            let r = sift_up(swap_at(s, i, p), p, d);
            (r.0, r.1 + 1)
        }
    }
}

/// The first least of the children in slots `start..k`, by strict order.
pub open spec fn min_child(s: Seq<Entry>, start: int, k: int) -> int
    decreases k - start,
{
    if k <= start + 1 {
        start
    } else {
        let j = min_child(s, start, k - 1);
        if entry_lt(s[k - 1], s[j]) {
            k - 1
        } else {
            j
        }
    }
}

pub proof fn lemma_min_child_range(s: Seq<Entry>, start: int, k: int)
    requires
        start < k,
    ensures
        start <= min_child(s, start, k) < k,
    decreases k - start,
{
    if k > start + 1 {
        lemma_min_child_range(s, start, k - 1);
    }
}

/// Sifting the entry at `i` down a `d`-ary heap: find the first least child
/// (one comparison per further child), and while it orders strictly before
/// the entry (one more comparison), exchange the two. Returns the final
/// arrangement and the number of comparisons made.
pub open spec fn sift_down(s: Seq<Entry>, i: int, d: int) -> (Seq<Entry>, nat)
    decreases s.len() - i,
{
    if d < 1 || i < 0 || i >= s.len() || d * i + 1 >= s.len() {
        (s, 0nat)
    } else {
        let start = d * i + 1;
        let end = if start + d < s.len() {
            start + d
        } else {
            s.len() as int
        };
        let j = min_child(s, start, end);
        let looks = (end - start) as nat;
        proof {
            lemma_min_child_range(s, start, end);
            assert(d * i + 1 > i) by (nonlinear_arith)
                requires
                    d >= 1,
                    i >= 0,
            ;
        }
        if !entry_lt(s[j], s[i]) {
            (s, looks)
        } else {
            let r = sift_down(swap_at(s, i, j), j, d);
            (r.0, r.1 + looks)
        }
    }
}

/// The counters after one comparison: only `comparisons` moves, by one when
/// counting.
pub open spec fn counted_compare<const C: bool>(c: Counts) -> Counts {
    Counts { comparisons: if C { (c.comparisons + 1) as u64 } else { c.comparisons }, ..c }
}

/// `b` differs from `a` at most in `comparisons`, which grew by at most `k`
/// when counting and stayed put otherwise.
pub open spec fn compares_added<const C: bool>(a: Counts, b: Counts, k: int) -> bool {
    &&& b == Counts { comparisons: b.comparisons, ..a }
    &&& if C {
        a.comparisons <= b.comparisons <= a.comparisons + k
    } else {
        b.comparisons == a.comparisons
    }
}

/// D-ary min-heap of entries.
pub struct Heap<const D: usize> {
    pub a: Vec<Entry>,
}

impl<const D: usize> Heap<D> {
    /// Well-formedness: a positive arity and the heap order.
    pub open spec fn wf(&self) -> bool {
        &&& D >= 1
        &&& is_heap(self.a@, D as int)
    }

    /// The queued entries, without order.
    pub open spec fn contents(&self) -> Multiset<Entry> {
        self.a@.to_multiset()
    }

    /// Slot arithmetic stays within `usize` for a heap of `len` entries.
    pub open spec fn room(len: int) -> bool {
        (D as int) * len + (D as int) + 1 <= usize::MAX
    }

    /// An empty heap.
    pub fn new() -> (h: Self)
        requires
            D >= 1,
        ensures
            h.wf(),
            h.a@.len() == 0,
    {
        Heap { a: Vec::new() }
    }

    /// Whether `a` orders strictly before `b`; counts one comparison.
    pub fn less<const C: bool>(a: Entry, b: Entry, c: &mut Counts) -> (r: bool)
        requires
            C ==> old(c).comparisons < u64::MAX,
        ensures
            r == entry_lt(a, b),
            *final(c) == counted_compare::<C>(*old(c)),
    {
        if C {
            c.comparisons = c.comparisons + 1;
        }
        a.dist < b.dist || (a.dist == b.dist && a.node < b.node)
    }

    /// Inserts `x`, sifting it up; counts one push, its comparisons and the
    /// peak size.
    pub fn push<const C: bool>(&mut self, x: Entry, c: &mut Counts)
        requires
            old(self).wf(),
            Self::room(old(self).a@.len() + 1int),
            C ==> old(c).pushes < u64::MAX,
            C ==> old(c).comparisons + old(self).a@.len() + 1 <= u64::MAX,
        ensures
            final(self).wf(),
            final(self).contents() == old(self).contents().insert(x),
            final(self).a@.len() == old(self).a@.len() + 1,
            C ==> final(c).pushes == old(c).pushes + 1,
            C ==> final(c).peak == if old(c).peak >= final(self).a@.len() {
                old(c).peak as int
            } else {
                final(self).a@.len() as int
            },
            C ==> compares_added::<C>(
                (Counts { pushes: final(c).pushes, peak: final(c).peak, ..*old(c) }),
                *final(c),
                old(self).a@.len() + 1int,
            ),
            final(self).a@ == sift_up(old(self).a@.push(x), old(self).a@.len() as int, D as int).0,
            C ==> final(c).comparisons == old(c).comparisons + sift_up(
                old(self).a@.push(x),
                old(self).a@.len() as int,
                D as int,
            ).1,
            !C ==> *final(c) == *old(c),
    {
        let ghost d = D as int;
        if C {
            c.pushes = c.pushes + 1;
        }
        let ghost c0 = *c;
        self.a.push(x);
        proof {
            lemma_parent_all(d);
            assert(self.a@.to_multiset() == old(self).a@.to_multiset().insert(x));
        }
        let mut i = self.a.len() - 1;
        let ghost mut steps: int = 0;
        let ghost fin = sift_up(self.a@, i as int, d);
        while i > 0
            invariant_except_break
                steps + i <= self.a@.len() - 1,
                sift_up(self.a@, i as int, d).0 == fin.0,
                sift_up(self.a@, i as int, d).1 + steps == fin.1,
            invariant
                C ==> c.comparisons == c0.comparisons + steps,
                d == D as int,
                d >= 1,
                0 <= i < self.a@.len(),
                self.a@.len() == old(self).a@.len() + 1,
                self.a@.to_multiset() == old(self).a@.to_multiset().insert(x),
                heap_but_up(self.a@, d, i as int),
                Self::room(self.a@.len() as int),
                forall|k: int|
                    k >= 1 ==> 0 <= #[trigger] parent(k, d) < k && d * parent(k, d) + 1 <= k <= d
                        * parent(k, d) + d,
                0 <= steps,
                steps <= self.a@.len(),
                compares_added::<C>(c0, *c, steps),
                C ==> c0.comparisons + self.a@.len() <= u64::MAX,
            ensures
                is_heap(self.a@, d),
                self.a@.to_multiset() == old(self).a@.to_multiset().insert(x),
                self.a@.len() == old(self).a@.len() + 1,
                compares_added::<C>(c0, *c, self.a@.len() as int),
                self.a@ == fin.0,
                steps == fin.1,
            decreases i,
        {
            let p = (i - 1) / D;
            proof {
                assert(p as int == parent(i as int, d));
            }
            if !Self::less::<C>(self.a[i], self.a[p], c) {
                proof {
                    steps = steps + 1;
                }
                break;
            }
            proof {
                steps = steps + 1;
            }
            let ghost s = self.a@;
            let ai = self.a[i];
            let ap = self.a[p];
            self.a.set(i, ap);
            self.a.set(p, ai);
            proof {
                assert(self.a@ == s.update(i as int, s[p as int]).update(p as int, s[i as int]));
                assert(self.a@ == swap_at(s, i as int, p as int));
                lemma_swap_multiset(s, i as int, p as int);
                let t = self.a@;
                let ii = i as int;
                let pp = p as int;
                assert forall|k: int| 1 <= k < t.len() && k != pp implies entry_le(
                    t[parent(k, d)],
                    #[trigger] t[k],
                ) by {
                    if k == ii {
                    } else if parent(k, d) == ii {
                    } else if parent(k, d) == pp {
                        assert(entry_le(s[pp], s[k]));
                    } else {
                    }
                }
                if pp >= 1 {
                    assert forall|k: int| 1 <= k < t.len() && parent(k, d) == pp implies entry_le(
                        t[parent(pp, d)],
                        #[trigger] t[k],
                    ) by {
                        assert(entry_le(s[parent(pp, d)], s[pp]));
                        if k != ii {
                            assert(entry_le(s[pp], s[k]));
                        }
                    }
                }
            }
            i = p;
        }
        if C {
            let len = self.a.len() as u64;
            if c.peak < len {
                c.peak = len;
            }
        }
    }

    /// Removes and returns a least entry, or `None` when empty; counts one pop
    /// and the comparisons of the sift-down.
    pub fn pop<const C: bool>(&mut self, c: &mut Counts) -> (r: Option<Entry>)
        requires
            old(self).wf(),
            Self::room(old(self).a@.len() as int),
            C ==> old(c).pops < u64::MAX,
            C ==> old(c).comparisons + (D as int) * old(self).a@.len() <= u64::MAX,
        ensures
            final(self).wf(),
            match r {
                None => old(self).a@.len() == 0 && final(self).a@ == old(self).a@ && *final(c)
                    == *old(c),
                Some(x) => {
                    &&& old(self).contents().contains(x)
                    &&& forall|y: Entry| old(self).contents().contains(y) ==> entry_le(x, y)
                    &&& final(self).contents() == old(self).contents().remove(x)
                    &&& final(self).a@.len() == old(self).a@.len() - 1
                    &&& C ==> final(c).pops == old(c).pops + 1
                    &&& C ==> compares_added::<C>(
                        (Counts { pops: final(c).pops, ..*old(c) }),
                        *final(c),
                        (D as int) * old(self).a@.len(),
                    )
                    &&& !C ==> *final(c) == *old(c)
                    &&& x == old(self).a@[0]
                    &&& final(self).a@ == sift_down(
                        old(self).a@.update(0, old(self).a@.last()).drop_last(),
                        0,
                        D as int,
                    ).0
                    &&& C ==> final(c).comparisons == old(c).comparisons + sift_down(
                        old(self).a@.update(0, old(self).a@.last()).drop_last(),
                        0,
                        D as int,
                    ).1
                },
            },
    {
        let ghost d = D as int;
        if self.a.len() == 0 {
            return None;
        }
        if C {
            c.pops = c.pops + 1;
        }
        let ghost c0 = *c;
        let ghost s0 = self.a@;
        proof {
            lemma_parent_all(d);
            assert forall|y: Entry| s0.to_multiset().contains(y) implies entry_le(s0[0], y) by {
                assert(s0.contains(y));
                let k = choose|k: int| 0 <= k < s0.len() && s0[k] == y;
                lemma_root_least(s0, d, k);
            }
        }
        let x = self.a.swap_remove(0);
        proof {
            let t = self.a@;
            if t.len() > 0 {
                assert(t == s0.update(0, s0.last()).drop_last());
                assert(s0.update(0, s0.last()).to_multiset() == s0.to_multiset().insert(
                    s0.last(),
                ).remove(s0[0]));
                assert(s0.update(0, s0.last()).remove(s0.len() - 1) == t);
                assert(t.to_multiset() =~= s0.to_multiset().remove(s0[0]));
            } else {
                assert(s0 == seq![s0[0]]);
                assert(s0.remove(0) == t);
            }
            assert(t.to_multiset() =~= s0.to_multiset().remove(s0[0]));
            assert forall|k: int| 1 <= k < t.len() && parent(k, d) != 0 implies entry_le(
                t[parent(k, d)],
                #[trigger] t[k],
            ) by {
                assert(entry_le(s0[parent(k, d)], s0[k]));
            }
        }
        let mut i: usize = 0;
        let ghost mut steps: int = 0;
        let ghost fin = sift_down(self.a@, 0, d);
        proof {
            assert(self.a@ == s0.update(0, s0.last()).drop_last());
        }
        loop
            invariant_except_break
                steps <= d * (i as int),
                sift_down(self.a@, i as int, d).0 == fin.0,
                sift_down(self.a@, i as int, d).1 + steps == fin.1,
            invariant
                C ==> c.comparisons == c0.comparisons + steps,
                d == D as int,
                d >= 1,
                self.a@.len() == s0.len() - 1,
                0 <= i,
                i < self.a@.len() || (self.a@.len() == 0 && i == 0),
                self.a@.to_multiset() == s0.to_multiset().remove(s0[0]),
                heap_but_down(self.a@, d, i as int),
                Self::room(s0.len() as int),
                forall|k: int|
                    k >= 1 ==> 0 <= #[trigger] parent(k, d) < k && d * parent(k, d) + 1 <= k <= d
                        * parent(k, d) + d,
                0 <= steps,
                steps <= d * s0.len(),
                compares_added::<C>(c0, *c, steps),
                C ==> c0.comparisons + d * s0.len() <= u64::MAX,
            ensures
                is_heap(self.a@, d),
                self.a@.to_multiset() == s0.to_multiset().remove(s0[0]),
                self.a@.len() == s0.len() - 1,
                compares_added::<C>(c0, *c, d * s0.len()),
                self.a@ == fin.0,
                steps == fin.1,
            decreases self.a@.len() - i,
        {
            let len = self.a.len();
            proof {
                assert((D as int) * (i as int) + (D as int) + 1 <= usize::MAX) by (nonlinear_arith)
                    requires
                        (D as int) * (s0.len() as int) + (D as int) + 1 <= usize::MAX,
                        i < s0.len(),
                        D >= 1,
                ;
            }
            let start = D * i + 1;
            if start >= len {
                proof {
                    assert forall|k: int| 1 <= k < self.a@.len() implies entry_le(
                        self.a@[parent(k, d)],
                        #[trigger] self.a@[k],
                    ) by {
                        if parent(k, d) == i {
                            assert(k >= d * i + 1);
                        }
                    }
                    assert(steps <= d * s0.len()) by (nonlinear_arith)
                        requires
                            steps <= d * (i as int),
                            i < s0.len(),
                            d >= 1,
                    ;
                }
                break;
            }
            let end = if start + D < len {
                start + D
            } else {
                len
            };
            let mut j = start;
            let mut k = start + 1;
            let ghost mut inner: int = 0;
            while k < end
                invariant
                    j == min_child(self.a@, start as int, k as int),
                    C ==> c.comparisons == c0.comparisons + steps + inner,
                    inner == k - start - 1,
                    d == D as int,
                    start == d * i + 1,
                    start < end <= start + d,
                    end <= self.a@.len(),
                    start <= j < k <= end,
                    forall|q: int| start <= q < k ==> entry_le(self.a@[j as int], #[trigger] self.a@[q]),
                    0 <= inner <= k - start - 1,
                    compares_added::<C>(c0, *c, steps + inner),
                    C ==> c0.comparisons + d * s0.len() <= u64::MAX,
                    steps <= d * (i as int),
                    i < s0.len(),
                    d >= 1,
                decreases end - k,
            {
                proof {
                    assert(steps + inner + 1 <= d * s0.len()) by (nonlinear_arith)
                        requires
                            steps <= d * (i as int),
                            inner <= d - 2,
                            i < s0.len(),
                            d >= 1,
                    ;
                }
                if Self::less::<C>(self.a[k], self.a[j], c) {
                    j = k;
                }
                proof {
                    inner = inner + 1;
                }
                k = k + 1;
            }
            proof {
                assert(steps + inner + 1 <= d * s0.len()) by (nonlinear_arith)
                    requires
                        steps <= d * (i as int),
                        inner <= d - 1,
                        i < s0.len(),
                        d >= 1,
                ;
            }
            if !Self::less::<C>(self.a[j], self.a[i], c) {
                proof {
                    steps = steps + inner + 1;
                    assert forall|q: int| 1 <= q < self.a@.len() implies entry_le(
                        self.a@[parent(q, d)],
                        #[trigger] self.a@[q],
                    ) by {
                        if parent(q, d) == i {
                            assert(entry_le(self.a@[j as int], self.a@[q]));
                        }
                    }
                    assert(steps <= d * s0.len()) by (nonlinear_arith)
                        requires
                            steps <= d * (i as int) + d,
                            i < s0.len(),
                            d >= 1,
                    ;
                }
                break;
            }
            proof {
                steps = steps + inner + 1;
                lemma_parent_range(j as int, i as int, d);
                assert(parent(j as int, d) == i);
            }
            let ghost s = self.a@;
            let ai = self.a[i];
            let aj = self.a[j];
            self.a.set(i, aj);
            self.a.set(j, ai);
            proof {
                assert(self.a@ == s.update(i as int, s[j as int]).update(j as int, s[i as int]));
                assert(self.a@ == swap_at(s, i as int, j as int));
                lemma_swap_multiset(s, i as int, j as int);
                let t = self.a@;
                let ii = i as int;
                let jj = j as int;
                assert forall|q: int| 1 <= q < t.len() && parent(q, d) != jj implies entry_le(
                    t[parent(q, d)],
                    #[trigger] t[q],
                ) by {
                    if q == jj {
                    } else if q == ii {
                        assert(entry_le(s[parent(ii, d)], s[jj]));
                    } else if parent(q, d) == ii {
                        assert(entry_le(s[jj], s[q]));
                    } else {
                    }
                }
                assert forall|q: int| 1 <= q < t.len() && parent(q, d) == jj implies entry_le(
                    t[parent(jj, d)],
                    #[trigger] t[q],
                ) by {
                    assert(q != ii);
                    assert(entry_le(s[jj], s[q]));
                }
                assert(steps <= d * (j as int)) by (nonlinear_arith)
                    requires
                        steps <= d * (i as int) + d,
                        j >= d * i + 1,
                        d >= 1,
                ;
                assert(steps <= d * s0.len()) by (nonlinear_arith)
                    requires
                        steps <= d * (j as int),
                        j < s0.len(),
                        d >= 1,
                ;
            }
            i = j;
        }
        Some(x)
    }
}

} // verus!
