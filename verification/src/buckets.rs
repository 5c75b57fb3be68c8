//! Distance buckets for delta-stepping: an ordered map of bucket indices, or a
//! cyclic array of generation-tagged slots, both seen as one finite map from
//! bucket index to the nodes pending in it.
use std::collections::BTreeMap;
use vstd::prelude::*;

verus! {

/// Number of pending nodes held by a run of ring slots.
pub open spec fn slot_total(s: Seq<(usize, Vec<usize>)>) -> int
    decreases s.len(),
{
    if s.len() == 0 {
        0
    } else {
        slot_total(s.drop_last()) + s.last().1@.len()
    }
}

proof fn lemma_slot_total_nonneg(s: Seq<(usize, Vec<usize>)>)
    ensures
        slot_total(s) >= 0,
        forall|k: int| 0 <= k < s.len() ==> s[k].1@.len() <= slot_total(s),
    decreases s.len(),
{
    if s.len() > 0 {
        lemma_slot_total_nonneg(s.drop_last());
        assert forall|k: int| 0 <= k < s.len() implies s[k].1@.len() <= slot_total(s) by {
            if k < s.len() - 1 {
                assert(s.drop_last()[k] == s[k]);
            }
        }
    }
}

proof fn lemma_slot_total_update(s: Seq<(usize, Vec<usize>)>, k: int, x: (usize, Vec<usize>))
    requires
        0 <= k < s.len(),
    ensures
        slot_total(s.update(k, x)) == slot_total(s) - s[k].1@.len() + x.1@.len(),
    decreases s.len(),
{
    if k == s.len() - 1 {
        assert(s.update(k, x).drop_last() =~= s.drop_last());
    } else {
        lemma_slot_total_update(s.drop_last(), k, x);
        assert(s.update(k, x).drop_last() =~= s.drop_last().update(k, x));
    }
}

/// Slot of bucket `g` in a ring of `n` slots.
pub open spec fn slot_of(g: usize, n: int) -> int {
    (g as int) % n
}

/// Buckets held by ring slots: generation `g` is pending when its slot is
/// tagged `g` and nonempty.
pub open spec fn ring_view(s: Seq<(usize, Vec<usize>)>) -> Map<usize, Seq<usize>> {
    Map::new(
        |g: usize| s[slot_of(g, s.len() as int)].0 == g && s[slot_of(g, s.len() as int)].1@.len() > 0,
        |g: usize| s[slot_of(g, s.len() as int)].1@,
    )
}

/// Replacing slot `k` changes the ring's buckets only at generations of that slot.
proof fn lemma_ring_view_update(s: Seq<(usize, Vec<usize>)>, k: int, x: (usize, Vec<usize>))
    requires
        0 <= k < s.len(),
    ensures
        forall|g: usize|
            slot_of(g, s.len() as int) != k ==> (#[trigger] ring_view(s.update(k, x)).contains_key(g)
                == ring_view(s).contains_key(g)) && (ring_view(s).contains_key(g) ==> ring_view(
                s.update(k, x))[g] == ring_view(s)[g]),
        forall|g: usize|
            slot_of(g, s.len() as int) == k ==> (#[trigger] ring_view(s.update(k, x)).contains_key(g)
                == (x.0 == g && x.1@.len() > 0)) && (x.0 == g && x.1@.len() > 0 ==> ring_view(
                s.update(k, x))[g] == x.1@),
{
}

/// Pending nodes of a bucket as a sequence; empty when the bucket is absent.
pub open spec fn bucket_or_empty(m: Map<usize, Seq<usize>>, i: usize) -> Seq<usize> {
    if m.contains_key(i) {
        m[i]
    } else {
        Seq::empty()
    }
}

/// Removes and returns the entry of `b` with the least key (`BTreeMap::pop_first`).
/// Claimed: `None` exactly when the map is empty; otherwise the returned key is
/// the minimum key, the returned vector is its value, and that entry is gone.
#[verifier::external_body]
fn map_pop_first(b: &mut BTreeMap<usize, Vec<usize>>) -> (r: Option<(usize, Vec<usize>)>)
    ensures
        match r {
            None => old(b)@.dom().is_empty() && final(b)@ == old(b)@,
            Some(kv) => {
                &&& old(b)@.contains_key(kv.0)
                &&& old(b)@[kv.0] == kv.1
                &&& forall|j: usize| old(b)@.contains_key(j) ==> kv.0 <= j
                &&& final(b)@ == old(b)@.remove(kv.0)
            },
        },
{
    b.pop_first()
}

/// The pending-node buckets of a delta-stepping solve.
pub enum Buckets {
    /// Sparse ordered map from bucket index to pending nodes.
    Ordered(BTreeMap<usize, Vec<usize>>),
    /// Cyclic window: bucket `i` lives in slot `i % slots.len()`, tagged with
    /// its generation `i`; `cursor` is the bucket most recently popped and
    /// `len` the number of pending nodes.
    Ring { slots: Vec<(usize, Vec<usize>)>, cursor: usize, len: usize },
}

impl View for Buckets {
    type V = Map<usize, Seq<usize>>;

    /// Bucket index to the nonempty sequence of nodes pending in it.
    open spec fn view(&self) -> Map<usize, Seq<usize>> {
        match self {
            Buckets::Ordered(b) => Map::new(|k: usize| b@.contains_key(k), |k: usize| b@[k]@),
            Buckets::Ring { slots, .. } => ring_view(slots@),
        }
    }
}

impl Buckets {
    /// Well-formedness: no bucket is held empty; a ring has at least one slot,
    /// keeps every pending bucket in its own slot at or above the cursor, and
    /// counts its pending nodes in `len`.
    pub open spec fn wf(&self) -> bool {
        match self {
            Buckets::Ordered(b) => forall|k: usize| b@.contains_key(k) ==> b@[k]@.len() > 0,
            Buckets::Ring { slots, cursor, len } => {
                let n = slots@.len();
                &&& n > 0
                &&& *len == slot_total(slots@)
                &&& forall|k: int|
                    0 <= k < n && (#[trigger] slots@[k]).1@.len() > 0 ==> slot_of(slots@[k].0, n as int) == k
                        && slots@[k].0 >= *cursor
            },
        }
    }

    /// Whether this is the cyclic-window representation.
    pub open spec fn is_ring(&self) -> bool {
        self is Ring
    }

    /// Number of slots of a ring (zero for the ordered map).
    pub open spec fn ring_size(&self) -> nat {
        match self {
            Buckets::Ordered(_) => 0,
            Buckets::Ring { slots, .. } => slots@.len(),
        }
    }

    /// Least bucket index that may still receive nodes (the ring's cursor).
    pub open spec fn floor(&self) -> usize {
        match self {
            Buckets::Ordered(_) => 0,
            Buckets::Ring { cursor, .. } => *cursor,
        }
    }

    /// Whether `push(i, _)` is admissible: a ring accepts bucket `i` only at or
    /// above its cursor, with `len` below the counter's range, and when the
    /// slot of `i` holds no other pending generation.
    pub open spec fn can_push(&self, i: usize) -> bool {
        match self {
            Buckets::Ordered(_) => true,
            Buckets::Ring { slots, cursor, len } => {
                let n = slots@.len();
                &&& i >= *cursor
                &&& *len < usize::MAX
                &&& (slots@[slot_of(i, n as int)].1@.len() == 0 || slots@[slot_of(i, n as int)].0 == i)
            },
        }
    }

    /// An empty bucket structure; a ring gets `n` slots.
    pub fn new(ring: bool, n: usize) -> (b: Buckets)
        requires
            ring ==> 0 < n <= 2_000_000,
        ensures
            b.wf(),
            b@ == Map::<usize, Seq<usize>>::empty(),
            b.floor() == 0,
            b.is_ring() == ring,
            ring ==> b.ring_size() == n,
    {
        if ring {
            let mut slots: Vec<(usize, Vec<usize>)> = Vec::new();
            let mut k: usize = 0;
            while k < n
                invariant
                    k <= n,
                    slots@.len() == k,
                    forall|j: int| 0 <= j < k ==> (#[trigger] slots@[j]).1@.len() == 0,
                    slot_total(slots@) == 0,
                decreases n - k,
            {
                let ghost prev = slots@;
                slots.push((usize::MAX, Vec::new()));
                assert(slots@.drop_last() =~= prev);
                k = k + 1;
            }
            let b = Buckets::Ring { slots, cursor: 0, len: 0 };
            assert(b@ =~= Map::<usize, Seq<usize>>::empty());
            b
        } else {
            let b = Buckets::Ordered(BTreeMap::new());
            assert(b@ =~= Map::<usize, Seq<usize>>::empty());
            b
        }
    }

    /// Appends node `u` to bucket `i`.
    pub fn push(&mut self, i: usize, u: usize)
        requires
            old(self).wf(),
            old(self).can_push(i),
        ensures
            final(self).wf(),
            final(self)@ == old(self)@.insert(i, bucket_or_empty(old(self)@, i).push(u)),
            final(self).floor() == old(self).floor(),
            final(self).is_ring() == old(self).is_ring(),
            final(self).ring_size() == old(self).ring_size(),
    {
        match self {
            Buckets::Ordered(b) => {
                let ghost old_b = b@;
                let mut v = match b.remove(&i) {
                    Some(v) => v,
                    None => Vec::new(),
                };
                v.push(u);
                b.insert(i, v);
                proof {
                    assert forall|k: usize| b@.contains_key(k) implies b@[k]@.len() > 0 by {
                        if k != i {
                            assert(old_b.contains_key(k));
                        }
                    }
                }
            },
            Buckets::Ring { slots, cursor, len } => {
                let n = slots.len();
                let k = i % n;
                let ghost old_slots = slots@;
                let mut slot: (usize, Vec<usize>) = (0, Vec::new());
                std::mem::swap(&mut slots[k], &mut slot);
                slot.0 = i;
                slot.1.push(u);
                slots[k] = slot;
                proof {
                    lemma_slot_total_update(old_slots, k as int, slot);
                }
                *len = *len + 1;
                proof {
                    assert(slots@ == old_slots.update(k as int, slot));
                    assert forall|j: int|
                        0 <= j < n && (#[trigger] slots@[j]).1@.len() > 0 implies slot_of(slots@[j].0, n as int) == j
                            && slots@[j].0 >= *cursor by {
                        if j != k {
                            assert(slots@[j] == old_slots[j]);
                        }
                    }
                    lemma_ring_view_update(old_slots, k as int, slot);
                    let ov = ring_view(old_slots);
                    assert(slot_of(i, n as int) == k);
                    assert(old_slots[k as int].1@.len() == 0 || old_slots[k as int].0 == i);
                    assert(slot.1@ == old_slots[k as int].1@.push(u));
                    assert(bucket_or_empty(ov, i) == old_slots[k as int].1@);
                    let nv = ov.insert(i, bucket_or_empty(ov, i).push(u));
                    assert forall|g: usize| #![auto] ring_view(slots@).contains_key(g) == nv.contains_key(g)
                        && (nv.contains_key(g) ==> ring_view(slots@)[g] == nv[g]) by {
                        if slot_of(g, n as int) == k && g != i {
                            assert(!ov.contains_key(g));
                        }
                    }
                    assert(ring_view(slots@) =~= nv);
                }
            },
        }
        proof {
            assert(self@ =~= old(self)@.insert(i, bucket_or_empty(old(self)@, i).push(u)));
        }
    }

    /// Removes the least nonempty bucket, returning its index and nodes, or
    /// `None` when nothing is pending.
    pub fn pop(&mut self) -> (r: Option<(usize, Vec<usize>)>)
        requires
            old(self).wf(),
        ensures
            final(self).wf(),
            final(self).is_ring() == old(self).is_ring(),
            final(self).ring_size() == old(self).ring_size(),
            match r {
                None => {
                    &&& old(self)@.dom().is_empty()
                    &&& final(self)@ == old(self)@
                    &&& final(self).floor() == old(self).floor()
                },
                Some(x) => {
                    &&& old(self)@.contains_key(x.0)
                    &&& x.1@ == old(self)@[x.0]
                    &&& forall|j: usize| old(self)@.contains_key(j) ==> x.0 <= j
                    &&& final(self)@ == old(self)@.remove(x.0)
                    &&& (final(self).is_ring() ==> final(self).floor() == x.0)
                },
            },
    {
        match self {
            Buckets::Ordered(b) => {
                let r = map_pop_first(b);
                proof {
                    if r.is_none() {
                        assert(old(self)@ =~= Map::<usize, Seq<usize>>::empty());
                    } else {
                        assert(self@ =~= old(self)@.remove(r.unwrap().0));
                    }
                }
                r
            },
            Buckets::Ring { slots, cursor, len } => {
                let ghost old_slots = slots@;
                let ghost n = old_slots.len() as int;
                let ghost ov = ring_view(old_slots);
                proof {
                    assert(old(self)@ == ov);
                }
                if *len == 0 {
                    proof {
                        lemma_slot_total_nonneg(old_slots);
                        assert forall|g: usize| !ov.contains_key(g) by {
                            let j = slot_of(g, n);
                            assert(old_slots[j].1@.len() <= slot_total(old_slots));
                        }
                        assert(ov.dom() =~= Set::empty());
                    }
                    return None;
                }
                let ghost mut g0: usize = 0;
                proof {
                    assert(exists|j: int| 0 <= j < n && old_slots[j].1@.len() > 0) by {
                        if forall|j: int| 0 <= j < n ==> old_slots[j].1@.len() == 0 {
                            lemma_slot_total_zero(old_slots);
                        }
                    }
                    let j = choose|j: int| 0 <= j < n && old_slots[j].1@.len() > 0;
                    g0 = old_slots[j].0;
                    assert(slot_of(g0, n) == j);
                    assert(ov.contains_key(g0));
                }
                let m = slots.len();
                let mut c: usize = *cursor;
                loop
                    invariant
                        slots@ == old_slots,
                        n == old_slots.len(),
                        n == m,
                        n > 0,
                        c <= g0,
                        ov == ring_view(old_slots),
                        ov.contains_key(g0),
                        forall|g: usize| ov.contains_key(g) ==> c <= g,
                    ensures
                        ov.contains_key(c),
                        forall|g: usize| ov.contains_key(g) ==> c <= g,
                    decreases g0 - c,
                {
                    let k = c % m;
                    if slots[k].0 == c && slots[k].1.len() > 0 {
                        proof {
                            assert(slot_of(c, n) == k);
                        }
                        break;
                    }
                    proof {
                        assert(slot_of(c, n) == k);
                        assert(!ov.contains_key(c));
                        assert(c != g0);
                    }
                    c = c + 1;
                }
                let k = c % m;
                *cursor = c;
                let mut slot: (usize, Vec<usize>) = (c, Vec::new());
                std::mem::swap(&mut slots[k], &mut slot);
                let v = slot.1;
                proof {
                    assert(slot_of(c, n) == k);
                    lemma_slot_total_update(old_slots, k as int, slots@[k as int]);
                    lemma_slot_total_nonneg(old_slots);
                    assert(old_slots[k as int].1@.len() <= slot_total(old_slots));
                }
                *len = *len - v.len();
                proof {
                    assert(slots@ == old_slots.update(k as int, slots@[k as int]));
                    assert(slots@[k as int].1@.len() == 0);
                    assert forall|j: int|
                        0 <= j < n && (#[trigger] slots@[j]).1@.len() > 0 implies slot_of(slots@[j].0, n as int) == j
                            && slots@[j].0 >= *cursor by {
                        if j != k {
                            assert(slots@[j] == old_slots[j]);
                            let g = slots@[j].0;
                            assert(slot_of(g, n) == j);
                            assert(ov.contains_key(g));
                        }
                    }
                    lemma_ring_view_update(old_slots, k as int, slots@[k as int]);
                    assert forall|g: usize| #![auto] ring_view(slots@).contains_key(g)
                        == ov.remove(c).contains_key(g) && (ov.remove(c).contains_key(g)
                        ==> ring_view(slots@)[g] == ov.remove(c)[g]) by {}
                    assert(ring_view(slots@) =~= ov.remove(c));
                }
                Some((c, v))
            },
        }
    }

    /// Removes bucket `i`, returning its nodes (empty when absent).
    pub fn take(&mut self, i: usize) -> (r: Vec<usize>)
        requires
            old(self).wf(),
        ensures
            final(self).wf(),
            r@ == bucket_or_empty(old(self)@, i),
            final(self)@ == old(self)@.remove(i),
            final(self).floor() == old(self).floor(),
            final(self).is_ring() == old(self).is_ring(),
            final(self).ring_size() == old(self).ring_size(),
    {
        match self {
            Buckets::Ordered(b) => {
                let r = match b.remove(&i) {
                    Some(v) => v,
                    None => Vec::new(),
                };
                proof {
                    assert(self@ =~= old(self)@.remove(i));
                }
                r
            },
            Buckets::Ring { slots, cursor, len } => {
                let n = slots.len();
                let k = i % n;
                let ghost old_slots = slots@;
                if slots[k].0 != i {
                    proof {
                        assert(self@ =~= old(self)@.remove(i));
                    }
                    return Vec::new();
                }
                let mut slot: (usize, Vec<usize>) = (i, Vec::new());
                std::mem::swap(&mut slots[k], &mut slot);
                let v = slot.1;
                proof {
                    lemma_slot_total_update(old_slots, k as int, slots@[k as int]);
                    lemma_slot_total_nonneg(old_slots);
                    assert(old_slots[k as int].1@.len() <= slot_total(old_slots));
                }
                *len = *len - v.len();
                proof {
                    assert(slots@ == old_slots.update(k as int, slots@[k as int]));
                    assert(slots@[k as int].1@.len() == 0);
                    assert forall|j: int|
                        0 <= j < n && (#[trigger] slots@[j]).1@.len() > 0 implies slot_of(slots@[j].0, n as int) == j && slots@[j].0 >= *cursor by {
                        assert(slots@[j] == old_slots[j]);
                    }
                    assert(self@ =~= old(self)@.remove(i)) by {
                        assert forall|g: usize| #![auto] g != i implies (self@.contains_key(g)
                            == old(self)@.contains_key(g)) && (self@.contains_key(g) ==> self@[g]
                            == old(self)@[g]) by {}
                    }
                }
                v
            },
        }
    }
}

proof fn lemma_slot_total_zero(s: Seq<(usize, Vec<usize>)>)
    requires
        forall|j: int| 0 <= j < s.len() ==> s[j].1@.len() == 0,
    ensures
        slot_total(s) == 0,
    decreases s.len(),
{
    if s.len() > 0 {
        assert forall|j: int| 0 <= j < s.drop_last().len() implies s.drop_last()[j].1@.len()
            == 0 by {
            assert(s.drop_last()[j] == s[j]);
        }
        lemma_slot_total_zero(s.drop_last());
    }
}

/// Nodes pending in a run of Dial buckets.
pub open spec fn queue_total(s: Seq<Vec<usize>>) -> int
    decreases s.len(),
{
    if s.len() == 0 {
        0
    } else {
        queue_total(s.drop_last()) + s.last()@.len()
    }
}

proof fn lemma_queue_total_update(s: Seq<Vec<usize>>, k: int, x: Vec<usize>)
    requires
        0 <= k < s.len(),
    ensures
        queue_total(s.update(k, x)) == queue_total(s) - s[k]@.len() + x@.len(),
    decreases s.len(),
{
    if k == s.len() - 1 {
        assert(s.update(k, x).drop_last() =~= s.drop_last());
    } else {
        lemma_queue_total_update(s.drop_last(), k, x);
        assert(s.update(k, x).drop_last() =~= s.drop_last().update(k, x));
    }
}

proof fn lemma_queue_total_bounds(s: Seq<Vec<usize>>)
    ensures
        queue_total(s) >= 0,
        forall|k: int| 0 <= k < s.len() ==> s[k]@.len() <= queue_total(s),
        queue_total(s) > 0 ==> exists|k: int| 0 <= k < s.len() && s[k]@.len() > 0,
    decreases s.len(),
{
    if s.len() > 0 {
        lemma_queue_total_bounds(s.drop_last());
        assert forall|k: int| 0 <= k < s.len() implies s[k]@.len() <= queue_total(s) by {
            if k < s.len() - 1 {
                assert(s.drop_last()[k] == s[k]);
            }
        }
        if queue_total(s) > 0 && s.last()@.len() == 0 {
            let k = choose|k: int| 0 <= k < s.drop_last().len() && s.drop_last()[k]@.len() > 0;
            assert(s[k] == s.drop_last()[k]);
        }
    }
}

proof fn lemma_wrap(c: int, step: int, n: int)
    requires
        0 <= c < n,
        0 <= step < n,
    ensures
        (c + step) % n == if c + step < n {
            c + step
        } else {
            c + step - n
        },
{
    if c + step < n {
        assert((c + step) % n == c + step) by (nonlinear_arith)
            requires
                0 <= c + step < n,
        ;
    } else {
        assert((c + step) % n == c + step - n) by (nonlinear_arith)
            requires
                n <= c + step < 2 * n,
        ;
    }
}

proof fn lemma_mod_succ(a: int, n: int)
    requires
        a >= 0,
        n > 0,
    ensures
        ((a % n) + 1) % n == (a + 1) % n,
{
    assert(((a % n) + 1) % n == (a + 1) % n) by (nonlinear_arith)
        requires
            a >= 0,
            n > 0,
    ;
}

/// Cyclic offset of bucket `j` from bucket `c` in a ring of `n` buckets.
pub open spec fn cyclic_offset(c: int, j: int, n: int) -> int {
    if j >= c {
        j - c
    } else {
        j + n - c
    }
}

/// Bucket queue of Dial's algorithm: node priorities fold into
/// `buckets.len()` cyclic buckets; `pop` scans forward from the current one.
pub struct BucketQueue {
    pub buckets: Vec<Vec<usize>>,
    pub current_bucket: usize,
    pub size: usize,
}

impl BucketQueue {
    /// Well-formedness: the current bucket is in range and `size` counts the
    /// queued nodes.
    pub open spec fn wf(&self) -> bool {
        &&& self.current_bucket < self.buckets@.len() || self.buckets@.len() == 0
        &&& self.size == queue_total(self.buckets@)
    }

    /// Contents of each bucket.
    pub open spec fn contents(&self) -> Seq<Seq<usize>> {
        self.buckets@.map_values(|b: Vec<usize>| b@)
    }

    /// `num_buckets` empty buckets, scanning from bucket 0.
    pub fn new(num_buckets: usize) -> (q: BucketQueue)
        ensures
            q.wf(),
            q.buckets@.len() == num_buckets,
            forall|k: int| 0 <= k < num_buckets ==> (#[trigger] q.buckets@[k])@.len() == 0,
            q.current_bucket == 0,
            q.size == 0,
    {
        let mut buckets: Vec<Vec<usize>> = Vec::new();
        let mut k: usize = 0;
        while k < num_buckets
            invariant
                k <= num_buckets,
                buckets@.len() == k,
                forall|j: int| 0 <= j < k ==> (#[trigger] buckets@[j])@.len() == 0,
                queue_total(buckets@) == 0,
            decreases num_buckets - k,
        {
            let ghost prev = buckets@;
            buckets.push(Vec::new());
            assert(buckets@.drop_last() =~= prev);
            k = k + 1;
        }
        BucketQueue { buckets, current_bucket: 0, size: 0 }
    }

    /// Queues `node` in bucket `priority % buckets.len()`.
    pub fn push(&mut self, node: usize, priority: usize)
        requires
            old(self).wf(),
            old(self).buckets@.len() > 0,
            old(self).size < usize::MAX,
        ensures
            final(self).wf(),
            final(self).current_bucket == old(self).current_bucket,
            final(self).size == old(self).size + 1,
            final(self).contents() == old(self).contents().update(
                priority as int % old(self).buckets@.len() as int,
                old(self).contents()[priority as int % old(self).buckets@.len() as int].push(node),
            ),
    {
        let k = priority % self.buckets.len();
        let ghost old_b = self.buckets@;
        let mut b: Vec<usize> = Vec::new();
        std::mem::swap(&mut self.buckets[k], &mut b);
        b.push(node);
        self.buckets[k] = b;
        proof {
            assert(self.buckets@ == old_b.update(k as int, b));
            lemma_queue_total_update(old_b, k as int, b);
        }
        self.size = self.size + 1;
        proof {
            assert(self.contents() =~= old(self).contents().update(
                k as int,
                old(self).contents()[k as int].push(node),
            ));
        }
    }

    /// Pops the most recently queued node of the first nonempty bucket at or
    /// cyclically after the current one, which becomes the current bucket;
    /// `None` when the queue is empty.
    pub fn pop(&mut self) -> (r: Option<usize>)
        requires
            old(self).wf(),
        ensures
            final(self).wf(),
            match r {
                None => old(self).size == 0 && *final(self) == *old(self),
                Some(x) => {
                    let n = old(self).buckets@.len() as int;
                    let c = old(self).current_bucket as int;
                    let j = final(self).current_bucket as int;
                    &&& old(self).size > 0
                    &&& 0 <= j < n
                    &&& old(self).contents()[j].len() > 0
                    &&& forall|i: int|
                        0 <= i < n && cyclic_offset(c, i, n) < cyclic_offset(c, j, n) ==> (
                        #[trigger] old(self).contents()[i]).len() == 0
                    &&& x == old(self).contents()[j].last()
                    &&& final(self).contents() == old(self).contents().update(
                        j,
                        old(self).contents()[j].drop_last(),
                    )
                    &&& final(self).size == old(self).size - 1
                },
            },
    {
        if self.size == 0 {
            return None;
        }
        let num_buckets = self.buckets.len();
        proof {
            lemma_queue_total_bounds(self.buckets@);
        }
        let ghost c = self.current_bucket as int;
        let ghost n = num_buckets as int;
        proof {
            assert(n > 0);
            lemma_wrap(c, 0, n);
        }
        let mut step: usize = 0;
        let mut found = false;
        while step < num_buckets
            invariant_except_break
                !found,
                step <= n,
                forall|i: int|
                    0 <= i < n && cyclic_offset(c, i, n) < step ==> (
                    #[trigger] old(self).contents()[i]).len() == 0,
            invariant
                self.wf(),
                self.buckets@ == old(self).buckets@,
                self.size == old(self).size,
                self.size > 0,
                n == num_buckets,
                n == self.buckets@.len(),
                0 <= c < n,
                step < n ==> self.current_bucket as int == (c + step) % n,
                step <= n,
            ensures
                found ==> step < n && self.current_bucket as int == (c + step) % n
                    && self.buckets@[self.current_bucket as int]@.len() > 0 && forall|i: int|
                    0 <= i < n && cyclic_offset(c, i, n) < step ==> (
                    #[trigger] old(self).contents()[i]).len() == 0,
                !found ==> forall|i: int|
                    0 <= i < n && cyclic_offset(c, i, n) < step ==> (
                    #[trigger] old(self).contents()[i]).len() == 0,
                !found ==> step == n,
            decreases num_buckets - step,
        {
            let cur = self.current_bucket;
            if self.buckets[cur].len() > 0 {
                found = true;
                break;
            }
            proof {
                lemma_wrap(c, step as int, n);
                assert(cyclic_offset(c, cur as int, n) == step);
                if step + 1 < n {
                    lemma_wrap(c, step as int + 1, n);
                }
                lemma_mod_succ(c + step, n);
            }
            self.current_bucket = (self.current_bucket + 1) % num_buckets;
            step = step + 1;
        }
        if !found {
            proof {
                let k = choose|k: int| 0 <= k < n && self.buckets@[k]@.len() > 0;
                assert(old(self).contents()[k].len() > 0);
                if k >= c {
                } else {
                }
            }
            return None;
        }
        let cur = self.current_bucket;
        let ghost old_b = self.buckets@;
        let mut b: Vec<usize> = Vec::new();
        std::mem::swap(&mut self.buckets[cur], &mut b);
        assert(b@.len() > 0);
        let x = b.pop();
        self.buckets[cur] = b;
        proof {
            assert(self.buckets@ == old_b.update(cur as int, b));
            lemma_queue_total_update(old_b, cur as int, b);
            lemma_wrap(c, step as int, n);
            assert(cyclic_offset(c, cur as int, n) == step);
            assert(self.contents() =~= old(self).contents().update(
                cur as int,
                old(self).contents()[cur as int].drop_last(),
            ));
        }
        self.size = self.size - 1;
        x
    }

    /// Whether no node is queued.
    pub fn is_empty(&self) -> (r: bool)
        ensures
            r == (self.size == 0),
    {
        self.size == 0
    }
}

} // verus!
