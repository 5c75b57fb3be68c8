//! A verified merge sort over keyed elements.
use vstd::prelude::*;

verus! {

broadcast use {
    vstd::seq_lib::to_multiset_build,
    vstd::seq_lib::to_multiset_len,
    vstd::seq_lib::lemma_multiset_commutative,
    vstd::multiset::group_multiset_axioms,
    vstd::multiset::group_multiset_properties,
};

/// A total preorder on elements, decided by `le`.
pub trait SortKey: Sized {
    spec fn key_le(self, other: Self) -> bool;

    fn le(&self, other: &Self) -> (r: bool)
        ensures
            r == self.key_le(*other),
    ;

    proof fn lemma_total(a: Self, b: Self)
        ensures
            a.key_le(b) || b.key_le(a),
    ;

    proof fn lemma_trans(a: Self, b: Self, c: Self)
        requires
            a.key_le(b),
            b.key_le(c),
        ensures
            a.key_le(c),
    ;
}

/// Every element is ordered no later than each element after it.
pub open spec fn sorted_by<T: SortKey + Copy>(s: Seq<T>) -> bool {
    forall|i: int, j: int| 0 <= i < j < s.len() ==> s[i].key_le(s[j])
}

/// Copies `v[lo..hi]` into a new vector.
fn copy_range<T: SortKey + Copy>(v: &Vec<T>, lo: usize, hi: usize) -> (r: Vec<T>)
    requires
        lo <= hi <= v@.len(),
    ensures
        r@ == v@.subrange(lo as int, hi as int),
{
    let mut r: Vec<T> = Vec::new();
    let mut k = lo;
    while k < hi
        invariant
            lo <= k <= hi,
            hi <= v@.len(),
            r@ == v@.subrange(lo as int, k as int),
        decreases hi - k,
    {
        r.push(v[k]);
        k = k + 1;
    }
    r
}

/// Merges two sorted vectors into one sorted vector holding both.
fn merge<T: SortKey + Copy>(a: &Vec<T>, b: &Vec<T>) -> (r: Vec<T>)
    requires
        sorted_by(a@),
        sorted_by(b@),
    ensures
        sorted_by(r@),
        r@.to_multiset() == a@.to_multiset().add(b@.to_multiset()),
        r@.len() == a@.len() + b@.len(),
{
    let mut r: Vec<T> = Vec::new();
    let mut i: usize = 0;
    let mut j: usize = 0;
    proof {
        assert(a@.subrange(0, 0) =~= Seq::<T>::empty());
        assert(b@.subrange(0, 0) =~= Seq::<T>::empty());
        assert(r@ =~= Seq::<T>::empty());
        assert(Seq::<T>::empty().to_multiset().len() == 0);
    }
    while i < a.len() || j < b.len()
        invariant
            i <= a@.len(),
            j <= b@.len(),
            sorted_by(a@),
            sorted_by(b@),
            sorted_by(r@),
            r@.len() == i + j,
            r@.to_multiset() == a@.subrange(0, i as int).to_multiset().add(
                b@.subrange(0, j as int).to_multiset(),
            ),
            r@.len() > 0 && i < a@.len() ==> r@.last().key_le(a@[i as int]),
            r@.len() > 0 && j < b@.len() ==> r@.last().key_le(b@[j as int]),
        decreases a@.len() + b@.len() - i - j,
    {
        let ghost r0 = r@;
        let take_a = if i >= a.len() {
            false
        } else if j >= b.len() {
            true
        } else {
            a[i].le(&b[j])
        };
        let x = if take_a {
            a[i]
        } else {
            b[j]
        };
        proof {
            if i < a@.len() && j < b@.len() {
                T::lemma_total(a@[i as int], b@[j as int]);
            }
        }
        r.push(x);
        proof {
            assert forall|p: int, q: int| 0 <= p < q < r@.len() implies r@[p].key_le(r@[q]) by {
                if q == r@.len() - 1 && p < q {
                    assert(r0.last().key_le(x));
                    if p < r0.len() - 1 {
                        T::lemma_trans(r0[p], r0.last(), x);
                    }
                }
            }
        }
        if take_a {
            proof {
                assert(a@.subrange(0, i + 1) == a@.subrange(0, i as int).push(a@[i as int]));
                if i + 1 < a@.len() {
                    assert(a@[i as int].key_le(a@[i + 1]));
                }
            }
            i = i + 1;
        } else {
            proof {
                assert(b@.subrange(0, j + 1) == b@.subrange(0, j as int).push(b@[j as int]));
                if j + 1 < b@.len() {
                    assert(b@[j as int].key_le(b@[j + 1]));
                }
            }
            j = j + 1;
        }
    }
    proof {
        assert(a@.subrange(0, i as int) == a@);
        assert(b@.subrange(0, j as int) == b@);
    }
    r
}

/// Sorts by `le`: the result is a sorted permutation of `v`.
pub fn merge_sort<T: SortKey + Copy>(v: &Vec<T>) -> (r: Vec<T>)
    ensures
        sorted_by(r@),
        r@.to_multiset() == v@.to_multiset(),
        r@.len() == v@.len(),
    decreases v@.len(),
{
    let len = v.len();
    if len <= 1 {
        let r = copy_range(v, 0, len);
        proof {
            assert(r@ == v@);
        }
        return r;
    }
    let mid = len / 2;
    let left = copy_range(v, 0, mid);
    let right = copy_range(v, mid, len);
    let sl = merge_sort(&left);
    let sr = merge_sort(&right);
    let r = merge(&sl, &sr);
    proof {
        assert(v@ == left@ + right@);
    }
    r
}

/// Under an antisymmetric order there is one sorted arrangement of a
/// multiset: two sorted sequences with the same elements are equal.
pub proof fn lemma_sorted_unique<T: SortKey + Copy>(a: Seq<T>, b: Seq<T>)
    requires
        sorted_by(a),
        sorted_by(b),
        a.to_multiset() == b.to_multiset(),
        forall|x: T, y: T| #[trigger] x.key_le(y) && #[trigger] y.key_le(x) ==> x == y,
    ensures
        a == b,
    decreases a.len(),
{
    broadcast use {vstd::seq_lib::to_multiset_contains, vstd::seq_lib::to_multiset_remove};

    vstd::seq_lib::to_multiset_len(a);
    vstd::seq_lib::to_multiset_len(b);
    if a.len() == 0 {
        assert(a =~= b);
    } else {
        assert(a.to_multiset().count(a[0]) > 0);
        assert(b.contains(a[0]));
        let j = choose|j: int| 0 <= j < b.len() && b[j] == a[0];
        assert(b.to_multiset().count(b[0]) > 0);
        assert(a.contains(b[0]));
        let i = choose|i: int| 0 <= i < a.len() && a[i] == b[0];
        if i > 0 {
            assert(a[0].key_le(a[i]));
        } else {
            T::lemma_total(a[0], a[0]);
        }
        if j > 0 {
            assert(b[0].key_le(b[j]));
        } else {
            T::lemma_total(b[0], b[0]);
        }
        assert(a[0] == b[0]);
        assert(a.remove(0) == a.drop_first());
        assert(b.remove(0) == b.drop_first());
        assert(a.drop_first().to_multiset() == b.drop_first().to_multiset());
        lemma_sorted_unique(a.drop_first(), b.drop_first());
        assert(a =~= seq![a[0]] + a.drop_first());
        assert(b =~= seq![b[0]] + b.drop_first());
    }
}

} // verus!
