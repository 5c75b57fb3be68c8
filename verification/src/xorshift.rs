//! Reproducible permutations driven by a 64-bit xorshift generator.
use vstd::prelude::*;

verus! {

broadcast use {
    vstd::seq_lib::to_multiset_update,
    vstd::seq_lib::to_multiset_contains,
    vstd::multiset::group_multiset_axioms,
};

/// One step of the xorshift generator with shifts 13, 7, 17.
pub open spec fn xorshift(s: u64) -> u64 {
    let a = s ^ (s << 13u64);
    let b = a ^ (a >> 7u64);
    b ^ (b << 17u64)
}

/// The state after `k` xorshift steps from `s`.
pub open spec fn xorshift_iter(s: u64, k: nat) -> u64
    decreases k,
{
    if k == 0 {
        s
    } else {
        xorshift(xorshift_iter(s, (k - 1) as nat))
    }
}

/// The first `n` states of the xorshift generator started from `seed | 1`,
/// one per step: entry `i` is the state after `i + 1` steps.
pub fn xorshift_draws(seed: u64, n: usize) -> (r: Vec<u64>)
    ensures
        r@.len() == n,
        forall|i: int| 0 <= i < n ==> #[trigger] r@[i] == xorshift_iter(seed | 1, (i + 1) as nat),
{
    let mut r: Vec<u64> = Vec::new();
    let mut s: u64 = seed | 1;
    let mut i: usize = 0;
    while i < n
        invariant
            i <= n,
            r@.len() == i,
            s == xorshift_iter(seed | 1, i as nat),
            forall|q: int| 0 <= q < i ==> #[trigger] r@[q] == xorshift_iter(seed | 1, (q + 1) as nat),
        decreases n - i,
    {
        s = s ^ (s << 13);
        s = s ^ (s >> 7);
        s = s ^ (s << 17);
        r.push(s);
        i = i + 1;
    }
    r
}

/// `k` with the entries at `i` and `j` exchanged.
pub open spec fn swapped<T>(k: Seq<T>, i: int, j: int) -> Seq<T> {
    k.update(i, k[j]).update(j, k[i])
}

/// The Fisher-Yates shuffle of the first `i + 1` entries of `k`, walking
/// down from position `i`: each step draws the next xorshift state from `s`
/// and swaps position `i` with the state modulo `i + 1`.
pub open spec fn fisher_yates<T>(k: Seq<T>, s: u64, i: int) -> Seq<T>
    decreases i,
{
    if i < 1 {
        k
    } else {
        let s2 = xorshift(s);
        fisher_yates(swapped(k, i, (s2 % ((i + 1) as u64)) as int), s2, i - 1)
    }
}

/// Deterministic Fisher-Yates shuffle of `k` whose xorshift generator
/// starts from `seed | 1`.
pub fn permuted<T: Copy>(k: &Vec<T>, seed: u64) -> (out: Vec<T>)
    ensures
        k@.len() == 0 ==> out@ == k@,
        k@.len() > 0 ==> out@ == fisher_yates(k@, seed | 1, k@.len() - 1),
        out@.to_multiset() == k@.to_multiset(),
{
    let mut out: Vec<T> = Vec::new();
    let mut p: usize = 0;
    while p < k.len()
        invariant
            p <= k@.len(),
            out@ == k@.subrange(0, p as int),
        decreases k@.len() - p,
    {
        out.push(k[p]);
        p = p + 1;
    }
    proof {
        assert(out@ == k@);
    }
    if out.len() == 0 {
        return out;
    }
    let len = out.len();
    let mut s: u64 = seed | 1;
    let mut i: usize = len - 1;
    while i >= 1
        invariant
            len == out@.len(),
            i < out@.len(),
            out@.len() == k@.len(),
            fisher_yates(out@, s, i as int) == fisher_yates(k@, seed | 1, k@.len() - 1),
            out@.to_multiset() == k@.to_multiset(),
        decreases i,
    {
        s = s ^ (s << 13);
        s = s ^ (s >> 7);
        s = s ^ (s << 17);
        let j = (s % (i as u64 + 1)) as usize;
        let ghost o = out@;
        let a = out[i];
        let b = out[j];
        out.set(i, b);
        out.set(j, a);
        proof {
            let o1 = o.update(i as int, b);
            assert(o.contains(a));
            assert(o.to_multiset().count(a) > 0);
            assert(out@ == swapped(o, i as int, j as int));
            assert(o1.to_multiset() == o.to_multiset().insert(b).remove(a));
            assert(o1.update(j as int, a).to_multiset() == o1.to_multiset().insert(a).remove(o1[j as int]));
            assert(o1[j as int] == b);
            assert(out@.to_multiset() =~= o.to_multiset());
        }
        i = i - 1;
    }
    out
}

} // verus!
