//! The order in which timed arms run: seeded shuffles alternating with their
//! reverses, so that over each pair of rounds every arm takes complementary
//! positions; and the choice of the arm with the least median.
use rand::seq::SliceRandom;
use rand::SeedableRng;
use rand_chacha::ChaCha8Rng;
use vstd::prelude::*;

verus! {

#[verifier::external_type_specification]
#[verifier::external_body]
pub struct ExChaCha8Rng(ChaCha8Rng);

/// The order that `SliceRandom::shuffle` gives `items` when it draws from a
/// `ChaCha8Rng` made by `SeedableRng::seed_from_u64(seed)` that has already
/// shuffled slices of the lengths in `lens`, in that order.
pub uninterp spec fn chacha_stream_shuffle(items: Seq<usize>, seed: u64, lens: Seq<nat>) -> Seq<usize>;

/// A seeded `ChaCha8Rng` used only for shuffles, with the seed it was made
/// from and the lengths of the slices it has shuffled so far.
pub struct ShuffleStream {
    rng: ChaCha8Rng,
    seed: Ghost<u64>,
    lens: Ghost<Seq<nat>>,
}

impl ShuffleStream {
    /// The seed the generator was made from.
    pub closed spec fn seed(&self) -> u64 {
        self.seed@
    }

    /// Lengths of the slices shuffled so far, oldest first.
    pub closed spec fn lens(&self) -> Seq<nat> {
        self.lens@
    }

    /// A generator made by `ChaCha8Rng::seed_from_u64(seed)`, nothing
    /// shuffled yet. Claimed: only that it records `seed` and no shuffles.
    #[verifier::external_body]
    pub fn new(seed: u64) -> (s: Self)
        ensures
            s.seed() == seed,
            s.lens() == Seq::<nat>::empty(),
    {
        ShuffleStream { rng: ChaCha8Rng::seed_from_u64(seed), seed: Ghost(seed), lens: Ghost(Seq::empty()) }
    }

    /// Shuffles `items` in place with `rand::seq::SliceRandom::shuffle`,
    /// drawing from the generator. Claimed: the result is the order named
    /// `chacha_stream_shuffle(items, seed, lens)`, which depends only on the
    /// items, the seed and the lengths shuffled before (the generator is
    /// deterministic and advanced by nothing else); the entries are only
    /// swapped, so their multiset is kept; and the length is recorded. Which
    /// order the name is, is not stated.
    #[verifier::external_body]
    pub fn shuffle(&mut self, items: &mut Vec<usize>)
        ensures
            final(items)@ == chacha_stream_shuffle(old(items)@, old(self).seed(), old(self).lens()),
            final(items)@.to_multiset() == old(items)@.to_multiset(),
            final(self).seed() == old(self).seed(),
            final(self).lens() == old(self).lens().push(old(items)@.len()),
    {
        items.shuffle(&mut self.rng);
        self.lens = Ghost(self.lens@.push(items@.len()));
    }
}

/// `t` copies of the length `n`.
pub open spec fn repeated(n: nat, t: nat) -> Seq<nat> {
    Seq::new(t, |i: int| n)
}

/// The positions `0..n`.
pub open spec fn positions(n: nat) -> Seq<usize> {
    Seq::new(n, |i: int| i as usize)
}

/// The order a round starts from: the positions before the first round,
/// the previous round after that.
spec fn before_round(r: Seq<Vec<usize>>, arms: nat, k: int) -> Seq<usize> {
    if k == 0 {
        positions(arms)
    } else {
        r[k - 1]@
    }
}

/// Round `q` of `r` is a permutation of the positions, the stream shuffle of
/// the order before it when `q` is even, the reverse of that order when odd.
spec fn round_ok(r: Seq<Vec<usize>>, arms: nat, seed: u64, q: int) -> bool {
    &&& r[q]@.to_multiset() == positions(arms).to_multiset()
    &&& q % 2 == 0 ==> r[q]@ == chacha_stream_shuffle(before_round(r, arms, q), seed, repeated(arms, (q / 2) as nat))
    &&& q % 2 == 1 ==> r[q]@ == r[q - 1]@.reverse()
}

/// Arm orders for `rounds` timed rounds over `arms` arms: each even round
/// shuffles the previous order (the positions `0..arms` before the first)
/// with one generator seeded by `seed`, each odd round is the reverse of the
/// round before it. Every round lists each arm once, and in each pair of
/// rounds an arm at position `p` moves to `arms - 1 - p`.
#[verifier::rlimit(30)]
pub fn round_orders(arms: usize, rounds: usize, seed: u64) -> (r: Vec<Vec<usize>>)
    ensures
        r@.len() == rounds,
        forall|k: int|
            0 <= k < rounds && k % 2 == 0 ==> (#[trigger] r@[k])@ == chacha_stream_shuffle(
                if k == 0 {
                    positions(arms as nat)
                } else {
                    r@[k - 1]@
                },
                seed,
                repeated(arms as nat, (k / 2) as nat),
            ),
        forall|k: int|
            0 <= k < rounds ==> (#[trigger] r@[k])@.to_multiset() == positions(arms as nat).to_multiset(),
        forall|k: int| 0 <= k < rounds && k % 2 == 1 ==> (#[trigger] r@[k])@ == r@[k - 1]@.reverse(),
{
    let mut order: Vec<usize> = Vec::new();
    let mut i: usize = 0;
    while i < arms
        invariant
            i <= arms,
            order@ == positions(i as nat),
        decreases arms - i,
    {
        order.push(i);
        i = i + 1;
        proof {
            assert(order@ == positions(i as nat));
        }
    }
    let mut rng = ShuffleStream::new(seed);
    let mut r: Vec<Vec<usize>> = Vec::new();
    let mut k: usize = 0;
    while k < rounds
        invariant
            k <= rounds,
            r@.len() == k,
            rng.seed() == seed,
            rng.lens() == repeated(arms as nat, ((k + 1) / 2) as nat),
            order@ == before_round(r@, arms as nat, k as int),
            order@.len() == arms,
            order@.to_multiset() == positions(arms as nat).to_multiset(),
            forall|q: int| 0 <= q < k ==> #[trigger] round_ok(r@, arms as nat, seed, q),
        decreases rounds - k,
    {
        let ghost prev = order@;
        let ghost r0 = r@;
        if k % 2 == 0 {
            rng.shuffle(&mut order);
            proof {
                vstd::seq_lib::to_multiset_len(order@);
                vstd::seq_lib::to_multiset_len(prev);
                assert(((k + 1) / 2) as nat == (k / 2) as nat);
                assert(repeated(arms as nat, (k / 2) as nat).push(arms as nat) =~= repeated(
                    arms as nat,
                    ((k + 2) / 2) as nat,
                ));
            }
        } else {
            let mut rev: Vec<usize> = Vec::new();
            let mut j: usize = order.len();
            while j > 0
                invariant
                    j <= order@.len(),
                    rev@.len() == order@.len() - j,
                    forall|p: int| 0 <= p < rev@.len() ==> #[trigger] rev@[p] == order@[order@.len() - 1 - p],
                decreases j,
            {
                j = j - 1;
                rev.push(order[j]);
            }
            proof {
                assert(rev@ =~= prev.reverse());
                prev.lemma_reverse_to_multiset();
                assert(((k + 1) / 2) as nat == ((k + 2) / 2) as nat);
                assert(rev@.len() == arms);
            }
            order = rev;
        }
        r.push(order.clone());
        proof {
            assert forall|q: int| 0 <= q < k + 1 implies #[trigger] round_ok(r@, arms as nat, seed, q) by {
                if q < k {
                    assert(round_ok(r0, arms as nat, seed, q));
                    assert(r@[q] == r0[q]);
                    if q > 0 {
                        assert(r@[q - 1] == r0[q - 1]);
                    }
                } else {
                    if k > 0 {
                        assert(r@[k - 1] == r0[k - 1]);
                    }
                }
            }
        }
        k = k + 1;
    }
    proof {
        assert forall|q: int| 0 <= q < rounds && q % 2 == 0 implies (#[trigger] r@[q])@ == chacha_stream_shuffle(
            if q == 0 {
                positions(arms as nat)
            } else {
                r@[q - 1]@
            },
            seed,
            repeated(arms as nat, (q / 2) as nat),
        ) by {
            assert(round_ok(r@, arms as nat, seed, q));
        }
        assert forall|q: int| 0 <= q < rounds implies (#[trigger] r@[q])@.to_multiset() == positions(
            arms as nat,
        ).to_multiset() by {
            assert(round_ok(r@, arms as nat, seed, q));
        }
        assert forall|q: int| 0 <= q < rounds && q % 2 == 1 implies (#[trigger] r@[q])@ == r@[q
            - 1]@.reverse() by {
            assert(round_ok(r@, arms as nat, seed, q));
        }
    }
    r
}

/// The first position of the least entry of `med`; `None` when it is empty.
pub fn least_index(med: &[u128]) -> (r: Option<usize>)
    ensures
        r is None <==> med@.len() == 0,
        r matches Some(b) ==> b < med@.len() && (forall|i: int| 0 <= i < med@.len() ==> med@[b as int] <= med@[i])
            && (forall|i: int| 0 <= i < b ==> med@[b as int] < med@[i]),
{
    if med.len() == 0 {
        return None;
    }
    let mut best: usize = 0;
    let mut i: usize = 1;
    while i < med.len()
        invariant
            1 <= i <= med@.len(),
            best < i,
            forall|q: int| 0 <= q < i ==> med@[best as int] <= med@[q],
            forall|q: int| 0 <= q < best ==> med@[best as int] < med@[q],
        decreases med@.len() - i,
    {
        if med[i] < med[best] {
            best = i;
        }
        i = i + 1;
    }
    Some(best)
}

} // verus!
