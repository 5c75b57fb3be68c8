//! Scout admission masks: one bit per arc, with the number of admitted arcs
//! and the summed out-degree of their heads (the scouting work they could
//! cause).
use crate::graph::{arc_total, lemma_arc_total_bounds, Graph};
use crate::sort::{merge_sort, sorted_by, SortKey};
use rand::seq::SliceRandom;
use rand::SeedableRng;
use rand_chacha::ChaCha8Rng;
use vstd::prelude::*;

verus! {

broadcast use {
    vstd::seq_lib::to_multiset_build,
    vstd::seq_lib::to_multiset_contains,
    vstd::seq_lib::to_multiset_len,
    vstd::multiset::group_multiset_axioms,
};

/// Number of set bits among the first `j` of a row.
pub open spec fn row_count(bits: Seq<bool>, j: int) -> int
    decreases j,
{
    if j <= 0 {
        0
    } else {
        row_count(bits, j - 1) + if bits[j - 1] {
            1int
        } else {
            0int
        }
    }
}

/// Number of set bits in the first `k` rows.
pub open spec fn count_total(bits: Seq<Seq<bool>>, k: int) -> int
    decreases k,
{
    if k <= 0 {
        0
    } else {
        count_total(bits, k - 1) + row_count(bits[k - 1], bits[k - 1].len() as int)
    }
}

/// Out-degree of vertex `v`, 0 for a vertex beyond the graph.
pub open spec fn head_degree(degree: Seq<usize>, v: usize) -> int {
    if v < degree.len() {
        degree[v as int] as int
    } else {
        0
    }
}

/// Summed out-degree of the heads of the set arcs among the first `j` of a row.
pub open spec fn row_work(bits: Seq<bool>, row: Seq<(usize, u64)>, degree: Seq<usize>, j: int) -> int
    decreases j,
{
    if j <= 0 {
        0
    } else {
        row_work(bits, row, degree, j - 1) + if bits[j - 1] {
            head_degree(degree, row[j - 1].0)
        } else {
            0int
        }
    }
}

/// Summed out-degree of the heads of the set arcs in the first `k` rows.
pub open spec fn work_total(
    bits: Seq<Seq<bool>>,
    adj: Seq<Vec<(usize, u64)>>,
    degree: Seq<usize>,
    k: int,
) -> int
    decreases k,
{
    if k <= 0 {
        0
    } else {
        work_total(bits, adj, degree, k - 1) + row_work(
            bits[k - 1],
            adj[k - 1]@,
            degree,
            bits[k - 1].len() as int,
        )
    }
}

/// Summed out-degree of the heads of the first `j` arcs of a row.
pub open spec fn row_full(row: Seq<(usize, u64)>, degree: Seq<usize>, j: int) -> int
    decreases j,
{
    if j <= 0 {
        0
    } else {
        row_full(row, degree, j - 1) + head_degree(degree, row[j - 1].0)
    }
}

/// Summed out-degree of the heads of all arcs in the first `k` rows: the
/// work of the mask that admits every arc.
pub open spec fn full_work(adj: Seq<Vec<(usize, u64)>>, degree: Seq<usize>, k: int) -> int
    decreases k,
{
    if k <= 0 {
        0
    } else {
        full_work(adj, degree, k - 1) + row_full(adj[k - 1]@, degree, adj[k - 1]@.len() as int)
    }
}

proof fn lemma_row_prefix(bits: Seq<bool>, b: bool, row: Seq<(usize, u64)>, degree: Seq<usize>, j: int)
    requires
        0 <= j <= bits.len(),
    ensures
        row_count(bits.push(b), j) == row_count(bits, j),
        row_work(bits.push(b), row, degree, j) == row_work(bits, row, degree, j),
    decreases j,
{
    if j > 0 {
        lemma_row_prefix(bits, b, row, degree, j - 1);
    }
}

pub proof fn lemma_row_bounds(bits: Seq<bool>, row: Seq<(usize, u64)>, degree: Seq<usize>, j: int)
    requires
        0 <= j,
    ensures
        0 <= row_count(bits, j) <= j,
        0 <= row_work(bits, row, degree, j) <= row_full(row, degree, j),
    decreases j,
{
    if j > 0 {
        lemma_row_bounds(bits, row, degree, j - 1);
    }
}

proof fn lemma_row_full_mono(row: Seq<(usize, u64)>, degree: Seq<usize>, i: int, j: int)
    requires
        0 <= i <= j,
    ensures
        0 <= row_full(row, degree, i) <= row_full(row, degree, j),
    decreases j,
{
    if j > i {
        lemma_row_full_mono(row, degree, i, j - 1);
    } else if i > 0 {
        lemma_row_full_mono(row, degree, 0, i - 1);
    }
}

proof fn lemma_total_prefix(
    bits: Seq<Seq<bool>>,
    r: Seq<bool>,
    adj: Seq<Vec<(usize, u64)>>,
    degree: Seq<usize>,
    k: int,
)
    requires
        0 <= k <= bits.len(),
    ensures
        count_total(bits.push(r), k) == count_total(bits, k),
        work_total(bits.push(r), adj, degree, k) == work_total(bits, adj, degree, k),
    decreases k,
{
    if k > 0 {
        lemma_total_prefix(bits, r, adj, degree, k - 1);
        assert(bits.push(r)[k - 1] == bits[k - 1]);
    }
}

proof fn lemma_full_mono(adj: Seq<Vec<(usize, u64)>>, degree: Seq<usize>, i: int, j: int)
    requires
        0 <= i <= j,
    ensures
        0 <= full_work(adj, degree, i) <= full_work(adj, degree, j),
    decreases j,
{
    if j > i {
        lemma_full_mono(adj, degree, i, j - 1);
        lemma_row_full_mono(adj[j - 1]@, degree, 0, adj[j - 1]@.len() as int);
    } else if i > 0 {
        lemma_full_mono(adj, degree, 0, i - 1);
        lemma_row_full_mono(adj[i - 1]@, degree, 0, adj[i - 1]@.len() as int);
    }
}

pub proof fn lemma_count_update(bits: Seq<bool>, p: int, j: int)
    requires
        0 <= p < j <= bits.len(),
        !bits[p],
    ensures
        row_count(bits.update(p, true), j) == row_count(bits, j) + 1,
    decreases j,
{
    if j - 1 > p {
        lemma_count_update(bits, p, j - 1);
    } else {
        lemma_row_prefix_eq(bits, bits.update(p, true), p);
    }
}

proof fn lemma_work_update(bits: Seq<bool>, row: Seq<(usize, u64)>, degree: Seq<usize>, p: int, j: int)
    requires
        0 <= p < j <= bits.len(),
        !bits[p],
    ensures
        row_work(bits.update(p, true), row, degree, j) == row_work(bits, row, degree, j)
            + head_degree(degree, row[p].0),
    decreases j,
{
    if j - 1 > p {
        lemma_work_update(bits, row, degree, p, j - 1);
    } else {
        lemma_row_prefix_eq(bits, bits.update(p, true), p);
        lemma_row_work_prefix_eq(bits, bits.update(p, true), row, degree, p);
    }
}

proof fn lemma_row_prefix_eq(a: Seq<bool>, b: Seq<bool>, j: int)
    requires
        0 <= j <= a.len(),
        j <= b.len(),
        forall|i: int| 0 <= i < j ==> a[i] == b[i],
    ensures
        row_count(a, j) == row_count(b, j),
    decreases j,
{
    if j > 0 {
        lemma_row_prefix_eq(a, b, j - 1);
    }
}

proof fn lemma_row_work_prefix_eq(
    a: Seq<bool>,
    b: Seq<bool>,
    row: Seq<(usize, u64)>,
    degree: Seq<usize>,
    j: int,
)
    requires
        0 <= j <= a.len(),
        j <= b.len(),
        forall|i: int| 0 <= i < j ==> a[i] == b[i],
    ensures
        row_work(a, row, degree, j) == row_work(b, row, degree, j),
    decreases j,
{
    if j > 0 {
        lemma_row_work_prefix_eq(a, b, row, degree, j - 1);
    }
}

proof fn lemma_total_update(
    bits: Seq<Seq<bool>>,
    adj: Seq<Vec<(usize, u64)>>,
    degree: Seq<usize>,
    u: int,
    r: Seq<bool>,
    k: int,
)
    requires
        0 <= u < k <= bits.len(),
    ensures
        count_total(bits.update(u, r), k) == count_total(bits, k) - row_count(
            bits[u],
            bits[u].len() as int,
        ) + row_count(r, r.len() as int),
        work_total(bits.update(u, r), adj, degree, k) == work_total(bits, adj, degree, k) - row_work(
            bits[u],
            adj[u]@,
            degree,
            bits[u].len() as int,
        ) + row_work(r, adj[u]@, degree, r.len() as int),
    decreases k,
{
    if k - 1 > u {
        lemma_total_update(bits, adj, degree, u, r, k - 1);
    } else {
        lemma_total_same(bits, bits.update(u, r), adj, degree, u);
    }
}

proof fn lemma_total_same(
    a: Seq<Seq<bool>>,
    b: Seq<Seq<bool>>,
    adj: Seq<Vec<(usize, u64)>>,
    degree: Seq<usize>,
    k: int,
)
    requires
        0 <= k <= a.len(),
        k <= b.len(),
        forall|i: int| 0 <= i < k ==> a[i] == b[i],
    ensures
        count_total(a, k) == count_total(b, k),
        work_total(a, adj, degree, k) == work_total(b, adj, degree, k),
    decreases k,
{
    if k > 0 {
        lemma_total_same(a, b, adj, degree, k - 1);
    }
}

/// The score rank `k` is that of a number, not a NaN: it lies between the
/// ranks of `-∞` and `+∞`.
pub open spec fn number_rank(k: u64) -> bool {
    0x000F_FFFF_FFFF_FFFFu64 <= k <= 0xFFF0_0000_0000_0000u64
}

/// The larger of two score ranks, a NaN giving way to the other score (as
/// `f64::max` does); the larger rank when both are NaN.
pub open spec fn max_rank(x: u64, y: u64) -> u64 {
    if !number_rank(x) && number_rank(y) {
        y
    } else if number_rank(x) && !number_rank(y) {
        x
    } else if x >= y {
        x
    } else {
        y
    }
}

/// The smaller of two score ranks, a NaN giving way to the other score (as
/// `f64::min` does); the smaller rank when both are NaN.
pub open spec fn min_rank(x: u64, y: u64) -> u64 {
    if !number_rank(x) && number_rank(y) {
        y
    } else if number_rank(x) && !number_rank(y) {
        x
    } else if x <= y {
        x
    } else {
        y
    }
}

/// Ranking score of arc `u -> v`: present when both endpoints have a score
/// (each given by its rank in the binary64 total order). For `high` it is the
/// rank of the negated smaller score, otherwise the rank of the larger one.
pub open spec fn pair_score(scores: Seq<Option<u64>>, u: int, v: int, high: bool) -> Option<u64> {
    if scores[u] is Some && scores[v] is Some {
        let x = scores[u]->0;
        let y = scores[v]->0;
        Some(
            if high {
                (u64::MAX - min_rank(x, y)) as u64
            } else {
                max_rank(x, y)
            },
        )
    } else {
        None
    }
}

/// The ranking score of two present endpoint scores.
fn pair_rank(x: u64, y: u64, high: bool) -> (r: u64)
    ensures
        r == if high {
            (u64::MAX - min_rank(x, y)) as u64
        } else {
            max_rank(x, y)
        },
{
    let nx = 0x000F_FFFF_FFFF_FFFFu64 <= x && x <= 0xFFF0_0000_0000_0000u64;
    let ny = 0x000F_FFFF_FFFF_FFFFu64 <= y && y <= 0xFFF0_0000_0000_0000u64;
    if high {
        let m = if !nx && ny {
            y
        } else if nx && !ny {
            x
        } else if x <= y {
            x
        } else {
            y
        };
        u64::MAX - m
    } else if !nx && ny {
        y
    } else if nx && !ny {
        x
    } else if x >= y {
        x
    } else {
        y
    }
}

/// How arcs rank, for endpoint scores that are numbers: ranking `high`,
/// an arc whose smaller endpoint score is larger gets the smaller key, so the
/// flattest pair is admitted first, and two arcs with the same smaller
/// endpoint score tie; ranking low, an arc whose larger endpoint score is
/// larger gets the larger key. An arc with an unscored endpoint gets no key.
pub proof fn lemma_pair_score_order(scores: Seq<Option<u64>>, a: int, b: int, c: int, d: int)
    requires
        0 <= a < scores.len(),
        0 <= b < scores.len(),
        0 <= c < scores.len(),
        0 <= d < scores.len(),
        scores[a] matches Some(x) && number_rank(x),
        scores[b] matches Some(x) && number_rank(x),
        scores[c] matches Some(x) && number_rank(x),
        scores[d] matches Some(x) && number_rank(x),
    ensures
        ({
            let (xa, xb, xc, xd) = (scores[a]->0, scores[b]->0, scores[c]->0, scores[d]->0);
            let lo1 = if xa <= xb { xa } else { xb };
            let lo2 = if xc <= xd { xc } else { xd };
            let hi1 = if xa >= xb { xa } else { xb };
            let hi2 = if xc >= xd { xc } else { xd };
            &&& pair_score(scores, a, b, true) matches Some(k1) && pair_score(scores, c, d, true) matches Some(
                k2,
            ) && (lo1 > lo2 ==> k1 < k2) && (lo1 == lo2 ==> k1 == k2)
            &&& pair_score(scores, a, b, false) matches Some(k1) && pair_score(scores, c, d, false) matches Some(
                k2,
            ) && (hi1 > hi2 ==> k1 > k2) && (hi1 == hi2 ==> k1 == k2)
        }),
        forall|u: int, v: int|
            0 <= u < scores.len() && 0 <= v < scores.len() && (scores[u] is None || scores[v] is None) ==> (
            #[trigger] pair_score(scores, u, v, true)) is None && pair_score(scores, u, v, false) is None,
{
}

/// A NaN endpoint score gives way to the other endpoint's score, as
/// `f64::max` and `f64::min` do: the arc ranks as if both endpoints had the
/// number score, whichever way it is ranked.
pub proof fn lemma_pair_score_nan(scores: Seq<Option<u64>>, a: int, b: int, high: bool)
    requires
        0 <= a < scores.len(),
        0 <= b < scores.len(),
        scores[a] matches Some(x) && !number_rank(x),
        scores[b] matches Some(y) && number_rank(y),
    ensures
        pair_score(scores, a, b, high) == pair_score(scores, b, b, high),
        pair_score(scores, b, a, high) == pair_score(scores, b, b, high),
        pair_score(scores, b, b, high) == Some(
            if high {
                (u64::MAX - scores[b]->0) as u64
            } else {
                scores[b]->0
            },
        ),
{
}

/// Scored arcs `(score, u, j)` among the first `j` arcs of row `u`.
pub open spec fn ranked_row(
    row: Seq<(usize, u64)>,
    scores: Seq<Option<u64>>,
    high: bool,
    u: int,
    j: int,
) -> Seq<(u64, usize, usize)>
    decreases j,
{
    if j <= 0 {
        Seq::empty()
    } else {
        let prev = ranked_row(row, scores, high, u, j - 1);
        match pair_score(scores, u, row[j - 1].0 as int, high) {
            Some(sc) => prev.push((sc, u as usize, (j - 1) as usize)),
            None => prev,
        }
    }
}

/// Scored arcs of the first `k` rows, in storage order.
pub open spec fn ranked_list(
    adj: Seq<Vec<(usize, u64)>>,
    scores: Seq<Option<u64>>,
    high: bool,
    k: int,
) -> Seq<(u64, usize, usize)>
    decreases k,
{
    if k <= 0 {
        Seq::empty()
    } else {
        ranked_list(adj, scores, high, k - 1) + ranked_row(
            adj[k - 1]@,
            scores,
            high,
            k - 1,
            adj[k - 1]@.len() as int,
        )
    }
}

/// Arcs `(u, j, head)` of the first `k` rows, in storage order.
pub open spec fn arc_list(adj: Seq<Vec<(usize, u64)>>, k: int) -> Seq<(usize, usize, usize)>
    decreases k,
{
    if k <= 0 {
        Seq::empty()
    } else {
        arc_list(adj, k - 1) + Seq::new(
            adj[k - 1]@.len(),
            |j: int| ((k - 1) as usize, j as usize, adj[k - 1]@[j].0),
        )
    }
}

/// The smaller of two integers.
pub open spec fn min_int(a: int, b: int) -> int {
    if a <= b {
        a
    } else {
        b
    }
}

/// Every arc's endpoints have a score slot.
pub open spec fn scores_cover(adj: Seq<Vec<(usize, u64)>>, scores: Seq<Option<u64>>) -> bool {
    forall|u: int, j: int|
        0 <= u < adj.len() && 0 <= j < adj[u]@.len() ==> u < scores.len() && (
        #[trigger] adj[u]@[j]).0 < scores.len()
}

/// `(u, j)` names arc `j` of vertex `u`.
pub open spec fn valid_arc(adj: Seq<Vec<(usize, u64)>>, u: int, j: int) -> bool {
    0 <= u < adj.len() && 0 <= j < adj[u]@.len()
}

/// Strictly increasing positions `(u, j)`.
pub open spec fn pos_lt(a: (usize, usize), b: (usize, usize)) -> bool {
    a.0 < b.0 || (a.0 == b.0 && a.1 < b.1)
}

impl SortKey for (u64, usize, usize) {
    open spec fn key_le(self, other: Self) -> bool {
        self.0 < other.0 || (self.0 == other.0 && (self.1 < other.1 || (self.1 == other.1
            && self.2 <= other.2)))
    }

    fn le(&self, other: &Self) -> (r: bool) {
        self.0 < other.0 || (self.0 == other.0 && (self.1 < other.1 || (self.1 == other.1
            && self.2 <= other.2)))
    }

    proof fn lemma_total(a: Self, b: Self) {
    }

    proof fn lemma_trans(a: Self, b: Self, c: Self) {
    }
}

proof fn lemma_ranked_row(row: Seq<(usize, u64)>, scores: Seq<Option<u64>>, high: bool, u: int, j: int)
    requires
        0 <= u,
        u <= usize::MAX,
        0 <= j <= row.len(),
        row.len() <= usize::MAX,
    ensures
        forall|a: int|
            0 <= a < ranked_row(row, scores, high, u, j).len() ==> {
                let e = #[trigger] ranked_row(row, scores, high, u, j)[a];
                &&& e.1 == u
                &&& e.2 < j
                &&& pair_score(scores, u, row[e.2 as int].0 as int, high) == Some(e.0)
            },
        forall|a: int, b: int|
            0 <= a < b < ranked_row(row, scores, high, u, j).len() ==> (#[trigger] ranked_row(
                row,
                scores,
                high,
                u,
                j,
            )[a]).2 < (#[trigger] ranked_row(row, scores, high, u, j)[b]).2,
    decreases j,
{
    if j > 0 {
        lemma_ranked_row(row, scores, high, u, j - 1);
        let prev = ranked_row(row, scores, high, u, j - 1);
        let cur = ranked_row(row, scores, high, u, j);
        match pair_score(scores, u, row[j - 1].0 as int, high) {
            Some(sc) => {
                assert(cur == prev.push((sc, u as usize, (j - 1) as usize)));
                assert forall|a: int| 0 <= a < cur.len() implies {
                    let e = #[trigger] cur[a];
                    &&& e.1 == u
                    &&& e.2 < j
                    &&& pair_score(scores, u, row[e.2 as int].0 as int, high) == Some(e.0)
                } by {
                    if a < prev.len() {
                        assert(cur[a] == prev[a]);
                    }
                }
                assert forall|a: int, b: int| 0 <= a < b < cur.len() implies (#[trigger] cur[a]).2
                    < (#[trigger] cur[b]).2 by {
                    assert(cur[a] == prev[a]);
                    if b < prev.len() {
                        assert(cur[b] == prev[b]);
                    }
                }
            },
            None => {},
        }
    }
}

proof fn lemma_ranked_list(adj: Seq<Vec<(usize, u64)>>, scores: Seq<Option<u64>>, high: bool, k: int)
    requires
        0 <= k <= adj.len(),
        adj.len() <= usize::MAX,
    ensures
        forall|a: int|
            0 <= a < ranked_list(adj, scores, high, k).len() ==> {
                let e = #[trigger] ranked_list(adj, scores, high, k)[a];
                &&& e.1 < k
                &&& valid_arc(adj, e.1 as int, e.2 as int)
                &&& pair_score(scores, e.1 as int, adj[e.1 as int]@[e.2 as int].0 as int, high)
                    == Some(e.0)
            },
        forall|a: int, b: int|
            0 <= a < b < ranked_list(adj, scores, high, k).len() ==> pos_lt(
                ((#[trigger] ranked_list(adj, scores, high, k)[a]).1, ranked_list(
                    adj,
                    scores,
                    high,
                    k,
                )[a].2),
                ((#[trigger] ranked_list(adj, scores, high, k)[b]).1, ranked_list(
                    adj,
                    scores,
                    high,
                    k,
                )[b].2),
            ),
    decreases k,
{
    if k > 0 {
        lemma_ranked_list(adj, scores, high, k - 1);
        assert(adj[k - 1]@.len() == adj[k - 1].len());
        lemma_ranked_row(adj[k - 1]@, scores, high, k - 1, adj[k - 1]@.len() as int);
        let p = ranked_list(adj, scores, high, k - 1);
        let r = ranked_row(adj[k - 1]@, scores, high, k - 1, adj[k - 1]@.len() as int);
        assert(ranked_list(adj, scores, high, k) == p + r);
        assert forall|a: int| 0 <= a < (p + r).len() implies {
            let e = #[trigger] (p + r)[a];
            &&& e.1 < k
            &&& valid_arc(adj, e.1 as int, e.2 as int)
            &&& pair_score(scores, e.1 as int, adj[e.1 as int]@[e.2 as int].0 as int, high)
                == Some(e.0)
        } by {
            if a < p.len() {
                assert((p + r)[a] == p[a]);
            } else {
                assert((p + r)[a] == r[a - p.len()]);
            }
        }
        assert forall|a: int, b: int| 0 <= a < b < (p + r).len() implies pos_lt(
            ((#[trigger] (p + r)[a]).1, (p + r)[a].2),
            ((#[trigger] (p + r)[b]).1, (p + r)[b].2),
        ) by {
            if b < p.len() {
                assert((p + r)[a] == p[a]);
                assert((p + r)[b] == p[b]);
            } else if a < p.len() {
                assert((p + r)[a] == p[a]);
                assert((p + r)[b] == r[b - p.len()]);
            } else {
                assert((p + r)[a] == r[a - p.len()]);
                assert((p + r)[b] == r[b - p.len()]);
            }
        }
    }
}

pub proof fn lemma_arc_list(adj: Seq<Vec<(usize, u64)>>, k: int)
    requires
        0 <= k <= adj.len(),
        adj.len() <= usize::MAX,
    ensures
        arc_list(adj, k).len() == arc_total(adj.subrange(0, k)),
        forall|a: int|
            0 <= a < arc_list(adj, k).len() ==> {
                let e = #[trigger] arc_list(adj, k)[a];
                &&& e.0 < k
                &&& valid_arc(adj, e.0 as int, e.1 as int)
                &&& e.2 == adj[e.0 as int]@[e.1 as int].0
            },
        forall|a: int, b: int|
            0 <= a < b < arc_list(adj, k).len() ==> pos_lt(
                ((#[trigger] arc_list(adj, k)[a]).0, arc_list(adj, k)[a].1),
                ((#[trigger] arc_list(adj, k)[b]).0, arc_list(adj, k)[b].1),
            ),
    decreases k,
{
    if k > 0 {
        lemma_arc_list(adj, k - 1);
        let p = arc_list(adj, k - 1);
        let r = Seq::new(adj[k - 1]@.len(), |j: int| ((k - 1) as usize, j as usize, adj[k - 1]@[j].0));
        assert(arc_list(adj, k) == p + r);
        assert(adj.subrange(0, k).drop_last() == adj.subrange(0, k - 1));
        assert(adj[k - 1]@.len() == adj[k - 1].len());
        assert forall|a: int| 0 <= a < (p + r).len() implies {
            let e = #[trigger] (p + r)[a];
            &&& e.0 < k
            &&& valid_arc(adj, e.0 as int, e.1 as int)
            &&& e.2 == adj[e.0 as int]@[e.1 as int].0
        } by {
            if a < p.len() {
                assert((p + r)[a] == p[a]);
            } else {
                let j = a - p.len();
                assert((p + r)[a] == r[j]);
                assert(r[j] == ((k - 1) as usize, j as usize, adj[k - 1]@[j].0));
            }
        }
        assert forall|a: int, b: int| 0 <= a < b < (p + r).len() implies pos_lt(
            ((#[trigger] (p + r)[a]).0, (p + r)[a].1),
            ((#[trigger] (p + r)[b]).0, (p + r)[b].1),
        ) by {
            if b < p.len() {
                assert((p + r)[a] == p[a]);
                assert((p + r)[b] == p[b]);
            } else if a < p.len() {
                assert((p + r)[a] == p[a]);
                assert((p + r)[b] == r[b - p.len()]);
            } else {
                assert((p + r)[a] == r[a - p.len()]);
                assert((p + r)[b] == r[b - p.len()]);
            }
        }
    }
}

proof fn lemma_all_false_totals(
    bits: Seq<Seq<bool>>,
    adj: Seq<Vec<(usize, u64)>>,
    degree: Seq<usize>,
    k: int,
)
    requires
        0 <= k <= bits.len(),
        forall|u: int, j: int| 0 <= u < k && 0 <= j < bits[u].len() ==> !#[trigger] bits[u][j],
    ensures
        count_total(bits, k) == 0,
        work_total(bits, adj, degree, k) == 0,
    decreases k,
{
    if k > 0 {
        lemma_all_false_totals(bits, adj, degree, k - 1);
        lemma_all_false_row(bits[k - 1], adj[k - 1]@, degree, bits[k - 1].len() as int);
    }
}

proof fn lemma_all_false_row(bits: Seq<bool>, row: Seq<(usize, u64)>, degree: Seq<usize>, j: int)
    requires
        0 <= j <= bits.len(),
        forall|i: int| 0 <= i < j ==> !#[trigger] bits[i],
    ensures
        row_count(bits, j) == 0,
        row_work(bits, row, degree, j) == 0,
    decreases j,
{
    if j > 0 {
        lemma_all_false_row(bits, row, degree, j - 1);
    }
}

/// The order that `SliceRandom::shuffle` gives `items` under a `ChaCha8Rng`
/// seeded by `SeedableRng::seed_from_u64(seed)`.
pub uninterp spec fn chacha_shuffle(items: Seq<(usize, usize, usize)>, seed: u64) -> Seq<(usize, usize, usize)>;

/// Shuffles `items` with `rand::seq::SliceRandom::shuffle` driven by
/// `ChaCha8Rng::seed_from_u64(seed)`. Claimed: the result is the order named
/// `chacha_shuffle(items, seed)`, a permutation of `items` (the shuffle only
/// swaps elements in place). Which permutation it is, is not stated.
#[verifier::external_body]
fn shuffle_seeded(items: Vec<(usize, usize, usize)>, seed: u64) -> (r: Vec<(usize, usize, usize)>)
    ensures
        r@ == chacha_shuffle(items@, seed),
        r@.to_multiset() == items@.to_multiset(),
{
    let mut items = items;
    items.shuffle(&mut ChaCha8Rng::seed_from_u64(seed));
    items
}

/// The predicate that admits no arc.
pub fn never(u: usize, v: usize) -> (r: bool)
    ensures
        !r,
{
    false
}

/// One admission bit per arc, aligned with the graph's adjacency lists.
#[derive(Clone)]
pub struct Mask {
    pub bits: Vec<Vec<bool>>,
    pub admitted: usize,
    pub potential_work: usize,
}

impl Mask {
    /// The admission bits, row by row.
    pub open spec fn rows(&self) -> Seq<Seq<bool>> {
        self.bits@.map_values(|r: Vec<bool>| r@)
    }

    /// Whether bit `j` of row `u` is set.
    pub open spec fn bit(&self, u: int, j: int) -> bool {
        self.bits@[u]@[j]
    }

    /// The mask has one bit per arc of `g`, `admitted` counts its set bits and
    /// `potential_work` sums the out-degrees of the heads of the set arcs.
    pub open spec fn fits(&self, g: &Graph) -> bool {
        &&& self.bits@.len() == g.n
        &&& forall|u: int| 0 <= u < g.n ==> (#[trigger] self.bits@[u])@.len() == g.adj@[u]@.len()
        &&& self.admitted == count_total(self.rows(), g.n as int)
        &&& self.potential_work == work_total(self.rows(), g.adj@, g.degree@, g.n as int)
    }

    /// Admits arc `j` of `u` exactly when `f(u, head)` holds.
    pub fn predicate(g: &Graph, f: impl Fn(usize, usize) -> bool) -> (m: Mask)
        requires
            g.wf(),
            forall|u: int, j: int|
                0 <= u < g.n && 0 <= j < g.adj@[u]@.len() && f.ensures(
                    (u as usize, (#[trigger] g.adj@[u]@[j]).0),
                    true,
                ) ==> g.adj@[u]@[j].0 < g.n,
            full_work(g.adj@, g.degree@, g.n as int) <= usize::MAX,
            forall|u: usize, v: usize| f.requires((u, v)),
        ensures
            m.fits(g),
            forall|u: int, j: int|
                0 <= u < g.n && 0 <= j < g.adj@[u]@.len() ==> f.ensures(
                    (u as usize, g.adj@[u]@[j].0),
                    #[trigger] m.bit(u, j),
                ),
    {
        let n = g.n;
        let mut admitted: usize = 0;
        let mut potential_work: usize = 0;
        let mut bits: Vec<Vec<bool>> = Vec::new();
        let mut u: usize = 0;
        proof {
            assert(g.adj@.subrange(0, 0) =~= Seq::<Vec<(usize, u64)>>::empty());
            assert(bits@.map_values(|r: Vec<bool>| r@) =~= Seq::<Seq<bool>>::empty());
        }
        while u < n
            invariant
                n == g.n,
                g.wf(),
                forall|x: int, j: int|
                    0 <= x < g.n && 0 <= j < g.adj@[x]@.len() && f.ensures(
                        (x as usize, (#[trigger] g.adj@[x]@[j]).0),
                        true,
                    ) ==> g.adj@[x]@[j].0 < g.n,
                u <= n,
                bits@.len() == u,
                forall|x: int| 0 <= x < u ==> (#[trigger] bits@[x])@.len() == g.adj@[x]@.len(),
                forall|x: int, j: int|
                    0 <= x < u && 0 <= j < g.adj@[x]@.len() ==> f.ensures(
                        (x as usize, g.adj@[x]@[j].0),
                        #[trigger] bits@[x]@[j],
                    ),
                admitted == count_total(bits@.map_values(|r: Vec<bool>| r@), u as int),
                potential_work == work_total(
                    bits@.map_values(|r: Vec<bool>| r@),
                    g.adj@,
                    g.degree@,
                    u as int,
                ),
                admitted <= arc_total(g.adj@.subrange(0, u as int)),
                potential_work <= full_work(g.adj@, g.degree@, u as int),
                full_work(g.adj@, g.degree@, g.n as int) <= usize::MAX,
                forall|u: usize, v: usize| f.requires((u, v)),
            decreases n - u,
        {
            let list = &g.adj[u];
            let mut row: Vec<bool> = Vec::new();
            let mut j: usize = 0;
            let ghost a0 = admitted;
            let ghost w0 = potential_work;
            proof {
                lemma_full_mono(g.adj@, g.degree@, u as int + 1, n as int);
                lemma_arc_prefix(g.adj@, u as int);
            }
            while j < list.len()
                invariant
                    list@ == g.adj@[u as int]@,
                    u < n,
                    n == g.n,
                    g.wf(),
                    forall|x: int, i: int|
                        0 <= x < g.n && 0 <= i < g.adj@[x]@.len() && f.ensures(
                            (x as usize, (#[trigger] g.adj@[x]@[i]).0),
                            true,
                        ) ==> g.adj@[x]@[i].0 < g.n,
                    j <= list@.len(),
                    row@.len() == j,
                    forall|i: int|
                        0 <= i < j ==> f.ensures((u, list@[i].0), #[trigger] row@[i]),
                    admitted == a0 + row_count(row@, j as int),
                    potential_work == w0 + row_work(row@, list@, g.degree@, j as int),
                    w0 <= full_work(g.adj@, g.degree@, u as int),
                    w0 + row_full(list@, g.degree@, list@.len() as int) <= full_work(
                        g.adj@,
                        g.degree@,
                        u as int + 1,
                    ),
                    full_work(g.adj@, g.degree@, u as int + 1) <= usize::MAX,
                    a0 <= arc_total(g.adj@.subrange(0, u as int)),
                    admitted <= a0 + j,
                    arc_total(g.adj@.subrange(0, u as int)) + list@.len() <= g.m,
                    g.m == arc_total(g.adj@),
                    forall|u: usize, v: usize| f.requires((u, v)),
                decreases list@.len() - j,
            {
                let v = list[j].0;
                let x = f(u, v);
                proof {
                    lemma_row_prefix(row@, x, list@, g.degree@, j as int);
                    lemma_row_bounds(row@, list@, g.degree@, j as int);
                    lemma_row_full_mono(list@, g.degree@, j as int + 1, list@.len() as int);
                    assert(g.adj@[u as int]@[j as int] == list@[j as int]);
                    if x {
                        assert(f.ensures((u, v), true));
                        assert(v < n);
                    }
                }
                if x {
                    admitted = admitted + 1;
                    potential_work = potential_work + g.degree[v];
                }
                row.push(x);
                j = j + 1;
            }
            let ghost old_bits = bits@;
            bits.push(row);
            proof {
                let rv = bits@.map_values(|r: Vec<bool>| r@);
                let ov = old_bits.map_values(|r: Vec<bool>| r@);
                assert(rv == ov.push(row@));
                lemma_total_prefix(ov, row@, g.adj@, g.degree@, u as int);
                lemma_row_bounds(row@, list@, g.degree@, list@.len() as int);
                lemma_arc_prefix(g.adj@, u as int);
                assert forall|x: int, i: int|
                    0 <= x < u + 1 && 0 <= i < g.adj@[x]@.len() implies f.ensures(
                    (x as usize, g.adj@[x]@[i].0),
                    #[trigger] bits@[x]@[i],
                ) by {
                    if x < u {
                        assert(bits@[x] == old_bits[x]);
                    }
                }
            }
            u = u + 1;
        }
        Mask { bits, admitted, potential_work }
    }

    /// Sets the bits of the first `min(target, picks.len())` listed arcs.
    fn admit_first(&mut self, g: &Graph, picks: &Vec<(usize, usize)>, target: usize)
        requires
            old(self).fits(g),
            g.wf(),
            g.heads_in_range(),
            full_work(g.adj@, g.degree@, g.n as int) <= usize::MAX,
            forall|k: int|
                0 <= k < picks@.len() ==> valid_arc(g.adj@, (#[trigger] picks@[k]).0 as int, picks@[k].1 as int)
                    && !old(self).bit(picks@[k].0 as int, picks@[k].1 as int),
            picks@.no_duplicates(),
        ensures
            final(self).fits(g),
            final(self).admitted == old(self).admitted + min_int(target as int, picks@.len() as int),
            forall|x: int, i: int|
                valid_arc(g.adj@, x, i) ==> (#[trigger] final(self).bit(x, i) <==> (old(self).bit(x, i)
                    || exists|k: int|
                    0 <= k < target && k < picks@.len() && picks@[k] == (x as usize, i as usize))),
    {
        let mut k: usize = 0;
        while k < picks.len() && k < target
            invariant
                self.fits(g),
                g.wf(),
                g.heads_in_range(),
                full_work(g.adj@, g.degree@, g.n as int) <= usize::MAX,
                forall|q: int|
                    0 <= q < picks@.len() ==> valid_arc(g.adj@, (#[trigger] picks@[q]).0 as int, picks@[q].1 as int)
                        && !old(self).bit(picks@[q].0 as int, picks@[q].1 as int),
                picks@.no_duplicates(),
                k <= picks@.len(),
                k <= target,
                self.admitted == old(self).admitted + k,
                forall|x: int, i: int|
                    valid_arc(g.adj@, x, i) ==> (#[trigger] self.bit(x, i) <==> (old(self).bit(x, i)
                        || exists|q: int| 0 <= q < k && picks@[q] == (x as usize, i as usize))),
            decreases picks@.len() - k,
        {
            let (u, j) = picks[k];
            proof {
                assert(valid_arc(g.adj@, u as int, j as int));
                if self.bit(u as int, j as int) {
                    let q = choose|q: int| 0 <= q < k && picks@[q] == (u, j);
                    assert(picks@[q] == picks@[k as int]);
                }
            }
            self.admit_arc(g, u, j);
            proof {
                assert forall|x: int, i: int| valid_arc(g.adj@, x, i) implies (#[trigger] self.bit(x, i)
                    <==> (old(self).bit(x, i) || exists|q: int|
                    0 <= q < k + 1 && picks@[q] == (x as usize, i as usize))) by {
                    if x == u && i == j {
                        assert(picks@[k as int] == (x as usize, i as usize));
                    }
                }
            }
            k = k + 1;
        }
    }

    /// Admits the `target` best-ranked arcs among those whose endpoints both
    /// have scores: arcs are ordered by [`pair_score`], ties by tail then
    /// position. Scores are given by their binary64 total-order ranks.
    pub fn ranked(g: &Graph, scores: &[Option<u64>], target: usize, high: bool) -> (m: Mask)
        requires
            g.wf(),
            g.heads_in_range(),
            full_work(g.adj@, g.degree@, g.n as int) <= usize::MAX,
            scores_cover(g.adj@, scores@),
        ensures
            m.fits(g),
            m.admitted == min_int(target as int, ranked_list(g.adj@, scores@, high, g.n as int).len() as int),
            exists|order: Seq<(u64, usize, usize)>|
                {
                    &&& sorted_by(order)
                    &&& order.to_multiset() == ranked_list(g.adj@, scores@, high, g.n as int).to_multiset()
                    &&& forall|x: int, i: int|
                        valid_arc(g.adj@, x, i) ==> (#[trigger] m.bit(x, i) <==> exists|k: int|
                            0 <= k < target && k < order.len() && order[k].1 == x && order[k].2 == i)
                },
    {
        let n = g.n;
        let ghost sc = scores@;
        let mut list: Vec<(u64, usize, usize)> = Vec::new();
        let mut u: usize = 0;
        while u < n
            invariant
                n == g.n,
                g.wf(),
                g.heads_in_range(),
                sc == scores@,
                u <= n,
                scores_cover(g.adj@, sc),
                list@ == ranked_list(g.adj@, sc, high, u as int),
            decreases n - u,
        {
            let row = &g.adj[u];
            let mut j: usize = 0;
            while j < row.len()
                invariant
                    n == g.n,
                    g.wf(),
                    u < n,
                    sc == scores@,
                    row@ == g.adj@[u as int]@,
                    j <= row@.len(),
                    scores_cover(g.adj@, sc),
                    list@ == ranked_list(g.adj@, sc, high, u as int) + ranked_row(
                        row@,
                        sc,
                        high,
                        u as int,
                        j as int,
                    ),
                decreases row@.len() - j,
            {
                let v = row[j].0;
                proof {
                    assert(g.adj@[u as int]@[j as int] == row@[j as int]);
                    assert(valid_arc(g.adj@, u as int, j as int));
                }
                match (scores[u], scores[v]) {
                    (Some(x), Some(y)) => {
                        let s = pair_rank(x, y, high);
                        proof {
                            assert(pair_score(sc, u as int, v as int, high) == Some(s));
                        }
                        list.push((s, u, j));
                    },
                    _ => {
                        proof {
                            assert(pair_score(sc, u as int, v as int, high) is None);
                        }
                    },
                }
                j = j + 1;
            }
            proof {
                assert(list@ == ranked_list(g.adj@, sc, high, u as int + 1));
            }
            u = u + 1;
        }
        proof {
            lemma_ranked_list(g.adj@, sc, high, n as int);
        }
        let order = merge_sort(&list);
        let ghost l = list@;
        let ghost o = order@;
        proof {
            assert(l.no_duplicates()) by {
                assert forall|a: int, b: int| 0 <= a < l.len() && 0 <= b < l.len() && a != b implies l[a] != l[b] by {
                    if a < b {
                        assert(pos_lt((l[a].1, l[a].2), (l[b].1, l[b].2)));
                    } else {
                        assert(pos_lt((l[b].1, l[b].2), (l[a].1, l[a].2)));
                    }
                }
            }
            l.lemma_multiset_has_no_duplicates();
            assert forall|x: (u64, usize, usize)| o.to_multiset().contains(x) implies o.to_multiset().count(x) == 1 by {}
            o.lemma_multiset_has_no_duplicates_conv();
            assert forall|a: int| 0 <= a < o.len() implies l.contains(#[trigger] o[a]) by {
                assert(o.to_multiset().count(o[a]) > 0);
            }
        }
        let mut picks: Vec<(usize, usize)> = Vec::new();
        let mut k: usize = 0;
        while k < order.len()
            invariant
                o == order@,
                k <= o.len(),
                picks@.len() == k,
                forall|q: int| 0 <= q < k ==> #[trigger] picks@[q] == (o[q].1, o[q].2),
            decreases o.len() - k,
        {
            picks.push((order[k].1, order[k].2));
            k = k + 1;
        }
        let mut m = Mask::predicate(g, never);
        proof {
            assert forall|x: int, j: int|
                0 <= x < n && 0 <= j < m.rows()[x].len() implies !#[trigger] m.rows()[x][j] by {
                assert(m.rows()[x] == m.bits@[x]@);
                assert(call_ensures(never, (x as usize, g.adj@[x]@[j].0), m.bit(x, j)));
            }
            lemma_all_false_totals(m.rows(), g.adj@, g.degree@, n as int);
            assert forall|q: int|
                0 <= q < picks@.len() implies valid_arc(g.adj@, (#[trigger] picks@[q]).0 as int, picks@[q].1 as int)
                    && !m.bit(picks@[q].0 as int, picks@[q].1 as int) by {
                let e = o[q];
                assert(l.contains(e));
                let a = choose|a: int| 0 <= a < l.len() && l[a] == e;
                assert(valid_arc(g.adj@, l[a].1 as int, l[a].2 as int));
            }
            assert(picks@.no_duplicates()) by {
                assert forall|a: int, b: int| 0 <= a < picks@.len() && 0 <= b < picks@.len() && a != b implies picks@[a] != picks@[b] by {
                    if picks@[a] == picks@[b] {
                        assert(l.contains(o[a]));
                        assert(l.contains(o[b]));
                        let aa = choose|x: int| 0 <= x < l.len() && l[x] == o[a];
                        let bb = choose|x: int| 0 <= x < l.len() && l[x] == o[b];
                        assert(o[a] == o[b]);
                    }
                }
            }
        }
        m.admit_first(g, &picks, target);
        proof {
            assert forall|x: int, i: int| valid_arc(g.adj@, x, i) implies (#[trigger] m.bit(x, i) <==> exists|k: int|
                0 <= k < target && k < o.len() && o[k].1 == x && o[k].2 == i) by {
                if m.bit(x, i) {
                    let q = choose|q: int| 0 <= q < target && q < picks@.len() && picks@[q] == (x as usize, i as usize);
                    assert(o[q].1 == x && o[q].2 == i);
                }
                if exists|k: int| 0 <= k < target && k < o.len() && o[k].1 == x && o[k].2 == i {
                    let q = choose|k: int| 0 <= k < target && k < o.len() && o[k].1 == x && o[k].2 == i;
                    assert(picks@[q] == (x as usize, i as usize));
                }
            }
        }
        m
    }

    /// Admits the first `target` arcs of the arc list `(u, j, head)` shuffled
    /// by a ChaCha8 generator seeded with `seed`.
    pub fn random(g: &Graph, target: usize, seed: u64) -> (m: Mask)
        requires
            g.wf(),
            g.heads_in_range(),
            full_work(g.adj@, g.degree@, g.n as int) <= usize::MAX,
        ensures
            m.fits(g),
            m.admitted == min_int(target as int, g.m as int),
            forall|x: int, i: int|
                valid_arc(g.adj@, x, i) ==> (#[trigger] m.bit(x, i) <==> exists|k: int|
                    0 <= k < target && k < g.m && chacha_shuffle(arc_list(g.adj@, g.n as int), seed)[k]
                        == (x as usize, i as usize, g.adj@[x]@[i].0)),
    {
        let n = g.n;
        let mut e: Vec<(usize, usize, usize)> = Vec::new();
        let mut u: usize = 0;
        while u < n
            invariant
                n == g.n,
                g.wf(),
                u <= n,
                e@ == arc_list(g.adj@, u as int),
            decreases n - u,
        {
            let row = &g.adj[u];
            let mut j: usize = 0;
            while j < row.len()
                invariant
                    n == g.n,
                    g.wf(),
                    u < n,
                    row@ == g.adj@[u as int]@,
                    j <= row@.len(),
                    e@ == arc_list(g.adj@, u as int) + Seq::new(
                        j as nat,
                        |i: int| (u, i as usize, row@[i].0),
                    ),
                decreases row@.len() - j,
            {
                let ghost prev = e@;
                e.push((u, j, row[j].0));
                proof {
                    assert(e@ == arc_list(g.adj@, u as int) + Seq::new(
                        (j + 1) as nat,
                        |i: int| (u, i as usize, row@[i].0),
                    ));
                }
                j = j + 1;
            }
            proof {
                assert(e@ == arc_list(g.adj@, u as int + 1));
            }
            u = u + 1;
        }
        proof {
            lemma_arc_list(g.adj@, n as int);
            assert(g.adj@.subrange(0, n as int) == g.adj@);
        }
        let shuffled = shuffle_seeded(e, seed);
        Mask::from_order(g, &shuffled, target)
    }

    /// Admits the first `target` arcs of `order`, an arrangement of the arc
    /// list `(u, j, head)` of `g`.
    pub fn from_order(g: &Graph, order: &Vec<(usize, usize, usize)>, target: usize) -> (m: Mask)
        requires
            g.wf(),
            g.heads_in_range(),
            full_work(g.adj@, g.degree@, g.n as int) <= usize::MAX,
            order@.to_multiset() == arc_list(g.adj@, g.n as int).to_multiset(),
        ensures
            m.fits(g),
            m.admitted == min_int(target as int, g.m as int),
            forall|x: int, i: int|
                valid_arc(g.adj@, x, i) ==> (#[trigger] m.bit(x, i) <==> exists|k: int|
                    0 <= k < target && k < g.m && order@[k] == (x as usize, i as usize, g.adj@[x]@[i].0)),
    {
        let n = g.n;
        let shuffled = order;
        let ghost l = arc_list(g.adj@, n as int);
        proof {
            lemma_arc_list(g.adj@, n as int);
            assert(g.adj@.subrange(0, n as int) == g.adj@);
        }
        let ghost o = shuffled@;
        proof {
            assert(l.no_duplicates()) by {
                assert forall|a: int, b: int| 0 <= a < l.len() && 0 <= b < l.len() && a != b implies l[a] != l[b] by {
                    if a < b {
                        assert(pos_lt((l[a].0, l[a].1), (l[b].0, l[b].1)));
                    } else {
                        assert(pos_lt((l[b].0, l[b].1), (l[a].0, l[a].1)));
                    }
                }
            }
            l.lemma_multiset_has_no_duplicates();
            assert forall|x: (usize, usize, usize)| o.to_multiset().contains(x) implies o.to_multiset().count(x) == 1 by {}
            o.lemma_multiset_has_no_duplicates_conv();
            assert forall|a: int| 0 <= a < o.len() implies l.contains(#[trigger] o[a]) by {
                assert(o.to_multiset().count(o[a]) > 0);
            }
            vstd::seq_lib::to_multiset_len(o);
            vstd::seq_lib::to_multiset_len(l);
            assert(o.len() == l.len());
        }
        let mut picks: Vec<(usize, usize)> = Vec::new();
        let mut k: usize = 0;
        while k < shuffled.len()
            invariant
                o == shuffled@,
                k <= o.len(),
                picks@.len() == k,
                forall|q: int| 0 <= q < k ==> #[trigger] picks@[q] == (o[q].0, o[q].1),
            decreases o.len() - k,
        {
            picks.push((shuffled[k].0, shuffled[k].1));
            k = k + 1;
        }
        let mut m = Mask::predicate(g, never);
        proof {
            assert forall|x: int, j: int|
                0 <= x < n && 0 <= j < m.rows()[x].len() implies !#[trigger] m.rows()[x][j] by {
                assert(m.rows()[x] == m.bits@[x]@);
                assert(call_ensures(never, (x as usize, g.adj@[x]@[j].0), m.bit(x, j)));
            }
            lemma_all_false_totals(m.rows(), g.adj@, g.degree@, n as int);
            assert forall|q: int|
                0 <= q < picks@.len() implies valid_arc(g.adj@, (#[trigger] picks@[q]).0 as int, picks@[q].1 as int)
                    && !m.bit(picks@[q].0 as int, picks@[q].1 as int) by {
                assert(l.contains(o[q]));
            }
            assert(picks@.no_duplicates()) by {
                assert forall|a: int, b: int| 0 <= a < picks@.len() && 0 <= b < picks@.len() && a != b implies picks@[a] != picks@[b] by {
                    if picks@[a] == picks@[b] {
                        assert(l.contains(o[a]));
                        assert(l.contains(o[b]));
                        assert(o[a] == o[b]);
                    }
                }
            }
        }
        m.admit_first(g, &picks, target);
        proof {
            assert forall|x: int, i: int| valid_arc(g.adj@, x, i) implies (#[trigger] m.bit(x, i) <==> exists|k: int|
                0 <= k < target && k < g.m && o[k] == (x as usize, i as usize, g.adj@[x]@[i].0)) by {
                if m.bit(x, i) {
                    let q = choose|q: int| 0 <= q < target && q < picks@.len() && picks@[q] == (x as usize, i as usize);
                    assert(l.contains(o[q]));
                    assert(o[q] == (x as usize, i as usize, g.adj@[x]@[i].0));
                }
                if exists|k: int| 0 <= k < target && k < g.m && o[k] == (x as usize, i as usize, g.adj@[x]@[i].0) {
                    let q = choose|k: int| 0 <= k < target && k < g.m && o[k] == (x as usize, i as usize, g.adj@[x]@[i].0);
                    assert(picks@[q] == (x as usize, i as usize));
                }
            }
        }
        m
    }

    /// Sets the bit of arc `j` of `u`, counting it and its head's out-degree.
    fn admit_arc(&mut self, g: &Graph, u: usize, j: usize)
        requires
            old(self).fits(g),
            g.wf(),
            g.heads_in_range(),
            full_work(g.adj@, g.degree@, g.n as int) <= usize::MAX,
            u < g.n,
            j < g.adj@[u as int]@.len(),
            !old(self).bit(u as int, j as int),
        ensures
            final(self).fits(g),
            forall|x: int, i: int|
                0 <= x < g.n && 0 <= i < g.adj@[x]@.len() ==> #[trigger] final(self).bit(x, i) == (
                old(self).bit(x, i) || (x == u && i == j)),
            final(self).admitted == old(self).admitted + 1,
            final(self).potential_work == old(self).potential_work + g.degree@[g.adj@[u as int]@[j as int].0 as int],
    {
        let ghost rows0 = self.rows();
        let mut row: Vec<bool> = Vec::new();
        std::mem::swap(&mut self.bits[u], &mut row);
        let ghost r0 = row@;
        row.set(j, true);
        self.bits[u] = row;
        let v = g.adj[u][j].0;
        proof {
            let n = g.n as int;
            assert(self.rows() == rows0.update(u as int, row@));
            assert(rows0[u as int] == r0);
            assert(row@ == r0.update(j as int, true));
            lemma_count_update(r0, j as int, r0.len() as int);
            lemma_work_update(r0, g.adj@[u as int]@, g.degree@, j as int, r0.len() as int);
            lemma_total_update(rows0, g.adj@, g.degree@, u as int, row@, n);
            lemma_totals_bounded(self.rows(), g.adj@, g.degree@, n);
            assert(g.adj@.subrange(0, n) == g.adj@);
            assert(v < g.n);
        }
        self.admitted = self.admitted + 1;
        self.potential_work = self.potential_work + g.degree[v];
        proof {
            assert forall|x: int, i: int|
                0 <= x < g.n && 0 <= i < g.adj@[x]@.len() implies #[trigger] self.bit(x, i) == (
                old(self).bit(x, i) || (x == u && i == j)) by {
                if x != u {
                    assert(self.bits@[x] == old(self).bits@[x]);
                }
            }
        }
    }
}

/// Set bits and their work never exceed the arcs and the full work.
proof fn lemma_totals_bounded(
    bits: Seq<Seq<bool>>,
    adj: Seq<Vec<(usize, u64)>>,
    degree: Seq<usize>,
    k: int,
)
    requires
        0 <= k <= bits.len(),
        k <= adj.len(),
        forall|u: int| 0 <= u < k ==> (#[trigger] bits[u]).len() == adj[u]@.len(),
    ensures
        0 <= count_total(bits, k) <= arc_total(adj.subrange(0, k)),
        0 <= work_total(bits, adj, degree, k) <= full_work(adj, degree, k),
    decreases k,
{
    if k > 0 {
        lemma_totals_bounded(bits, adj, degree, k - 1);
        lemma_row_bounds(bits[k - 1], adj[k - 1]@, degree, bits[k - 1].len() as int);
        assert(adj.subrange(0, k).drop_last() == adj.subrange(0, k - 1));
    }
}

/// Arc counts of adjacency prefixes grow by one list at a time, up to the total.
pub proof fn lemma_arc_prefix(s: Seq<Vec<(usize, u64)>>, k: int)
    requires
        0 <= k < s.len(),
    ensures
        arc_total(s.subrange(0, k + 1)) == arc_total(s.subrange(0, k)) + s[k]@.len(),
        arc_total(s.subrange(0, k + 1)) <= arc_total(s),
    decreases s.len() - k,
{
    assert(s.subrange(0, k + 1).drop_last() == s.subrange(0, k));
    if k + 1 == s.len() {
        assert(s.subrange(0, k + 1) == s);
    } else {
        lemma_arc_prefix(s, k + 1);
        lemma_arc_total_bounds(s.subrange(0, k + 2));
        assert(s.subrange(0, k + 2)[k + 1] == s[k + 1]);
    }
}

proof fn lemma_row_complement(ra: Seq<bool>, rb: Seq<bool>, j: int)
    requires
        0 <= j <= ra.len(),
        ra.len() == rb.len(),
        forall|i: int| 0 <= i < ra.len() ==> #[trigger] ra[i] != rb[i],
    ensures
        row_count(ra, j) + row_count(rb, j) == j,
    decreases j,
{
    if j > 0 {
        lemma_row_complement(ra, rb, j - 1);
        assert(ra[j - 1] != rb[j - 1]);
    }
}

/// Complementary masks split the arcs: when every arc is admitted by exactly
/// one of two masks, their admitted counts add up to the number of arcs.
pub proof fn lemma_complement_admitted(g: &Graph, a: &Mask, b: &Mask)
    requires
        g.wf(),
        a.fits(g),
        b.fits(g),
        forall|u: int, j: int| valid_arc(g.adj@, u, j) ==> #[trigger] a.bit(u, j) != b.bit(u, j),
    ensures
        a.admitted + b.admitted == g.m,
{
    lemma_complement_prefix(g, a, b, g.n as int);
    assert(g.adj@.subrange(0, g.n as int) == g.adj@);
}

/// The complement law of `predicate`: masks built from a predicate and from
/// one that always answers the opposite (on every arc, whatever either
/// returns) admit the number of arcs between them. Its `requires` on `a` and
/// `b` are the `ensures` of `Mask::predicate`.
pub proof fn lemma_predicate_complement<F: Fn(usize, usize) -> bool, H: Fn(usize, usize) -> bool>(
    g: &Graph,
    f: F,
    h: H,
    a: &Mask,
    b: &Mask,
)
    requires
        g.wf(),
        a.fits(g),
        b.fits(g),
        forall|u: usize, v: usize, x: bool, y: bool|
            f.ensures((u, v), x) && h.ensures((u, v), y) ==> x != y,
        forall|u: int, j: int|
            0 <= u < g.n && 0 <= j < g.adj@[u]@.len() ==> f.ensures(
                (u as usize, g.adj@[u]@[j].0),
                #[trigger] a.bit(u, j),
            ),
        forall|u: int, j: int|
            0 <= u < g.n && 0 <= j < g.adj@[u]@.len() ==> h.ensures(
                (u as usize, g.adj@[u]@[j].0),
                #[trigger] b.bit(u, j),
            ),
    ensures
        a.admitted + b.admitted == g.m,
{
    assert forall|u: int, j: int| valid_arc(g.adj@, u, j) implies #[trigger] a.bit(u, j) != b.bit(u, j) by {
        assert(f.ensures((u as usize, g.adj@[u]@[j].0), a.bit(u, j)));
        assert(h.ensures((u as usize, g.adj@[u]@[j].0), b.bit(u, j)));
    }
    lemma_complement_admitted(g, a, b);
}

proof fn lemma_complement_prefix(g: &Graph, a: &Mask, b: &Mask, k: int)
    requires
        g.wf(),
        a.fits(g),
        b.fits(g),
        0 <= k <= g.n,
        forall|u: int, j: int| valid_arc(g.adj@, u, j) ==> #[trigger] a.bit(u, j) != b.bit(u, j),
    ensures
        count_total(a.rows(), k) + count_total(b.rows(), k) == arc_total(g.adj@.subrange(0, k)),
    decreases k,
{
    if k > 0 {
        lemma_complement_prefix(g, a, b, k - 1);
        let ra = a.rows()[k - 1];
        let rb = b.rows()[k - 1];
        assert(ra == a.bits@[k - 1]@);
        assert(rb == b.bits@[k - 1]@);
        assert(a.bits@[k - 1]@.len() == g.adj@[k - 1]@.len());
        assert(b.bits@[k - 1]@.len() == g.adj@[k - 1]@.len());
        assert forall|i: int| 0 <= i < ra.len() implies #[trigger] ra[i] != rb[i] by {
            assert(valid_arc(g.adj@, k - 1, i));
            assert(a.bit(k - 1, i) != b.bit(k - 1, i));
        }
        lemma_row_complement(ra, rb, ra.len() as int);
        assert(g.adj@.subrange(0, k).drop_last() == g.adj@.subrange(0, k - 1));
    }
}

proof fn lemma_ranked_row_complete(
    row: Seq<(usize, u64)>,
    scores: Seq<Option<u64>>,
    high: bool,
    u: int,
    j: int,
    i: int,
)
    requires
        0 <= i < j <= row.len(),
        0 <= u <= usize::MAX,
        i <= usize::MAX,
        pair_score(scores, u, row[i].0 as int, high) is Some,
    ensures
        ranked_row(row, scores, high, u, j).contains(
            (pair_score(scores, u, row[i].0 as int, high)->0, u as usize, i as usize),
        ),
    decreases j,
{
    let e = (pair_score(scores, u, row[i].0 as int, high)->0, u as usize, i as usize);
    let prev = ranked_row(row, scores, high, u, j - 1);
    if i < j - 1 {
        lemma_ranked_row_complete(row, scores, high, u, j - 1, i);
        let p = choose|p: int| 0 <= p < prev.len() && prev[p] == e;
        assert(ranked_row(row, scores, high, u, j)[p] == e);
    } else {
        assert(ranked_row(row, scores, high, u, j) == prev.push(e));
        assert(ranked_row(row, scores, high, u, j)[prev.len() as int] == e);
    }
}

/// Every arc whose endpoints are both scored is ranked.
proof fn lemma_ranked_complete(
    adj: Seq<Vec<(usize, u64)>>,
    scores: Seq<Option<u64>>,
    high: bool,
    k: int,
    y: int,
    j: int,
)
    requires
        0 <= y < k <= adj.len(),
        adj.len() <= usize::MAX,
        0 <= j < adj[y]@.len(),
        adj[y]@.len() <= usize::MAX,
        pair_score(scores, y, adj[y]@[j].0 as int, high) is Some,
    ensures
        ranked_list(adj, scores, high, k).contains(
            (pair_score(scores, y, adj[y]@[j].0 as int, high)->0, y as usize, j as usize),
        ),
    decreases k,
{
    let e = (pair_score(scores, y, adj[y]@[j].0 as int, high)->0, y as usize, j as usize);
    let prev = ranked_list(adj, scores, high, k - 1);
    let row = ranked_row(adj[k - 1]@, scores, high, k - 1, adj[k - 1]@.len() as int);
    assert(ranked_list(adj, scores, high, k) == prev + row);
    if y < k - 1 {
        lemma_ranked_complete(adj, scores, high, k - 1, y, j);
        let p = choose|p: int| 0 <= p < prev.len() && prev[p] == e;
        assert((prev + row)[p] == e);
    } else {
        lemma_ranked_row_complete(adj[y]@, scores, high, y, adj[y]@.len() as int, j);
        let p = choose|p: int| 0 <= p < row.len() && row[p] == e;
        assert((prev + row)[prev.len() + p] == e);
    }
}

/// `ranked` admits the arcs of least key: an admitted arc has both endpoints
/// scored, and its key is at most the key of any scored arc left out. With
/// `high` that means the flattest pairs go in first, ranking low the pairs
/// with the smallest larger score. Its requires on `m` are the `ensures` of
/// `Mask::ranked`.
pub proof fn lemma_ranked_least_first(
    g: &Graph,
    scores: Seq<Option<u64>>,
    target: usize,
    high: bool,
    m: &Mask,
)
    requires
        g.wf(),
        g.heads_in_range(),
        scores_cover(g.adj@, scores),
        exists|order: Seq<(u64, usize, usize)>|
            {
                &&& sorted_by(order)
                &&& order.to_multiset() == ranked_list(g.adj@, scores, high, g.n as int).to_multiset()
                &&& forall|x: int, i: int|
                    valid_arc(g.adj@, x, i) ==> (#[trigger] m.bit(x, i) <==> exists|k: int|
                        0 <= k < target && k < order.len() && order[k].1 == x && order[k].2 == i)
            },
    ensures
        forall|x: int, i: int|
            valid_arc(g.adj@, x, i) && #[trigger] m.bit(x, i) ==> pair_score(
                scores,
                x,
                g.adj@[x]@[i].0 as int,
                high,
            ) is Some,
        forall|x: int, i: int, y: int, j: int|
            valid_arc(g.adj@, x, i) && valid_arc(g.adj@, y, j) && #[trigger] m.bit(x, i) && !#[trigger] m.bit(
                y,
                j,
            ) && pair_score(scores, y, g.adj@[y]@[j].0 as int, high) is Some ==> pair_score(
                scores,
                x,
                g.adj@[x]@[i].0 as int,
                high,
            )->0 <= pair_score(scores, y, g.adj@[y]@[j].0 as int, high)->0,
{
    let adj = g.adj@;
    let n = g.n as int;
    let order = choose|order: Seq<(u64, usize, usize)>|
        {
            &&& sorted_by(order)
            &&& order.to_multiset() == ranked_list(adj, scores, high, n).to_multiset()
            &&& forall|x: int, i: int|
                valid_arc(adj, x, i) ==> (#[trigger] m.bit(x, i) <==> exists|k: int|
                    0 <= k < target && k < order.len() && order[k].1 == x && order[k].2 == i)
        };
    let rl = ranked_list(adj, scores, high, n);
    lemma_ranked_list(adj, scores, high, n);
    assert forall|x: int, i: int| valid_arc(adj, x, i) && #[trigger] m.bit(x, i) implies pair_score(
        scores,
        x,
        adj[x]@[i].0 as int,
        high,
    ) == Some(order[choose|k: int| 0 <= k < target && k < order.len() && order[k].1 == x && order[k].2 == i].0) by {
        let k = choose|k: int| 0 <= k < target && k < order.len() && order[k].1 == x && order[k].2 == i;
        assert(order.to_multiset().count(order[k]) > 0);
        assert(rl.contains(order[k]));
        let a = choose|a: int| 0 <= a < rl.len() && rl[a] == order[k];
        assert(rl[a] == order[k]);
    }
    assert forall|x: int, i: int, y: int, j: int|
        valid_arc(adj, x, i) && valid_arc(adj, y, j) && #[trigger] m.bit(x, i) && !#[trigger] m.bit(y, j)
            && pair_score(scores, y, adj[y]@[j].0 as int, high) is Some implies pair_score(
        scores,
        x,
        adj[x]@[i].0 as int,
        high,
    )->0 <= pair_score(scores, y, adj[y]@[j].0 as int, high)->0 by {
        let k1 = choose|k: int| 0 <= k < target && k < order.len() && order[k].1 == x && order[k].2 == i;
        lemma_arc_total_bounds(adj);
        lemma_ranked_complete(adj, scores, high, n, y, j);
        let e = (pair_score(scores, y, adj[y]@[j].0 as int, high)->0, y as usize, j as usize);
        assert(rl.to_multiset().count(e) > 0);
        assert(order.contains(e));
        let k2 = choose|k: int| 0 <= k < order.len() && order[k] == e;
        if k2 < target {
            assert(m.bit(y, j));
        }
        assert(k1 < k2);
        assert(order[k1].key_le(order[k2]));
    }
}

/// When every vertex has a score, every arc is ranked, so `ranked` admits
/// `min(target, m)` arcs.
pub proof fn lemma_ranked_all_scored(g: &Graph, scores: Seq<Option<u64>>, high: bool)
    requires
        g.wf(),
        g.heads_in_range(),
        scores.len() == g.n,
        forall|v: int| 0 <= v < g.n ==> #[trigger] scores[v] is Some,
    ensures
        ranked_list(g.adj@, scores, high, g.n as int).len() == g.m,
{
    lemma_ranked_prefix(g, scores, high, g.n as int);
    assert(g.adj@.subrange(0, g.n as int) == g.adj@);
}

proof fn lemma_ranked_row_len(g: &Graph, scores: Seq<Option<u64>>, high: bool, u: int, j: int)
    requires
        g.wf(),
        g.heads_in_range(),
        scores.len() == g.n,
        forall|v: int| 0 <= v < g.n ==> #[trigger] scores[v] is Some,
        0 <= u < g.n,
        0 <= j <= g.adj@[u]@.len(),
    ensures
        ranked_row(g.adj@[u]@, scores, high, u, j).len() == j,
    decreases j,
{
    if j > 0 {
        lemma_ranked_row_len(g, scores, high, u, j - 1);
        let v = g.adj@[u]@[j - 1].0 as int;
        assert(v < g.n);
        assert(scores[u] is Some && scores[v] is Some);
    }
}

proof fn lemma_ranked_prefix(g: &Graph, scores: Seq<Option<u64>>, high: bool, k: int)
    requires
        g.wf(),
        g.heads_in_range(),
        scores.len() == g.n,
        forall|v: int| 0 <= v < g.n ==> #[trigger] scores[v] is Some,
        0 <= k <= g.n,
    ensures
        ranked_list(g.adj@, scores, high, k).len() == arc_total(g.adj@.subrange(0, k)),
    decreases k,
{
    if k > 0 {
        lemma_ranked_prefix(g, scores, high, k - 1);
        lemma_ranked_row_len(g, scores, high, k - 1, g.adj@[k - 1]@.len() as int);
        assert(g.adj@.subrange(0, k).drop_last() == g.adj@.subrange(0, k - 1));
    }
}

} // verus!
