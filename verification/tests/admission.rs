use rand::{Rng, SeedableRng};
use rand_chacha::ChaCha8Rng;
use sssp_rust::graph::{finish, total_key, Graph};
use sssp_rust::mask::Mask;

/// The sparse random digraph of the study: out-degree uniform in
/// `1..=min(2k, n-1)`, distinct heads, weights uniform in `[1, 100)`.
fn fast_sparse(n: usize, k: usize, seed: u64) -> Graph {
    let mut r = ChaCha8Rng::seed_from_u64(seed);
    let mut g = Graph::new(n);
    for u in 0..n {
        let d = r.gen_range(1..=(2 * k).min(n - 1));
        let mut targets = Vec::with_capacity(d);
        while targets.len() < d {
            let v = r.gen_range(0..n);
            if v != u && !targets.contains(&v) {
                targets.push(v);
            }
        }
        for v in targets {
            let w: f64 = r.gen_range(1.0..100.0);
            g.add_edge(u, v, w.to_bits());
        }
    }
    finish(&mut g);
    g
}

#[test]
fn exact_admission_ties_and_complement() {
    let g = fast_sparse(50, 4, 3);
    let a = Mask::predicate(&g, |u, v| g.degree[u] <= 4 && g.degree[v] <= 4);
    let b = Mask::predicate(&g, |u, v| g.degree[u] > 4 || g.degree[v] > 4);
    assert_eq!(a.admitted + b.admitted, g.m);
    let scores = vec![Some(total_key(0.25f64.to_bits())); g.n];
    for k in [0, 1, 13, g.m] {
        assert_eq!(Mask::ranked(&g, &scores, k, false).admitted, k);
        assert_eq!(Mask::random(&g, k, 7).admitted, k);
    }
}

#[test]
fn predicate_bits_follow_the_closure() {
    let g = fast_sparse(30, 3, 11);
    let m = Mask::predicate(&g, |u, v| (u + v) % 3 == 0);
    let mut admitted = 0;
    let mut work = 0;
    for u in 0..g.n {
        assert_eq!(m.bits[u].len(), g.adj[u].len());
        for (j, &(v, _)) in g.adj[u].iter().enumerate() {
            assert_eq!(m.bits[u][j], (u + v) % 3 == 0);
            if m.bits[u][j] {
                admitted += 1;
                work += g.degree[v];
            }
        }
    }
    assert_eq!(m.admitted, admitted);
    assert_eq!(m.potential_work, work);
}

#[test]
fn random_is_reproducible_and_capped() {
    let g = fast_sparse(40, 4, 5);
    let a = Mask::random(&g, 17, 99);
    let b = Mask::random(&g, 17, 99);
    assert_eq!(a.bits, b.bits);
    assert_eq!(a.admitted, 17);
    let all = Mask::random(&g, g.m + 10, 1);
    assert_eq!(all.admitted, g.m);
    assert!(all.bits.iter().all(|r| r.iter().all(|&x| x)));
}

#[test]
fn from_order_admits_the_prefix() {
    let mut g = Graph::new(3);
    g.add_edge(0, 1, 1.0f64.to_bits());
    g.add_edge(0, 2, 2.0f64.to_bits());
    g.add_edge(1, 2, 3.0f64.to_bits());
    g.add_edge(2, 0, 4.0f64.to_bits());
    let order = vec![(2, 0, 0), (0, 1, 2), (1, 0, 2), (0, 0, 1)];
    let m = Mask::from_order(&g, &order, 2);
    assert_eq!(m.admitted, 2);
    assert_eq!(m.bits, vec![vec![false, true], vec![false], vec![true]]);
    assert_eq!(m.potential_work, g.degree[0] + g.degree[2]);
}

#[test]
fn ranked_orders_by_score_then_position() {
    let mut g = Graph::new(4);
    g.add_edge(0, 1, 1.0f64.to_bits());
    g.add_edge(1, 2, 1.0f64.to_bits());
    g.add_edge(2, 3, 1.0f64.to_bits());
    g.add_edge(3, 0, 1.0f64.to_bits());
    let key = |x: f64| Some(total_key(x.to_bits()));
    let scores = vec![key(0.1), key(0.5), key(0.9), None];
    // low: the larger endpoint score ranks; arcs into or out of vertex 3 have no score.
    let low = Mask::ranked(&g, &scores, 1, false);
    assert_eq!(low.admitted, 1);
    assert_eq!(low.bits, vec![vec![true], vec![false], vec![false], vec![false]]);
    // high: the negated smaller score ranks, so the flattest pair comes first.
    let high = Mask::ranked(&g, &scores, 1, true);
    assert_eq!(high.bits, vec![vec![false], vec![true], vec![false], vec![false]]);
    let all = Mask::ranked(&g, &scores, 10, false);
    assert_eq!(all.admitted, 2);
}

#[test]
fn ranked_lets_a_nan_score_give_way() {
    let mut g = Graph::new(4);
    g.add_edge(0, 1, 1.0f64.to_bits());
    g.add_edge(1, 2, 1.0f64.to_bits());
    g.add_edge(2, 3, 1.0f64.to_bits());
    let key = |x: f64| Some(total_key(x.to_bits()));
    // A positive NaN at vertex 0: `f64::max` skips it, so arc 0 -> 1 scores
    // 0.9 and ties 1 -> 2, winning on its tail.
    let scores = vec![key(f64::NAN), key(0.9), key(0.1), key(0.5)];
    let low = Mask::ranked(&g, &scores, 2, false);
    assert_eq!(low.bits, vec![vec![true], vec![false], vec![true], vec![]]);
    // A negative NaN at vertex 0: `f64::min` skips it, so arc 0 -> 1 scores
    // -0.9 and comes first when ranking high.
    let neg_nan = f64::from_bits(0xFFF8_0000_0000_0000);
    let scores = vec![key(neg_nan), key(0.9), key(0.1), key(0.5)];
    let high = Mask::ranked(&g, &scores, 1, true);
    assert_eq!(high.bits, vec![vec![true], vec![false], vec![false], vec![]]);
}

#[test]
fn predicate_never_reads_a_rejected_head() {
    // Arc 0 -> 7 leaves the graph; the predicate refuses it, so its head is
    // never looked up, as in the original.
    let mut g = Graph::new(2);
    g.add_edge(0, 1, 1.0f64.to_bits());
    g.add_edge(0, 7, 1.0f64.to_bits());
    g.add_edge(1, 0, 1.0f64.to_bits());
    let m = Mask::predicate(&g, |_, v| v < 2);
    assert_eq!(m.bits, vec![vec![true, false], vec![true]]);
    assert_eq!(m.admitted, 2);
    assert_eq!(m.potential_work, g.degree[1] + g.degree[0]);
}
