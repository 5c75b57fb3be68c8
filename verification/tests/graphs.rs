use sssp_rust::ablation::{admission, coin_bits, corridor_fires, degree_edge_fires, splitmix_bits, Gate};
use sssp_rust::curvature::{
    edge_scores, forman, neighbour_sets, rate_matched_threshold, triangles, CurveGate,
};
use sssp_rust::graph::{fingerprint, finish, grid_rows, incoming, total_key, Graph, INFINITY_BITS};
use sssp_rust::support::{two_hop_weights, undirected_support};
use sssp_rust::xorshift::permuted;

fn bits(x: f64) -> u64 {
    x.to_bits()
}

/// Two triangles sharing the edge 1-2, plus a pendant vertex 4.
fn kite() -> Graph {
    let mut g = Graph::new(5);
    for (u, v) in [(0, 1), (1, 2), (2, 0), (1, 3), (3, 2), (2, 4)] {
        g.add_edge(u, v, bits(1.0));
    }
    g
}

#[test]
fn finish_orders_by_total_order_then_head() {
    let mut g = Graph::new(2);
    for (v, w) in [(1, 2.5), (0, -1.0), (1, f64::INFINITY), (0, 0.0), (1, -0.0), (0, 2.5)] {
        g.add_edge(0, v, bits(w));
    }
    finish(&mut g);
    let got: Vec<(usize, f64)> = g.adj[0].iter().map(|&(v, w)| (v, f64::from_bits(w))).collect();
    let want = vec![(0, -1.0), (1, -0.0), (0, 0.0), (0, 2.5), (1, 2.5), (1, f64::INFINITY)];
    assert_eq!(got.len(), want.len());
    for (a, b) in got.iter().zip(&want) {
        assert_eq!(a.0, b.0);
        assert_eq!(a.1.to_bits(), b.1.to_bits());
    }
    assert_eq!(g.degree, vec![6, 0]);
    assert_eq!(g.m, 6);
}

#[test]
fn total_key_follows_binary64_order() {
    let xs = [f64::NEG_INFINITY, -3.5, -0.0, 0.0, 1e-300, 2.0, f64::INFINITY];
    for w in xs.windows(2) {
        assert!(total_key(bits(w[0])) < total_key(bits(w[1])));
    }
}

#[test]
fn incoming_takes_least_entering_weight() {
    let mut g = Graph::new(4);
    g.add_edge(0, 1, bits(5.0));
    g.add_edge(2, 1, bits(2.0));
    g.add_edge(3, 1, bits(7.0));
    g.add_edge(1, 2, bits(0.5));
    let a = incoming(&g);
    assert_eq!(a, vec![INFINITY_BITS, bits(2.0), bits(0.5), INFINITY_BITS]);
}

#[test]
fn incoming_skips_nan_weights() {
    let neg_nan = 0xFFF8_0000_0000_0000u64;
    let mut g = Graph::new(3);
    g.add_edge(0, 1, neg_nan);
    g.add_edge(2, 1, bits(3.0));
    g.add_edge(0, 2, bits(f64::NAN));
    let a = incoming(&g);
    // As `f64::min` does from +inf: a NaN weight never becomes the least.
    let mut expected = vec![f64::INFINITY; 3];
    for row in &g.adj {
        for &(v, w) in row {
            expected[v] = expected[v].min(f64::from_bits(w));
        }
    }
    assert_eq!(a, expected.iter().map(|x| x.to_bits()).collect::<Vec<_>>());
    assert_eq!(a, vec![INFINITY_BITS, bits(3.0), INFINITY_BITS]);
}

#[test]
fn fingerprint_is_fnv_over_arcs() {
    let mut g = Graph::new(3);
    g.add_edge(0, 2, bits(1.5));
    g.add_edge(2, 1, bits(4.0));
    let mut h = 0xcbf29ce484222325u64;
    for (u, v, w) in [(0u64, 2u64, bits(1.5)), (2, 1, bits(4.0))] {
        for x in [u, v, w] {
            h = (h ^ x).wrapping_mul(0x100000001b3);
        }
    }
    assert_eq!(fingerprint(&g), h);
    assert_eq!(fingerprint(&Graph::new(5)), 0xcbf29ce484222325);
}

#[test]
fn grid_rows_is_largest_divisor_below_root() {
    assert_eq!(grid_rows(1), 1);
    assert_eq!(grid_rows(7), 1);
    assert_eq!(grid_rows(36), 6);
    assert_eq!(grid_rows(1000), 25);
    assert_eq!(grid_rows(5000), 50);
    assert_eq!(grid_rows(10000), 100);
}

#[test]
fn support_is_symmetric_and_sorted() {
    let g = kite();
    let und = undirected_support(&g);
    assert_eq!(und[0], vec![1, 2]);
    assert_eq!(und[1], vec![0, 2, 3]);
    assert_eq!(und[2], vec![0, 1, 3, 4]);
    assert_eq!(und[4], vec![2]);
}

#[test]
fn two_hop_weights_cover_closed_neighbourhood() {
    let mut g = Graph::new(4);
    g.add_edge(1, 3, bits(1.0));
    g.add_edge(1, 0, bits(2.0));
    g.add_edge(1, 3, bits(3.0));
    g.add_edge(0, 2, bits(4.0));
    g.add_edge(3, 0, bits(5.0));
    g.add_edge(2, 1, bits(6.0));
    // Vertex 1 and its heads {0, 3}: lists of 0, 1 and 3 in that order.
    let w = two_hop_weights(&g, 1);
    assert_eq!(w, vec![bits(4.0), bits(1.0), bits(2.0), bits(3.0), bits(5.0)]);
}

#[test]
fn triangles_and_forman_on_the_kite() {
    let g = kite();
    let ns = neighbour_sets(&g);
    assert_eq!(triangles(&ns, 1, 2), 2);
    assert_eq!(triangles(&ns, 2, 1), 2);
    assert_eq!(triangles(&ns, 0, 1), 1);
    assert_eq!(triangles(&ns, 2, 4), 0);
    // deg(1) = 2, deg(2) = 2 (out-degrees), two triangles.
    assert_eq!(forman(&g, &ns, 1, 2), 4 - 2 - 2 + 3 * 2);
    assert_eq!(forman(&g, &ns, 2, 4), 4 - 2 - 0);
}

#[test]
fn edge_scores_list_every_arc() {
    let g = kite();
    let sc = edge_scores(&g, 1);
    assert_eq!(sc.pairs, vec![(0, 1), (1, 2), (1, 3), (2, 0), (2, 4), (3, 2)]);
    assert_eq!(sc.degree_sum, vec![3, 4, 3, 3, 2, 3]);
    assert_eq!(sc.triangle, vec![1, 2, 1, 1, 0, 1]);
    assert_eq!(sc.forman, vec![4, 6, 4, 4, 2, 4]);
    // Out-degrees are 1, 2, 2, 1, 0: every arc touches a vertex of degree 2.
    assert_eq!(sc.fired, 0);
    assert_eq!(edge_scores(&g, 2).fired, 6);
    assert_eq!(degree_edge_fires(&g, 1), 0);
    assert_eq!(degree_edge_fires(&g, 2), 6);
    assert_eq!(admission(&g, 2), (6, 6));
    assert_eq!(corridor_fires(&g), 6);
}

#[test]
fn threshold_picks_rank_from_the_top() {
    let s = [4, -1, 9, 4, 2];
    assert_eq!(rate_matched_threshold(&s, 0), None);
    assert_eq!(rate_matched_threshold(&s, 1), Some(9));
    assert_eq!(rate_matched_threshold(&s, 2), Some(4));
    assert_eq!(rate_matched_threshold(&s, 3), Some(4));
    assert_eq!(rate_matched_threshold(&s, 4), Some(2));
    assert_eq!(rate_matched_threshold(&s, 100), Some(-1));
    assert_eq!(rate_matched_threshold(&[], 3), None);
}

#[test]
fn threshold_fires_on_the_published_count() {
    // Four distinct scores, the published gate firing on two of them.
    let s = [3, 2, 1, 0];
    let t = rate_matched_threshold(&s, 2).unwrap();
    assert_eq!(t, 2);
    assert_eq!(s.iter().filter(|&&x| x >= t).count(), 2);
    for fired in 1..=4 {
        let t = rate_matched_threshold(&s, fired).unwrap();
        assert_eq!(s.iter().filter(|&&x| x >= t).count(), fired);
    }
    // With nothing fired, no threshold and no edge admitted.
    assert!(!CurveGate::Forman.fires(0, 0, 4, 3, 3, rate_matched_threshold(&s, 0), 0, None));
}

#[test]
fn curve_gate_arms() {
    assert!(CurveGate::Degree.fires(4, 4, 4, 3, 0, None, 0, None));
    assert!(!CurveGate::Degree.fires(5, 4, 4, 9, 0, None, 0, None));
    assert!(CurveGate::DegreeAdaptive.fires(5, 4, 4, 9, 0, None, 0, None));
    assert!(CurveGate::Forman.fires(9, 9, 4, 3, -2, Some(-2), 0, None));
    assert!(!CurveGate::Forman.fires(0, 0, 4, 3, -3, Some(-2), 0, None));
    assert!(!CurveGate::Forman.fires(0, 0, 4, 3, -300, None, 0, None));
    assert!(!CurveGate::Triangle.fires(0, 0, 4, 3, 0, None, 300, None));
    assert!(CurveGate::Triangle.fires(0, 0, 4, 3, 0, None, 2, Some(2)));
    assert!(!CurveGate::Triangle.fires(0, 0, 4, 3, 0, None, 1, Some(2)));
}

#[test]
fn ablation_gate_arms() {
    assert!(Gate::Gated.fires(4, 1, 4, 9, false));
    assert!(!Gate::Gated.fires(5, 1, 4, 9, true));
    assert!(Gate::Always.fires(50, 50, 4, 9, false));
    assert!(Gate::Inverted.fires(5, 6, 4, 9, false));
    assert!(!Gate::Inverted.fires(5, 4, 4, 9, false));
    assert!(Gate::Random.fires(0, 0, 4, 9, true));
    assert!(!Gate::Random.fires(0, 0, 4, 9, false));
    assert!(Gate::Adaptive.fires(9, 9, 4, 9, false));
}

#[test]
fn coins_are_the_published_mixers() {
    for (u, v) in [(0usize, 0usize), (1, 2), (12345, 678), (usize::MAX, 3)] {
        let mut h = (u as u64).wrapping_mul(0x9E3779B97F4A7C15) ^ (v as u64).wrapping_mul(0xBF58476D1CE4E5B9);
        h ^= h >> 31;
        h = h.wrapping_mul(0x94D049BB133111EB);
        h ^= h >> 29;
        assert_eq!(coin_bits(u, v), h >> 11);
        let mut z = (u as u64).wrapping_mul(0x9E37_79B9_7F4A_7C15) ^ (v as u64).wrapping_mul(0xBF58_476D_1CE4_E5B9);
        z ^= z >> 30;
        z = z.wrapping_mul(0xBF58_476D_1CE4_E5B9);
        z ^= z >> 27;
        z = z.wrapping_mul(0x94D0_49BB_1331_11EB);
        z ^= z >> 31;
        assert_eq!(splitmix_bits(u, v), z >> 11);
        assert!(coin_bits(u, v) < 1 << 53);
    }
    assert_ne!(coin_bits(1, 2), coin_bits(2, 1));
}

#[test]
fn permuted_is_the_xorshift_fisher_yates() {
    let k: Vec<u32> = (0..10).collect();
    let mut want = k.clone();
    let mut s = 42u64 | 1;
    for i in (1..want.len()).rev() {
        s ^= s << 13;
        s ^= s >> 7;
        s ^= s << 17;
        let j = (s % (i as u64 + 1)) as usize;
        want.swap(i, j);
    }
    let got = permuted(&k, 42);
    assert_eq!(got, want);
    let mut sorted = got.clone();
    sorted.sort();
    assert_eq!(sorted, k);
    assert_eq!(permuted(&Vec::<u32>::new(), 3), Vec::<u32>::new());
    assert_eq!(permuted(&vec![7u32], 3), vec![7]);
}
