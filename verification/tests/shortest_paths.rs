use sssp_rust::graph::{finish, Graph};
use sssp_rust::radix::radix;
use sssp_rust::reorder::{permute, reorder_with_map};

/// A small graph with an unreachable vertex, weights as integers.
fn planted_integer() -> Graph {
    let mut g = Graph::new(6);
    for (u, v, w) in [(0, 1, 1), (0, 2, 2), (0, 3, 9), (1, 3, 2), (2, 3, 3), (3, 4, 100)] {
        g.add_edge(u, v, w)
    }
    g
}

/// Reference distances by Bellman-Ford, `u64::MAX` for unreachable.
fn bellman_ford(g: &Graph, s: usize) -> Vec<u64> {
    let mut d = vec![u64::MAX; g.n];
    d[s] = 0;
    for _ in 1..g.n.max(2) {
        for (u, a) in g.adj.iter().enumerate() {
            if d[u] == u64::MAX {
                continue;
            }
            for &(v, w) in a {
                let nd = d[u] + w;
                if nd < d[v] {
                    d[v] = nd
                }
            }
        }
    }
    d
}

/// Deterministic pseudo-random integer-weighted digraph.
fn lcg_graph(n: usize, arcs: usize, max_w: u64, seed: u64) -> Graph {
    let mut s = seed.wrapping_mul(6364136223846793005).wrapping_add(1442695040888963407);
    let mut next = move || {
        s = s.wrapping_mul(6364136223846793005).wrapping_add(1442695040888963407);
        s >> 33
    };
    let mut g = Graph::new(n);
    for _ in 0..arcs {
        let u = (next() % n as u64) as usize;
        let v = (next() % n as u64) as usize;
        let w = next() % (max_w + 1);
        g.add_edge(u, v, w);
    }
    finish(&mut g);
    g
}

#[test]
fn radix_planted_distances() {
    let g = planted_integer();
    assert_eq!(radix(&g, 0), vec![0, 1, 2, 3, 103, u64::MAX]);
}

#[test]
fn radix_from_another_source() {
    let g = planted_integer();
    assert_eq!(radix(&g, 3), vec![u64::MAX, u64::MAX, u64::MAX, 0, 100, u64::MAX]);
}

#[test]
fn radix_zero_weights_and_parallel_arcs() {
    let mut g = planted_integer();
    g.add_edge(3, 2, 0);
    g.add_edge(2, 3, 0);
    g.add_edge(0, 1, 2);
    assert_eq!(radix(&g, 0), vec![0, 1, 2, 2, 102, u64::MAX]);
    let mut z = Graph::new(3);
    z.add_edge(0, 1, 0);
    z.add_edge(1, 0, 0);
    z.add_edge(1, 2, 0);
    assert_eq!(radix(&z, 0), vec![0, 0, 0]);
}

#[test]
fn radix_matches_bellman_ford() {
    for seed in 0..30 {
        for (n, arcs, max_w) in [(31, 120, 100), (20, 40, 1), (50, 300, 1_000_000), (8, 30, 0)] {
            let g = lcg_graph(n, arcs, max_w, seed);
            for s in [0, n / 2, n - 1] {
                assert_eq!(radix(&g, s), bellman_ford(&g, s), "seed {seed} n {n} source {s}");
            }
        }
    }
}

#[test]
fn radix_large_weights_stay_exact() {
    let mut g = Graph::new(4);
    g.add_edge(0, 1, 1 << 40);
    g.add_edge(1, 2, (1 << 40) + 3);
    g.add_edge(0, 2, (1 << 41) + 4);
    g.add_edge(2, 3, u64::MAX - (1 << 42));
    let d = radix(&g, 0);
    assert_eq!(d[2], (1 << 41) + 3);
    assert_eq!(d[3], (1u64 << 41) + 3 + (u64::MAX - (1 << 42)));
}

#[test]
fn relabelling_preserves_distances() {
    for seed in 0..10 {
        let g = lcg_graph(40, 160, 50, seed);
        for reverse in [false, true] {
            let (h, map) = reorder_with_map(&g, reverse);
            let mut seen = vec![false; g.n];
            for &x in &map {
                assert!(!seen[x]);
                seen[x] = true;
            }
            for s in [0, 13, 39] {
                let old = radix(&g, s);
                let new = radix(&h, map[s]);
                for v in 0..g.n {
                    assert_eq!(old[v], new[map[v]]);
                }
            }
        }
    }
}

#[test]
fn permute_renames_every_arc() {
    let g = planted_integer();
    let order = vec![5, 3, 1, 0, 4, 2];
    let (h, map) = permute(&g, &order);
    assert_eq!(map, vec![3, 2, 5, 1, 4, 0]);
    assert_eq!(h.m, g.m);
    assert_eq!(h.adj[map[0]], vec![(map[1], 1), (map[2], 2), (map[3], 9)]);
    assert_eq!(h.adj[map[3]], vec![(map[4], 100)]);
    assert_eq!(radix(&h, map[0])[map[4]], 103);
}

#[test]
fn bfs_order_starts_from_least_degree_roots() {
    // A path 0 - 1 - 2 - 3 plus an isolated vertex 4.
    let mut g = Graph::new(5);
    g.add_edge(0, 1, 1);
    g.add_edge(1, 2, 1);
    g.add_edge(2, 3, 1);
    let (_, map) = reorder_with_map(&g, false);
    // Vertex 4 has support degree 0 and comes first, then the path from end 0.
    assert_eq!(map, vec![1, 2, 3, 4, 0]);
    let (_, rev) = reorder_with_map(&g, true);
    assert_eq!(rev, vec![3, 2, 1, 0, 4]);
}

#[test]
fn permute_lets_isolated_vertices_take_late_names() {
    // Arc 0 -> 1; vertex 2 has no arcs, so its last position may be 3.
    let mut g = Graph::new(3);
    g.add_edge(0, 1, 7);
    let order = vec![2, 1, 0, 2];
    let (h, map) = permute(&g, &order);
    assert_eq!(map, vec![2, 1, 3]);
    assert_eq!(h.n, 3);
    assert_eq!(h.adj[2], vec![(1, 7)]);
    assert!(h.adj[0].is_empty() && h.adj[1].is_empty());
}

#[test]
fn star_relabels_leaf_then_centre() {
    // A star: centre 0 with arcs to leaves 1..=4.
    let mut g = Graph::new(5);
    for v in 1..5 {
        g.add_edge(0, v, v as u64);
    }
    // BFS starts at the least-degree vertex 1, reaches the centre, then the
    // other leaves in index order.
    let (h, map) = reorder_with_map(&g, false);
    assert_eq!(map, vec![1, 0, 2, 3, 4]);
    assert_eq!(h.adj[1], vec![(0, 1), (2, 2), (3, 3), (4, 4)]);
    let (_, rev) = reorder_with_map(&g, true);
    assert_eq!(rev, vec![3, 4, 2, 1, 0]);
    assert_eq!(radix(&h, map[0])[map[4]], 4);
}
