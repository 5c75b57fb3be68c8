use sssp_rust::graph::Graph;
use sssp_rust::hood::{two_hop_arcs, two_hop_vertices};
use sssp_rust::xorshift::xorshift_draws;

/// 0 -> 1, 0 -> 2, two parallel arcs 1 -> 2, and 2 -> 0, 2 -> 3.
fn small() -> Graph {
    let mut g = Graph::new(4);
    for (u, v, w) in [(0, 1, 5), (0, 2, 6), (1, 2, 7), (1, 2, 9), (2, 0, 8), (2, 3, 4)] {
        g.add_edge(u, v, w);
    }
    g
}

#[test]
fn two_hop_arcs_keep_first_arc_of_each_pair() {
    let g = small();
    assert_eq!(
        two_hop_arcs(&g, 0),
        vec![(0, 1, 5), (1, 2, 7), (0, 2, 6), (2, 0, 8), (2, 3, 4)]
    );
    // Vertex 3 has no arcs: an empty sample.
    assert!(two_hop_arcs(&g, 3).is_empty());
    // From 1 the parallel arc 1 -> 2 is met twice and kept once, with the
    // arcs of 2 listed after each visit only the first time.
    assert_eq!(two_hop_arcs(&g, 1), vec![(1, 2, 7), (2, 0, 8), (2, 3, 4)]);
}

#[test]
fn two_hop_vertices_in_first_seen_order() {
    let g = small();
    assert_eq!(two_hop_vertices(&g, 0), vec![0, 1, 2, 3]);
    assert_eq!(two_hop_vertices(&g, 1), vec![1, 2, 0, 3]);
    assert_eq!(two_hop_vertices(&g, 3), vec![3]);
}

#[test]
fn xorshift_draws_follow_the_generator() {
    assert_eq!(
        xorshift_draws(42, 3),
        vec![46537075435, 12685210767805585150, 1156789259011059539]
    );
    // The seed's low bit is forced on, so 42 and 43 draw alike.
    assert_eq!(xorshift_draws(43, 3), xorshift_draws(42, 3));
    assert!(xorshift_draws(7, 0).is_empty());
}
