# sssp_rust

A verified core for a study of single-source shortest-path solvers: a D-ary
heap, bucket queues, an integer radix-heap solver with exact distances,
scout admission masks, curvature scores for gating corridor scouts, vertex
relabelings and a DIMACS reader. `src/` is checked by Verus; `app/` is the
command-line driver with the binary64 solvers, generators and timing.

Weights are stored as the bit patterns of binary64 values; the library only
orders them, by their rank in the IEEE-754 total order.

Layout:

- `src/graph.rs`: digraphs, arc ordering (`finish`), least entering weights,
  fingerprints, grid shapes.
- `src/heap.rs`, `src/buckets.rs`, `src/counts.rs`: priority structures and
  operation counters.
- `src/radix.rs`: exact integer shortest paths and the relabelling law.
- `src/mask.rs`, `src/ablation.rs`, `src/curvature.rs`: scout gates and
  their admission counts.
- `src/reorder.rs`, `src/support.rs`, `src/sort.rs`, `src/xorshift.rs`:
  relabelings, undirected support, merge sort, seeded shuffles and draws.
- `src/hood.rs`: two-hop arc samples and vertex sets, first occurrence kept.
- `src/schedule.rs`: arm orders of timed rounds (a seeded shuffle, then its
  reverse) and the choice of the least median.
- `src/dimacs.rs`: the `.gr` format.
- `tests/`: executable checks of the library.
- `app/`: generators, binary64 solvers, benchmarks, the campaign and the
  scout-gate experiments (`ablate`, `ablate2`, `arms`, `curvegate`,
  `controls`, `timing`, `deltarule`, `noise` subcommands).
