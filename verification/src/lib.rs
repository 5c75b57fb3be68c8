//! Verified core of a sequential single-source shortest-path study: operation
//! counters, bucket and heap priority structures, digraph bookkeeping, scout
//! admission masks, relabelings and an integer radix-heap solver.
use vstd::prelude::*;

pub mod ablation;
pub mod buckets;
pub mod counts;
pub mod curvature;
pub mod dimacs;
pub mod graph;
pub mod heap;
pub mod hood;
pub mod mask;
pub mod radix;
pub mod reorder;
pub mod schedule;
pub mod sort;
pub mod support;
pub mod xorshift;

verus! {

} // verus!
