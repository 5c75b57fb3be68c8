//! Deterministic operation counters reported by the instrumented solvers.
use vstd::prelude::*;

verus! {

/// Operation counts of one instrumented solve. Every field starts at zero.
#[derive(Clone, Copy, Debug)]
pub struct Counts {
    pub pushes: u64,
    pub pops: u64,
    pub comparisons: u64,
    pub peak: u64,
    pub scans: u64,
    pub scouts: u64,
    pub scout_scans: u64,
    pub scout_yield: u64,
    pub improvements: u64,
    pub superseded: u64,
    pub phases: u64,
    pub vertex_scans: u64,
    pub unchanged: u64,
    pub heavy: u64,
    pub max_phase_scans: u64,
}

impl Counts {
    /// True when every counter is zero.
    pub open spec fn is_zero(self) -> bool {
        &&& self.pushes == 0
        &&& self.pops == 0
        &&& self.comparisons == 0
        &&& self.peak == 0
        &&& self.scans == 0
        &&& self.scouts == 0
        &&& self.scout_scans == 0
        &&& self.scout_yield == 0
        &&& self.improvements == 0
        &&& self.superseded == 0
        &&& self.phases == 0
        &&& self.vertex_scans == 0
        &&& self.unchanged == 0
        &&& self.heavy == 0
        &&& self.max_phase_scans == 0
    }
}

impl Default for Counts {
    fn default() -> (c: Counts)
        ensures
            c.is_zero(),
    {
        Counts {
            pushes: 0,
            pops: 0,
            comparisons: 0,
            peak: 0,
            scans: 0,
            scouts: 0,
            scout_scans: 0,
            scout_yield: 0,
            improvements: 0,
            superseded: 0,
            phases: 0,
            vertex_scans: 0,
            unchanged: 0,
            heavy: 0,
            max_phase_scans: 0,
        }
    }
}

} // verus!
