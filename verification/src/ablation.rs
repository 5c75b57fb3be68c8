//! Ablation of the corridor scout gate: its arms, the deterministic coin
//! of the random arm, and how many arcs the degree gate admits.
use crate::curvature::{fire_count, lemma_fire_prefix};
use crate::graph::Graph;
use crate::mask::{arc_list, lemma_arc_list};
use vstd::prelude::*;

verus! {

/// Scout gates compared by the ablation.
#[derive(Clone, Copy, PartialEq, Eq, Structural, Debug)]
pub enum Gate {
    /// Both endpoints flat (degree at most the threshold), as published.
    Gated,
    /// Scout unconditionally.
    Always,
    /// Both endpoints above the threshold.
    Inverted,
    /// A deterministic coin on the edge, rate-matched to the published gate.
    Random,
    /// Both endpoints at most the adaptive threshold.
    Adaptive,
}

/// Product modulo `2^64`.
pub open spec fn mul64(x: u64, y: u64) -> u64 {
    vstd::wrapping::u64_specs::wrapping_mul(x, y)
}

/// The 64-bit mix of the edge `(u, v)` behind the ablation coin.
pub open spec fn coin_mix(u: u64, v: u64) -> u64 {
    let h0 = mul64(u, 0x9E3779B97F4A7C15u64) ^ mul64(v, 0xBF58476D1CE4E5B9u64);
    let h1 = h0 ^ (h0 >> 31u64);
    let h2 = mul64(h1, 0x94D049BB133111EBu64);
    h2 ^ (h2 >> 29u64)
}

/// The top 53 bits of the edge mix: the coin fires when they, read as a
/// fraction of `2^53`, fall below the firing rate.
pub fn coin_bits(u: usize, v: usize) -> (r: u64)
    ensures
        r == coin_mix(u as u64, v as u64) >> 11u64,
        r < 0x20_0000_0000_0000u64,
{
    let mut h = (u as u64).wrapping_mul(0x9E3779B97F4A7C15) ^ (v as u64).wrapping_mul(0xBF58476D1CE4E5B9);
    h = h ^ (h >> 31);
    h = h.wrapping_mul(0x94D049BB133111EB);
    h = h ^ (h >> 29);
    let r = h >> 11;
    assert(h >> 11u64 < 0x20_0000_0000_0000u64) by (bit_vector);
    r
}

/// The 64-bit splitmix finaliser of the edge `(u, v)`.
pub open spec fn splitmix(u: u64, v: u64) -> u64 {
    let z0 = mul64(u, 0x9E37_79B9_7F4A_7C15u64) ^ mul64(v, 0xBF58_476D_1CE4_E5B9u64);
    let z1 = z0 ^ (z0 >> 30u64);
    let z2 = mul64(z1, 0xBF58_476D_1CE4_E5B9u64);
    let z3 = z2 ^ (z2 >> 27u64);
    let z4 = mul64(z3, 0x94D0_49BB_1331_11EBu64);
    z4 ^ (z4 >> 31u64)
}

/// The top 53 bits of the splitmix finaliser of the edge `(u, v)`: the
/// edge is admitted when they, read as a fraction of `2^53`, fall below
/// the admission probability.
pub fn splitmix_bits(u: usize, v: usize) -> (r: u64)
    ensures
        r == splitmix(u as u64, v as u64) >> 11u64,
        r < 0x20_0000_0000_0000u64,
{
    let mut z = (u as u64).wrapping_mul(0x9E37_79B9_7F4A_7C15) ^ (v as u64).wrapping_mul(0xBF58_476D_1CE4_E5B9);
    z = z ^ (z >> 30);
    z = z.wrapping_mul(0xBF58_476D_1CE4_E5B9);
    z = z ^ (z >> 27);
    z = z.wrapping_mul(0x94D0_49BB_1331_11EB);
    z = z ^ (z >> 31);
    let r = z >> 11;
    assert(z >> 11u64 < 0x20_0000_0000_0000u64) by (bit_vector);
    r
}

impl Gate {
    /// Whether the arm scouts past an improved edge whose endpoints have
    /// degrees `du` and `dv`: `threshold` is the published flatness bound,
    /// `adaptive` the adaptive one, and `coin` the edge's coin toss.
    pub fn fires(self, du: usize, dv: usize, threshold: usize, adaptive: usize, coin: bool) -> (r: bool)
        ensures
            r == match self {
                Gate::Gated => du <= threshold && dv <= threshold,
                Gate::Always => true,
                Gate::Inverted => du > threshold && dv > threshold,
                Gate::Random => coin,
                Gate::Adaptive => du <= adaptive && dv <= adaptive,
            },
    {
        match self {
            Gate::Gated => du <= threshold && dv <= threshold,
            Gate::Always => true,
            Gate::Inverted => !(du <= threshold) && !(dv <= threshold),
            Gate::Random => coin,
            Gate::Adaptive => du <= adaptive && dv <= adaptive,
        }
    }
}

/// Number of arcs `(u, v)` whose endpoints both have degree at most `t`:
/// the edges the published gate fires on.
pub fn degree_edge_fires(g: &Graph, t: usize) -> (c: usize)
    requires
        g.wf(),
        g.heads_in_range(),
    ensures
        c == fire_count(arc_list(g.adj@, g.n as int), g.degree@, t as int, g.m as int),
{
    let n = g.n;
    let mut c: usize = 0;
    let mut u: usize = 0;
    while u < n
        invariant
            n == g.n,
            g.wf(),
            g.heads_in_range(),
            u <= n,
            c == fire_count(arc_list(g.adj@, u as int), g.degree@, t as int, arc_list(g.adj@, u as int).len() as int),
            c <= arc_list(g.adj@, u as int).len(),
        decreases n - u,
    {
        let row = &g.adj[u];
        let ghost base = arc_list(g.adj@, u as int);
        let ghost full = arc_list(g.adj@, u + 1);
        proof {
            assert(full == base + Seq::new(row@.len(), |j: int| (u, j as usize, row@[j].0)));
            lemma_fire_prefix(base, full, g.degree@, t as int, base.len() as int);
            lemma_arc_list(g.adj@, u + 1);
            crate::mask::lemma_arc_prefix(g.adj@, u as int);
        }
        let mut j: usize = 0;
        while j < row.len()
            invariant
                n == g.n,
                g.wf(),
                g.heads_in_range(),
                u < n,
                row@ == g.adj@[u as int]@,
                full == base + Seq::new(row@.len(), |i: int| (u, i as usize, row@[i].0)),
                full.len() <= g.m,
                j <= row@.len(),
                c == fire_count(full, g.degree@, t as int, base.len() + j),
                c <= base.len() + j,
            decreases row@.len() - j,
        {
            let v = row[j].0;
            proof {
                assert(full[base.len() + j] == (u, j, v));
            }
            if g.degree[u] <= t && g.degree[v] <= t {
                c = c + 1;
            }
            j = j + 1;
        }
        proof {
            assert forall|k: int| 0 <= k <= base.len() implies fire_count(full, g.degree@, t as int, k)
                == fire_count(base, g.degree@, t as int, k) by {
                lemma_fire_prefix(base, full, g.degree@, t as int, k);
            }
        }
        u = u + 1;
    }
    proof {
        lemma_arc_list(g.adj@, n as int);
        assert(g.adj@.subrange(0, n as int) == g.adj@);
    }
    c
}

/// Arcs on which the degree gate with threshold `t` fires, and all arcs.
pub fn admission(g: &Graph, t: usize) -> (r: (usize, usize))
    requires
        g.wf(),
        g.heads_in_range(),
    ensures
        r.0 == fire_count(arc_list(g.adj@, g.n as int), g.degree@, t as int, g.m as int),
        r.1 == g.m,
{
    (degree_edge_fires(g, t), g.m)
}

/// Scouts the shipped corridor (threshold 4) fires on.
pub fn corridor_fires(g: &Graph) -> (c: usize)
    requires
        g.wf(),
        g.heads_in_range(),
    ensures
        c == fire_count(arc_list(g.adj@, g.n as int), g.degree@, 4, g.m as int),
{
    degree_edge_fires(g, 4)
}

} // verus!
