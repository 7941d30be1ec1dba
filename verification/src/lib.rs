//! A random shift forest: an unsupervised anomaly detector built from
//! randomized axis-aligned space-partitioning trees.
//!
//! Coordinates are fixed-point integers: a coordinate vector is a `Vec<i64>`
//! whose entries are interpreted as multiples of `1 / UNIT`.  All tree logic
//! (descent, splitting, contraction, sketching, scoring) is exact integer
//! arithmetic; only the final real-valued evaluation of a score (the
//! `c(n)` tail correction and the probability transform) is left to callers.
use vstd::prelude::*;

pub mod bounding_box;
pub mod config;
pub mod distributed;
pub mod forest;
pub mod hash_picker;
pub mod metric;
pub mod node;
pub mod par_stream_sampler;
pub mod point_list;
pub mod reservoir;
pub mod rng;
pub mod rsf_reservoir;
pub mod rsf_split;
pub mod rsf_window;
pub mod shingle;
pub mod tree;
pub mod window;

verus! {

/// Largest magnitude accepted for an input coordinate.
pub const COORD_LIMIT: i64 = 0x4000_0000_0000;

/// Largest magnitude a bounding-box bound can take: a root box doubles its
/// range, so its upper bounds reach at most three times the input limit.
pub const BOX_LIMIT: i64 = 3 * COORD_LIMIT;

/// The fixed-point representation of one: the unit box spans `[0, UNIT]`
/// in every dimension.
pub const UNIT: i64 = 0x10_0000;

/// Every entry of a coordinate vector is small enough that adding a shift
/// drawn from a box range can never overflow an `i64`.
pub open spec fn coords_valid(s: Seq<i64>) -> bool {
    forall|i: int| 0 <= i < s.len() ==> -COORD_LIMIT <= #[trigger] s[i] <= COORD_LIMIT
}

/// Runtime check of `coords_valid`, for callers that must guard inputs.
pub fn coords_in_limit(p: &Vec<i64>) -> (r: bool)
    ensures
        r == coords_valid(p@),
{
    let mut i: usize = 0;
    while i < p.len()
        invariant
            0 <= i <= p@.len(),
            forall|j: int| 0 <= j < i ==> -COORD_LIMIT <= #[trigger] p@[j] <= COORD_LIMIT,
        decreases p@.len() - i,
    {
        if p[i] < -COORD_LIMIT || p[i] > COORD_LIMIT {
            return false;
        }
        i += 1;
    }
    true
}

/// An element-wise copy of a coordinate vector.
pub fn copy_coords(v: &Vec<i64>) -> (r: Vec<i64>)
    ensures
        r@ == v@,
{
    let mut r: Vec<i64> = Vec::new();
    let mut i: usize = 0;
    while i < v.len()
        invariant
            0 <= i <= v@.len(),
            r@.len() == i,
            forall|j: int| 0 <= j < i ==> #[trigger] r@[j] == v@[j],
        decreases v@.len() - i,
    {
        r.push(v[i]);
        i += 1;
    }
    proof {
        assert(r@ =~= v@);
    }
    r
}

} // verus!
