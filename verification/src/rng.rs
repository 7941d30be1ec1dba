//! Trusted access to the `rand` crate: the only source of randomness the
//! library uses.  Each wrapper states only what holds of every outcome.
use vstd::prelude::*;

verus! {

#[verifier::external_type_specification]
#[verifier::external_body]
pub struct ExStdRng(rand::rngs::StdRng);

/// Relies on rand's `SeedableRng::seed_from_u64` for `StdRng`: builds a
/// deterministic generator from a seed.  Nothing is assumed about the
/// values it will produce.
#[verifier::external_body]
pub fn rng_from_seed(seed: u64) -> rand::rngs::StdRng {
    <rand::rngs::StdRng as rand::SeedableRng>::seed_from_u64(seed)
}

/// Relies on rand's `SeedableRng::from_entropy` for `StdRng`: draws a fresh
/// generator from the operating system, aborting only if the system's
/// randomness source fails.  Nothing is assumed about the values it will
/// produce.
#[verifier::external_body]
pub fn rng_from_entropy() -> rand::rngs::StdRng {
    <rand::rngs::StdRng as rand::SeedableRng>::from_entropy()
}

/// Relies on rand's `Rng::gen_range` over `lo..hi`: returns a value in the
/// half-open range, and panics only on an empty range, which the
/// precondition rules out.
#[verifier::external_body]
pub fn gen_range_u64(rng: &mut rand::rngs::StdRng, lo: u64, hi: u64) -> (r: u64)
    requires
        lo < hi,
    ensures
        lo <= r < hi,
{
    rand::Rng::gen_range(rng, lo..hi)
}

/// The indexed point `p` occurs in `s`, compared by index and coordinates.
pub open spec fn indexed_point_in(s: Seq<(usize, Vec<i64>)>, p: (usize, Vec<i64>)) -> bool {
    exists|j: int| 0 <= j < s.len() && (#[trigger] s[j]).0 == p.0 && s[j].1@ == p.1@
}

/// Relies on rand's `SliceRandom::choose_multiple`: samples
/// `min(amount, len)` elements uniformly without replacement — the chosen
/// positions are pairwise distinct — and hands back copies of them, in an
/// order the crate leaves unspecified.
#[verifier::external_body]
pub fn choose_multiple_indexed(
    rng: &mut rand::rngs::StdRng,
    items: &Vec<(usize, Vec<i64>)>,
    amount: usize,
) -> (r: Vec<(usize, Vec<i64>)>)
    ensures
        r@.len() == (if amount <= items@.len() {
            amount as int
        } else {
            items@.len() as int
        }),
        forall|i: int| 0 <= i < r@.len() ==> indexed_point_in(items@, #[trigger] r@[i]),
        exists|sel: Seq<int>|
            #![trigger sel.len()]
            {
                &&& sel.len() == r@.len()
                &&& (forall|a: int| 0 <= a < sel.len() ==> 0 <= #[trigger] sel[a] < items@.len())
                &&& (forall|a: int|
                    0 <= a < sel.len() ==> (#[trigger] r@[a]).0 == items@[sel[a]].0 && r@[a].1@
                        == items@[sel[a]].1@)
                &&& (forall|a: int, b: int|
                    #![trigger sel[a], sel[b]]
                    0 <= a < b < sel.len() ==> sel[a] != sel[b])
            },
{
    rand::seq::SliceRandom::choose_multiple(items.as_slice(), rng, amount).cloned().collect()
}

} // verus!
