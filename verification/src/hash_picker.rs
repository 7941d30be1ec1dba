//! Deterministic sub-sampling by hashing.
//!
//! A picker holds a seed and a fraction `num / den`; it accepts an index
//! exactly when the seeded mix of the index, reduced modulo `den`, falls
//! below `num`.  Whether an index is picked is a pure function of the seed
//! and the index, so a pipeline needs no per-index bookkeeping.
use vstd::prelude::*;

use crate::rng::gen_range_u64;
use crate::rng::rng_from_entropy;

verus! {

/// A 64-bit mixing function of a seed and an index: an invertible sequence
/// of xor-shifts and odd-constant products.
pub open spec fn spec_mix64(seed: u64, i: u64) -> u64 {
    let z0 = u64::wrapping_add(seed, u64::wrapping_mul(i, 0x9E37_79B9_7F4A_7C15));
    let z1 = u64::wrapping_mul(z0 ^ (z0 >> 30), 0xBF58_476D_1CE4_E5B9);
    let z2 = u64::wrapping_mul(z1 ^ (z1 >> 27), 0x94D0_49BB_1331_11EB);
    z2 ^ (z2 >> 31)
}

/// Whether the picker `(seed, num, den)` accepts index `i`.
pub open spec fn spec_picks(seed: u64, num: u64, den: u64, i: u64) -> bool {
    spec_mix64(seed, i) % den < num
}

/// A deterministic Bernoulli test on indices: picks with frequency
/// `num / den` under a fixed random seed.
pub struct HashPicker {
    pub seed: u64,
    pub num: u64,
    pub den: u64,
}

impl HashPicker {
    pub open spec fn wf(&self) -> bool {
        &&& self.den >= 1
        &&& self.num <= self.den
    }

    /// A picker accepting the fraction `num / den` of indices, seeded from
    /// the operating system.
    pub fn from_frac(num: usize, den: usize) -> (r: Self)
        requires
            num <= den,
            den >= 1,
            den <= u64::MAX,
        ensures
            r.num == num,
            r.den == den,
            r.wf(),
    {
        let mut rng = rng_from_entropy();
        let seed = gen_range_u64(&mut rng, 0, u64::MAX);
        HashPicker { seed, num: num as u64, den: den as u64 }
    }

    /// A picker with an explicit seed, for reproducible pipelines.
    pub fn from_frac_seeded(seed: u64, num: usize, den: usize) -> (r: Self)
        requires
            num <= den,
            den >= 1,
            den <= u64::MAX,
        ensures
            r.seed == seed,
            r.num == num,
            r.den == den,
            r.wf(),
    {
        HashPicker { seed, num: num as u64, den: den as u64 }
    }

    /// Whether index `i` participates: a pure function of the picker's
    /// seed and the index alone.
    pub fn picks(&self, i: u64) -> (r: bool)
        requires
            self.wf(),
        ensures
            r == spec_picks(self.seed, self.num, self.den, i),
    {
        let z0 = u64::wrapping_add(self.seed, u64::wrapping_mul(i, 0x9E37_79B9_7F4A_7C15));
        let z1 = u64::wrapping_mul(z0 ^ (z0 >> 30), 0xBF58_476D_1CE4_E5B9);
        let z2 = u64::wrapping_mul(z1 ^ (z1 >> 27), 0x94D0_49BB_1331_11EB);
        let h = z2 ^ (z2 >> 31);
        h % self.den < self.num
    }
}

} // verus!
