//! Forest configuration and its builder.
//!
//! A configuration fixes the input bounding box (already shingled), the
//! number of trees and points, the granularity of per-tree point limits,
//! the window and shingle lengths of the streaming adaptors, an optional
//! seed, the sketch size and the machine count of the distributed layer.
use vstd::prelude::*;

use crate::bounding_box::BoundingBox;
use crate::bounding_box::box_has_nonzero_range;
use crate::bounding_box::box_range;
use crate::bounding_box::box_input_sized;
use crate::bounding_box::box_wf;
use crate::rng::rng_from_entropy;
use crate::rng::rng_from_seed;

verus! {

/// Why a configuration could not be built.
#[derive(Clone, Copy, Debug, PartialEq, Eq, Structural)]
pub enum ConfigError {
    MissingBoundingBox,
    ZeroSketchSize,
    ZeroMachines,
    ZeroRangeBoundingBox,
}

#[derive(Debug)]
pub struct Config {
    pub bb: BoundingBox,
    pub n_trees: usize,
    pub n_points: usize,
    pub granularity: usize,
    pub window: usize,
    pub shingle: usize,
    pub seed: Option<u64>,
    pub sketch_size: usize,
    pub n_machines: usize,
}

/// The smallest `m` with `2^m >= n`.
pub open spec fn ceil_log2(n: nat) -> nat
    decreases n,
{
    if n <= 1 {
        0
    } else {
        1 + ceil_log2((n + 1) / 2)
    }
}

pub proof fn lemma_ceil_log2_le(n: nat)
    ensures
        ceil_log2(n) <= n,
    decreases n,
{
    if n > 1 {
        lemma_ceil_log2_le((n + 1) / 2);
    }
}

impl Config {
    /// A usable configuration: a well-formed, input-sized box with at least
    /// one dimension of nonzero range, and nonzero sketch and machine
    /// counts.
    pub open spec fn wf(&self) -> bool {
        &&& box_wf(self.bb@)
        &&& box_input_sized(self.bb@)
        &&& box_has_nonzero_range(self.bb@)
        &&& self.sketch_size >= 1
        &&& self.n_machines >= 1
    }

    /// The depth limit of every tree: `ceil(log2(n_points))`.
    pub open spec fn spec_max_depth(&self) -> nat {
        ceil_log2(self.n_points as nat)
    }

    pub fn max_depth(&self) -> (r: usize)
        ensures
            r == self.spec_max_depth(),
    {
        ceil_log2_exec(self.n_points)
    }

    /// The point limit of tree `i`: `i * granularity / n_trees + 1`, an
    /// increasing mix of sensitivities across the forest.
    pub fn max_points(&self, tree_i: usize) -> (r: usize)
        requires
            tree_i < self.n_trees,
            self.granularity < usize::MAX,
        ensures
            r == (tree_i as int) * (self.granularity as int) / (self.n_trees as int) + 1,
    {
        proof {
            let i = tree_i as int;
            let g = self.granularity as int;
            assert(i * g <= 0xFFFF_FFFF_FFFF_FFFF * 0xFFFF_FFFF_FFFF_FFFF) by (nonlinear_arith)
                requires
                    0 <= i <= 0xFFFF_FFFF_FFFF_FFFF,
                    0 <= g <= 0xFFFF_FFFF_FFFF_FFFF,
            ;
        }
        let wide: u128 = tree_i as u128 * self.granularity as u128 / self.n_trees as u128;
        proof {
            let i = tree_i as int;
            let g = self.granularity as int;
            let t = self.n_trees as int;
            assert(i * g <= t * g) by (nonlinear_arith)
                requires
                    0 <= i < t,
                    g >= 0,
            ;
            assert(i * g / t <= t * g / t) by (nonlinear_arith)
                requires
                    i * g <= t * g,
                    t > 0,
            ;
            assert(t * g / t == g) by (nonlinear_arith)
                requires
                    t > 0,
            ;
        }
        wide as usize + 1
    }

    /// A generator seeded from the configuration, or from the operating
    /// system when no seed was given.
    pub fn get_rng(&self) -> rand::rngs::StdRng {
        match self.seed {
            Option::Some(seed) => rng_from_seed(seed),
            Option::None => rng_from_entropy(),
        }
    }
}

/// The smallest `m` with `2^m >= n`, computed by halving.
pub fn ceil_log2_exec(n: usize) -> (r: usize)
    ensures
        r == ceil_log2(n as nat),
    decreases n,
{
    proof {
        lemma_ceil_log2_le(n as nat);
    }
    if n <= 1 {
        0
    } else {
        let half: usize = n / 2 + n % 2;
        proof {
            assert(half == (n + 1) / 2);
        }
        1 + ceil_log2_exec(half)
    }
}

/// Builds a `Config`, supplying the documented defaults for everything but
/// the bounding box, which is required.
#[derive(Clone)]
pub struct ConfigBuilder {
    pub bounding_box: Option<BoundingBox>,
    pub n_trees: Option<usize>,
    pub n_points: Option<usize>,
    pub granularity: Option<usize>,
    pub shingle: Option<usize>,
    pub window: Option<usize>,
    pub seed: Option<u64>,
    pub sketch_size: Option<usize>,
    pub n_machines: Option<usize>,
}

impl Default for ConfigBuilder {
    fn default() -> (r: Self)
        ensures
            r.bounding_box is None,
            r.n_trees is None,
            r.n_points is None,
            r.granularity is None,
            r.shingle is None,
            r.window is None,
            r.seed is None,
            r.sketch_size is None,
            r.n_machines is None,
    {
        ConfigBuilder {
            bounding_box: Option::None,
            n_trees: Option::None,
            n_points: Option::None,
            granularity: Option::None,
            shingle: Option::None,
            window: Option::None,
            seed: Option::None,
            sketch_size: Option::None,
            n_machines: Option::None,
        }
    }
}

impl ConfigBuilder {
    /// The builder only ever holds a structurally valid, input-sized box,
    /// whose dimension count times the shingle length fits the machine.
    pub open spec fn wf(&self) -> bool {
        &&& (self.shingle is Some ==> self.shingle->Some_0 >= 1)
        &&& (self.bounding_box is Some ==> {
            &&& box_wf(self.bounding_box->Some_0@)
            &&& box_input_sized(self.bounding_box->Some_0@)
            &&& self.bounding_box->Some_0@.len() * (if self.shingle is Some {
                self.shingle->Some_0 as int
            } else {
                1
            }) <= usize::MAX
        })
    }

    pub fn bounding_box(self, bounding_box: BoundingBox) -> (r: Self)
        requires
            box_wf(bounding_box@),
            box_input_sized(bounding_box@),
            self.shingle is Some ==> bounding_box@.len() * self.shingle->Some_0 <= usize::MAX,
            self.shingle is None ==> bounding_box@.len() <= usize::MAX,
        ensures
            r == (Self { bounding_box: Option::Some(bounding_box), n_trees: self.n_trees, n_points: self.n_points, granularity: self.granularity, shingle: self.shingle, window: self.window, seed: self.seed, sketch_size: self.sketch_size, n_machines: self.n_machines }),
            self.wf() ==> r.wf(),
    {
        Self { bounding_box: Option::Some(bounding_box), n_trees: self.n_trees, n_points: self.n_points, granularity: self.granularity, shingle: self.shingle, window: self.window, seed: self.seed, sketch_size: self.sketch_size, n_machines: self.n_machines }
    }

    pub fn n_trees(self, n_trees: usize) -> (r: Self)
        ensures
            r == (Self { bounding_box: self.bounding_box, n_trees: Option::Some(n_trees), n_points: self.n_points, granularity: self.granularity, shingle: self.shingle, window: self.window, seed: self.seed, sketch_size: self.sketch_size, n_machines: self.n_machines }),
    {
        Self { bounding_box: self.bounding_box, n_trees: Option::Some(n_trees), n_points: self.n_points, granularity: self.granularity, shingle: self.shingle, window: self.window, seed: self.seed, sketch_size: self.sketch_size, n_machines: self.n_machines }
    }

    pub fn n_points(self, n_points: usize) -> (r: Self)
        ensures
            r == (Self { bounding_box: self.bounding_box, n_trees: self.n_trees, n_points: Option::Some(n_points), granularity: self.granularity, shingle: self.shingle, window: self.window, seed: self.seed, sketch_size: self.sketch_size, n_machines: self.n_machines }),
    {
        Self { bounding_box: self.bounding_box, n_trees: self.n_trees, n_points: Option::Some(n_points), granularity: self.granularity, shingle: self.shingle, window: self.window, seed: self.seed, sketch_size: self.sketch_size, n_machines: self.n_machines }
    }

    pub fn granularity(self, granularity: usize) -> (r: Self)
        ensures
            r == (Self { bounding_box: self.bounding_box, n_trees: self.n_trees, n_points: self.n_points, granularity: Option::Some(granularity), shingle: self.shingle, window: self.window, seed: self.seed, sketch_size: self.sketch_size, n_machines: self.n_machines }),
    {
        Self { bounding_box: self.bounding_box, n_trees: self.n_trees, n_points: self.n_points, granularity: Option::Some(granularity), shingle: self.shingle, window: self.window, seed: self.seed, sketch_size: self.sketch_size, n_machines: self.n_machines }
    }

    pub fn shingle(self, shingle: usize) -> (r: Self)
        requires
            shingle >= 1,
            self.bounding_box is Some ==> self.bounding_box->Some_0@.len() * shingle <= usize::MAX,
        ensures
            r == (Self { bounding_box: self.bounding_box, n_trees: self.n_trees, n_points: self.n_points, granularity: self.granularity, shingle: Option::Some(shingle), window: self.window, seed: self.seed, sketch_size: self.sketch_size, n_machines: self.n_machines }),
            self.wf() ==> r.wf(),
    {
        Self { bounding_box: self.bounding_box, n_trees: self.n_trees, n_points: self.n_points, granularity: self.granularity, shingle: Option::Some(shingle), window: self.window, seed: self.seed, sketch_size: self.sketch_size, n_machines: self.n_machines }
    }

    pub fn window(self, window: usize) -> (r: Self)
        ensures
            r == (Self { bounding_box: self.bounding_box, n_trees: self.n_trees, n_points: self.n_points, granularity: self.granularity, shingle: self.shingle, window: Option::Some(window), seed: self.seed, sketch_size: self.sketch_size, n_machines: self.n_machines }),
    {
        Self { bounding_box: self.bounding_box, n_trees: self.n_trees, n_points: self.n_points, granularity: self.granularity, shingle: self.shingle, window: Option::Some(window), seed: self.seed, sketch_size: self.sketch_size, n_machines: self.n_machines }
    }

    pub fn seed(self, seed: u64) -> (r: Self)
        ensures
            r == (Self { bounding_box: self.bounding_box, n_trees: self.n_trees, n_points: self.n_points, granularity: self.granularity, shingle: self.shingle, window: self.window, seed: Option::Some(seed), sketch_size: self.sketch_size, n_machines: self.n_machines }),
    {
        Self { bounding_box: self.bounding_box, n_trees: self.n_trees, n_points: self.n_points, granularity: self.granularity, shingle: self.shingle, window: self.window, seed: Option::Some(seed), sketch_size: self.sketch_size, n_machines: self.n_machines }
    }

    pub fn sketch_size(self, sketch_size: usize) -> (r: Self)
        ensures
            r == (Self { bounding_box: self.bounding_box, n_trees: self.n_trees, n_points: self.n_points, granularity: self.granularity, shingle: self.shingle, window: self.window, seed: self.seed, sketch_size: Option::Some(sketch_size), n_machines: self.n_machines }),
    {
        Self { bounding_box: self.bounding_box, n_trees: self.n_trees, n_points: self.n_points, granularity: self.granularity, shingle: self.shingle, window: self.window, seed: self.seed, sketch_size: Option::Some(sketch_size), n_machines: self.n_machines }
    }

    pub fn n_machines(self, n_machines: usize) -> (r: Self)
        ensures
            r == (Self { bounding_box: self.bounding_box, n_trees: self.n_trees, n_points: self.n_points, granularity: self.granularity, shingle: self.shingle, window: self.window, seed: self.seed, sketch_size: self.sketch_size, n_machines: Option::Some(n_machines) }),
    {
        Self { bounding_box: self.bounding_box, n_trees: self.n_trees, n_points: self.n_points, granularity: self.granularity, shingle: self.shingle, window: self.window, seed: self.seed, sketch_size: self.sketch_size, n_machines: Option::Some(n_machines) }
    }

    /// Assembles the configuration: defaults are filled in, the box is
    /// replaced by its shingle-fold concatenation, and the documented
    /// construction errors are reported.
    pub fn build(&self) -> (r: Result<Config, ConfigError>)
        requires
            self.wf(),
        ensures
            r == Result::<Config, ConfigError>::Err(ConfigError::MissingBoundingBox)
                <==> self.bounding_box is None,
            r == Result::<Config, ConfigError>::Err(ConfigError::ZeroSketchSize) <==> (
            self.bounding_box is Some && self.sketch_size == Option::Some(0usize)),
            r == Result::<Config, ConfigError>::Err(ConfigError::ZeroMachines) <==> (
            self.bounding_box is Some && self.sketch_size != Option::Some(0usize)
                && self.n_machines == Option::Some(0usize)),
            r == Result::<Config, ConfigError>::Err(ConfigError::ZeroRangeBoundingBox) <==> (
            self.bounding_box is Some && self.sketch_size != Option::Some(0usize)
                && self.n_machines != Option::Some(0usize) && !box_has_nonzero_range(
                self.bounding_box->Some_0@,
            )),
            r is Ok <==> (self.bounding_box is Some && self.sketch_size != Option::Some(0usize)
                && self.n_machines != Option::Some(0usize) && box_has_nonzero_range(
                self.bounding_box->Some_0@,
            )),
            r is Ok ==> {
                &&& r->Ok_0.bb@.len() == self.bounding_box->Some_0@.len() * (
                if self.shingle is Some {
                    self.shingle->Some_0 as int
                } else {
                    1
                })
                &&& forall|i: int|
                    0 <= i < r->Ok_0.bb@.len() ==> #[trigger] r->Ok_0.bb@[i]
                        == self.bounding_box->Some_0@[i % (
                    self.bounding_box->Some_0@.len() as int)]
            },
            r is Ok ==> {
                &&& r->Ok_0.wf()
                &&& r->Ok_0.n_trees == (if self.n_trees is Some {
                    self.n_trees->Some_0
                } else {
                    64
                })
                &&& r->Ok_0.n_points == (if self.n_points is Some {
                    self.n_points->Some_0
                } else {
                    128
                })
                &&& r->Ok_0.granularity == (if self.granularity is Some {
                    self.granularity->Some_0
                } else {
                    1
                })
                &&& r->Ok_0.window == (if self.window is Some {
                    self.window->Some_0
                } else {
                    r->Ok_0.n_points
                })
                &&& r->Ok_0.shingle == (if self.shingle is Some {
                    self.shingle->Some_0
                } else {
                    1
                })
                &&& r->Ok_0.seed == self.seed
                &&& r->Ok_0.sketch_size == (if self.sketch_size is Some {
                    self.sketch_size->Some_0
                } else {
                    2
                })
                &&& r->Ok_0.n_machines == (if self.n_machines is Some {
                    self.n_machines->Some_0
                } else {
                    2
                })
            },
            r == Result::<Config, ConfigError>::Err(ConfigError::ZeroSketchSize) ==> (
            self.sketch_size is Some && self.sketch_size->Some_0 == 0),
            r == Result::<Config, ConfigError>::Err(ConfigError::ZeroMachines) ==> (
            self.n_machines is Some && self.n_machines->Some_0 == 0),
    {
        let bb0 = match &self.bounding_box {
            Option::None => {
                return Result::Err(ConfigError::MissingBoundingBox);
            },
            Option::Some(b) => b.clone(),
        };
        let sketch_size: usize = match self.sketch_size {
            Option::Some(k) => k,
            Option::None => 2,
        };
        if sketch_size == 0 {
            return Result::Err(ConfigError::ZeroSketchSize);
        }
        let n_machines: usize = match self.n_machines {
            Option::Some(m) => m,
            Option::None => 2,
        };
        if n_machines == 0 {
            return Result::Err(ConfigError::ZeroMachines);
        }
        let shingle: usize = match self.shingle {
            Option::Some(s) => s,
            Option::None => 1,
        };
        let mut bb = bb0;
        bb.shingle(shingle);
        proof {
            let orig = self.bounding_box->Some_0@;
            assert(orig.len() <= bb@.len()) by (nonlinear_arith)
                requires
                    bb@.len() == orig.len() * (shingle as int),
                    shingle >= 1,
            ;
            assert(box_has_nonzero_range(bb@) <==> box_has_nonzero_range(orig)) by {
                if box_has_nonzero_range(orig) {
                    let j = choose|j: int| 0 <= j < orig.len() && box_range(orig, j) != 0;
                    assert(bb@[j] == orig[j % (orig.len() as int)]);
                    assert(j % (orig.len() as int) == j) by (nonlinear_arith)
                        requires
                            0 <= j < orig.len(),
                    ;
                    assert(box_range(bb@, j) != 0);
                }
                if box_has_nonzero_range(bb@) {
                    let j = choose|j: int| 0 <= j < bb@.len() && box_range(bb@, j) != 0;
                    assert(bb@[j] == orig[j % (orig.len() as int)]);
                    assert(0 <= j % (orig.len() as int) < orig.len()) by (nonlinear_arith)
                        requires
                            orig.len() > 0,
                            0 <= j,
                    ;
                    assert(box_range(orig, j % (orig.len() as int)) != 0);
                }
            }
        }
        if !bb.has_nonzero_range() {
            return Result::Err(ConfigError::ZeroRangeBoundingBox);
        }
        proof {
            assert forall|i: int|
                0 <= i < bb@.len() implies (#[trigger] bb@[i]).0 <= bb@[i].1 && -crate::COORD_LIMIT
                <= bb@[i].0 && bb@[i].1 <= crate::COORD_LIMIT by {
                let orig = self.bounding_box->Some_0@;
                assert(bb@[i] == orig[i % (orig.len() as int)]);
                assert(0 <= i % (orig.len() as int) < orig.len()) by (nonlinear_arith)
                    requires
                        orig.len() > 0,
                        0 <= i,
                ;
            }
        }
        let n_points: usize = match self.n_points {
            Option::Some(n) => n,
            Option::None => 128,
        };
        let window: usize = match self.window {
            Option::Some(w) => w,
            Option::None => n_points,
        };
        Result::Ok(
            Config {
                bb,
                n_trees: match self.n_trees {
                    Option::Some(n) => n,
                    Option::None => 64,
                },
                n_points,
                granularity: match self.granularity {
                    Option::Some(g) => g,
                    Option::None => 1,
                },
                window,
                shingle,
                seed: self.seed,
                sketch_size,
                n_machines,
            },
        )
    }
}

} // verus!
