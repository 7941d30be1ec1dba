//! The split pipeline: the first `n_points` inputs bulk-load the forest,
//! and every later input is scored without further mutation.
use vstd::prelude::*;

use crate::bounding_box::box_contains;
use crate::config::Config;
use crate::forest::ForestScore;
use crate::forest::RandShiftForest;

verus! {

/// A forest that fills from the head of a stream and then only scores.
pub struct RSFSplit {
    pub f: RandShiftForest,
    pub filled: usize,
    pub n_points: usize,
}

impl RSFSplit {
    pub open spec fn wf(&self) -> bool {
        &&& self.f.wf()
        &&& self.filled <= self.n_points
        &&& forall|t: int|
            0 <= t < self.f.trees@.len() ==> (#[trigger] self.f.trees@[t]).points().len()
                == self.filled
    }

    pub fn new(cfg: &Config) -> (r: Self)
        requires
            cfg.wf(),
            cfg.granularity < usize::MAX,
        ensures
            r.wf(),
            r.filled == 0,
            r.n_points == cfg.n_points,
            r.f.bb@ == cfg.bb@,
            r.f.trees@.len() == cfg.n_trees,
    {
        RSFSplit { f: RandShiftForest::from_config(cfg), filled: 0, n_points: cfg.n_points }
    }

    /// Feeds one point: loaded silently while the head of the stream is
    /// being consumed, scored afterwards.
    pub fn push(&mut self, p: &Vec<i64>) -> (r: Option<ForestScore>)
        requires
            old(self).wf(),
            box_contains(old(self).f.bb@, p@),
        ensures
            final(self).wf(),
            old(self).filled < old(self).n_points ==> {
                &&& r is None
                &&& final(self).filled == old(self).filled + 1
                &&& final(self).f.trees@.len() == old(self).f.trees@.len()
            },
            old(self).filled >= old(self).n_points ==> {
                &&& r is Some
                &&& r->Some_0.per_tree@ == old(self).f.spec_scores(p@)
                &&& *final(self) == *old(self)
            },
    {
        if self.filled < self.n_points {
            let forest = &mut self.f;
            forest.insert(p);
            self.filled = self.filled + 1;
            Option::None
        } else {
            Option::Some(self.f.score(p))
        }
    }
}

} // verus!
