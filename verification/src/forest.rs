//! The random shift forest: a fixed collection of trees over one configured
//! box, each with an independent shift and split schedule and a point limit
//! that grows with its slot.
//!
//! Scores stay symbolic at this level: the forest's score of a point is the
//! vector of per-tree scores, and the real-valued anomaly score is their
//! mean after applying the tail correction.
use vstd::prelude::*;
use vstd::multiset::Multiset;

use crate::bounding_box::BoundingBox;
use crate::bounding_box::box_contains;
use crate::bounding_box::box_input_sized;
use crate::bounding_box::box_wf;
use crate::config::Config;
use crate::tree::RST;
use crate::tree::TreeScore;
use crate::tree::ms_after_inserts;
use crate::tree::seq_add;
use crate::tree::seq_sub;
use crate::tree::rows_of;

verus! {

broadcast use vstd::multiset::group_multiset_axioms;

/// One score per tree, in tree order.
#[derive(Clone, Debug, PartialEq, Eq)]
pub struct ForestScore {
    pub per_tree: Vec<TreeScore>,
}

/// Sum of the entry counts of a sequence of trees.
pub open spec fn forest_entry_total(trees: Seq<RST>) -> nat
    decreases trees.len(),
{
    if trees.len() == 0 {
        0
    } else {
        forest_entry_total(trees.drop_last()) + trees.last().root.entry_total()
    }
}

/// Sum of the stored weights of a sequence of trees.
pub open spec fn forest_weight_total(trees: Seq<RST>) -> nat
    decreases trees.len(),
{
    if trees.len() == 0 {
        0
    } else {
        forest_weight_total(trees.drop_last()) + trees.last().points().len()
    }
}

pub struct RandShiftForest {
    pub bb: BoundingBox,
    pub trees: Vec<RST>,
}

impl RandShiftForest {
    pub open spec fn wf(&self) -> bool {
        &&& box_wf(self.bb@)
        &&& box_input_sized(self.bb@)
        &&& forall|t: int|
            0 <= t < self.trees@.len() ==> (#[trigger] self.trees@[t]).wf()
                && self.trees@[t].base_bb@ == self.bb@
    }

    /// Every tree can take one more point.
    pub open spec fn can_insert(&self, n: int) -> bool {
        forall|t: int|
            0 <= t < self.trees@.len() ==> (#[trigger] self.trees@[t]).points().len() + n
                <= usize::MAX
    }

    /// The forest's score of a point: one tree score per tree, in order.
    pub open spec fn spec_scores(&self, p: Seq<i64>) -> Seq<TreeScore> {
        Seq::new(self.trees@.len(), |t: int| self.trees@[t].spec_score(p))
    }

    /// Builds the forest: `n_trees` empty trees drawn from one generator
    /// seeded by the configuration.
    pub fn from_config(cfg: &Config) -> (r: Self)
        requires
            cfg.wf(),
            cfg.granularity < usize::MAX,
        ensures
            r.wf(),
            r.bb@ == cfg.bb@,
            r.trees@.len() == cfg.n_trees,
            forall|t: int|
                0 <= t < r.trees@.len() ==> {
                    &&& (#[trigger] r.trees@[t]).points().len() == 0
                    &&& r.trees@[t].root.children is None
                    &&& r.trees@[t].schedule_live()
                    &&& r.trees@[t].max_depth == cfg.spec_max_depth()
                    &&& r.trees@[t].max_points == t * (cfg.granularity as int) / (
                    cfg.n_trees as int) + 1
                },
    {
        let mut rng = cfg.get_rng();
        let mut trees: Vec<RST> = Vec::new();
        let mut i: usize = 0;
        while i < cfg.n_trees
            invariant
                cfg.wf(),
                cfg.granularity < usize::MAX,
                0 <= i <= cfg.n_trees,
                trees@.len() == i,
                forall|t: int|
                    0 <= t < i ==> {
                        &&& (#[trigger] trees@[t]).wf()
                        &&& trees@[t].base_bb@ == cfg.bb@
                        &&& trees@[t].points().len() == 0
                        &&& trees@[t].root.children is None
                        &&& trees@[t].schedule_live()
                        &&& trees@[t].max_depth == cfg.spec_max_depth()
                        &&& trees@[t].max_points == t * (cfg.granularity as int) / (
                        cfg.n_trees as int) + 1
                    },
            decreases cfg.n_trees - i,
        {
            let t = RST::from_config_using(cfg, i, &mut rng);
            trees.push(t);
            i += 1;
        }
        RandShiftForest { bb: cfg.bb.clone(), trees }
    }

    pub fn n_trees(&self) -> (r: usize)
        ensures
            r == self.trees@.len(),
    {
        self.trees.len()
    }

    /// Inserts a point into every tree.
    pub fn insert(&mut self, p: &Vec<i64>)
        requires
            old(self).wf(),
            box_contains(old(self).bb@, p@),
            old(self).can_insert(1),
        ensures
            final(self).wf(),
            final(self).bb@ == old(self).bb@,
            final(self).trees@.len() == old(self).trees@.len(),
            forall|t: int|
                0 <= t < final(self).trees@.len() ==> {
                    &&& (#[trigger] final(self).trees@[t]).points() =~= old(
                        self,
                    ).trees@[t].points().insert(old(self).trees@[t].shifted(p@))
                    &&& final(self).trees@[t].same_shape(&old(self).trees@[t])
                },
    {
        let n = self.trees.len();
        let mut i: usize = 0;
        while i < n
            invariant
                n == self.trees@.len(),
                n == old(self).trees@.len(),
                self.bb@ == old(self).bb@,
                box_contains(old(self).bb@, p@),
                self.wf(),
                0 <= i <= n,
                forall|t: int|
                    i <= t < n ==> #[trigger] self.trees@[t] == old(self).trees@[t],
                forall|t: int|
                    0 <= t < i ==> {
                        &&& (#[trigger] self.trees@[t]).points() =~= old(
                            self,
                        ).trees@[t].points().insert(old(self).trees@[t].shifted(p@))
                        &&& self.trees@[t].same_shape(&old(self).trees@[t])
                    },
                old(self).can_insert(1),
            decreases n - i,
        {
            self.trees[i].insert(p);
            i += 1;
        }
    }

    /// Removes a point from every tree.
    pub fn remove(&mut self, p: &Vec<i64>)
        requires
            old(self).wf(),
            box_contains(old(self).bb@, p@),
        ensures
            final(self).wf(),
            final(self).bb@ == old(self).bb@,
            final(self).trees@.len() == old(self).trees@.len(),
            forall|t: int|
                0 <= t < final(self).trees@.len() ==> {
                    &&& (#[trigger] final(self).trees@[t]).points() =~= old(
                        self,
                    ).trees@[t].points().remove(old(self).trees@[t].shifted(p@))
                    &&& final(self).trees@[t].same_shape(&old(self).trees@[t])
                },
    {
        let n = self.trees.len();
        let mut i: usize = 0;
        while i < n
            invariant
                n == self.trees@.len(),
                n == old(self).trees@.len(),
                self.bb@ == old(self).bb@,
                box_contains(old(self).bb@, p@),
                self.wf(),
                0 <= i <= n,
                forall|t: int|
                    i <= t < n ==> #[trigger] self.trees@[t] == old(self).trees@[t],
                forall|t: int|
                    0 <= t < i ==> {
                        &&& (#[trigger] self.trees@[t]).points() =~= old(
                            self,
                        ).trees@[t].points().remove(old(self).trees@[t].shifted(p@))
                        &&& self.trees@[t].same_shape(&old(self).trees@[t])
                    },
            decreases n - i,
        {
            self.trees[i].remove(p);
            i += 1;
        }
    }

    /// Inserts every row of a batch into every tree.
    pub fn batch_insert(&mut self, xs: &Vec<Vec<i64>>)
        requires
            old(self).wf(),
            forall|i: int|
                0 <= i < xs@.len() ==> box_contains(old(self).bb@, (#[trigger] xs@[i])@),
            old(self).can_insert(xs@.len() as int),
        ensures
            final(self).wf(),
            final(self).bb@ == old(self).bb@,
            final(self).trees@.len() == old(self).trees@.len(),
            forall|t: int|
                0 <= t < final(self).trees@.len() ==> {
                    &&& (#[trigger] final(self).trees@[t]).points() =~= ms_after_inserts(
                        old(self).trees@[t].points(),
                        rows_of(xs@),
                        old(self).trees@[t].shift@,
                    )
                    &&& final(self).trees@[t].points().len() == old(self).trees@[t].points().len()
                        + xs@.len()
                    &&& final(self).trees@[t].same_shape(&old(self).trees@[t])
                },
    {
        let n = self.trees.len();
        let mut i: usize = 0;
        while i < n
            invariant
                n == self.trees@.len(),
                n == old(self).trees@.len(),
                self.bb@ == old(self).bb@,
                forall|j: int|
                    0 <= j < xs@.len() ==> box_contains(old(self).bb@, (#[trigger] xs@[j])@),
                self.wf(),
                0 <= i <= n,
                forall|t: int|
                    i <= t < n ==> #[trigger] self.trees@[t] == old(self).trees@[t],
                forall|t: int|
                    0 <= t < i ==> {
                        &&& (#[trigger] self.trees@[t]).points() =~= ms_after_inserts(
                            old(self).trees@[t].points(),
                            rows_of(xs@),
                            old(self).trees@[t].shift@,
                        )
                        &&& self.trees@[t].points().len() == old(self).trees@[t].points().len()
                            + xs@.len()
                        &&& self.trees@[t].same_shape(&old(self).trees@[t])
                    },
                old(self).can_insert(xs@.len() as int),
            decreases n - i,
        {
            self.trees[i].batch_insert(xs);
            i += 1;
        }
    }

    /// Scores a point against every tree, in tree order.
    pub fn score(&self, p: &Vec<i64>) -> (r: ForestScore)
        requires
            self.wf(),
            box_contains(self.bb@, p@),
        ensures
            r.per_tree@ == self.spec_scores(p@),
    {
        let mut per_tree: Vec<TreeScore> = Vec::new();
        let mut i: usize = 0;
        while i < self.trees.len()
            invariant
                self.wf(),
                box_contains(self.bb@, p@),
                0 <= i <= self.trees@.len(),
                per_tree@.len() == i,
                forall|t: int|
                    0 <= t < i ==> #[trigger] per_tree@[t] == self.trees@[t].spec_score(p@),
            decreases self.trees@.len() - i,
        {
            let s = self.trees[i].score(p);
            per_tree.push(s);
            i += 1;
        }
        proof {
            assert(per_tree@ =~= self.spec_scores(p@));
        }
        ForestScore { per_tree }
    }

    /// Scores every row of a batch: the result at `i` equals the score of
    /// row `i`, element for element.
    pub fn batch_score(&self, xs: &Vec<Vec<i64>>) -> (r: Vec<ForestScore>)
        requires
            self.wf(),
            forall|i: int| 0 <= i < xs@.len() ==> box_contains(self.bb@, (#[trigger] xs@[i])@),
        ensures
            r@.len() == xs@.len(),
            forall|i: int|
                0 <= i < r@.len() ==> (#[trigger] r@[i]).per_tree@ == self.spec_scores(xs@[i]@),
    {
        let mut r: Vec<ForestScore> = Vec::new();
        let mut i: usize = 0;
        while i < xs.len()
            invariant
                self.wf(),
                forall|j: int|
                    0 <= j < xs@.len() ==> box_contains(self.bb@, (#[trigger] xs@[j])@),
                0 <= i <= xs@.len(),
                r@.len() == i,
                forall|j: int|
                    0 <= j < i ==> (#[trigger] r@[j]).per_tree@ == self.spec_scores(xs@[j]@),
            decreases xs@.len() - i,
        {
            let s = self.score(&xs[i]);
            r.push(s);
            i += 1;
        }
        r
    }

    /// Applies the point-list sketch to every tree.
    pub fn sketch(&mut self, k: usize)
        requires
            old(self).wf(),
            k >= 1,
        ensures
            final(self).wf(),
            final(self).bb@ == old(self).bb@,
            final(self).trees@.len() == old(self).trees@.len(),
            forall|t: int|
                0 <= t < final(self).trees@.len() ==> {
                    &&& (#[trigger] final(self).trees@[t]).points().len() == old(
                        self,
                    ).trees@[t].points().len()
                    &&& final(self).trees@[t].root.sketched(k as int)
                    &&& final(self).trees@[t].same_shape(&old(self).trees@[t])
                },
    {
        let n = self.trees.len();
        let mut i: usize = 0;
        while i < n
            invariant
                n == self.trees@.len(),
                n == old(self).trees@.len(),
                self.bb@ == old(self).bb@,
                self.wf(),
                k >= 1,
                0 <= i <= n,
                forall|t: int|
                    i <= t < n ==> #[trigger] self.trees@[t] == old(self).trees@[t],
                forall|t: int|
                    0 <= t < i ==> {
                        &&& (#[trigger] self.trees@[t]).points().len() == old(
                            self,
                        ).trees@[t].points().len()
                        &&& self.trees@[t].root.sketched(k as int)
                        &&& self.trees@[t].same_shape(&old(self).trees@[t])
                    },
            decreases n - i,
        {
            self.trees[i].sketch(k);
            i += 1;
        }
    }

    /// Merges another forest tree by tree: each of its trees is re-inserted
    /// into the matching tree here, un-shifted and re-shifted.
    pub fn extend(&mut self, other: RandShiftForest)
        requires
            old(self).wf(),
            other.wf(),
            old(self).bb@ == other.bb@,
            old(self).trees@.len() == other.trees@.len(),
            forall|t: int|
                0 <= t < old(self).trees@.len() ==> (#[trigger] old(self).trees@[t]).points().len()
                    + other.trees@[t].points().len() <= usize::MAX,
        ensures
            final(self).wf(),
            final(self).bb@ == old(self).bb@,
            final(self).trees@.len() == old(self).trees@.len(),
            forall|t: int|
                0 <= t < final(self).trees@.len() ==> {
                    &&& (#[trigger] final(self).trees@[t]).points().len() == old(
                        self,
                    ).trees@[t].points().len() + other.trees@[t].points().len()
                    &&& final(self).trees@[t].same_shape(&old(self).trees@[t])
                },
            forall|t: int, q: Seq<i64>|
                #![trigger final(self).trees@[t], other.trees@[t].points().count(q)]
                0 <= t < final(self).trees@.len() && other.trees@[t].points().count(q) > 0
                    ==> final(self).trees@[t].points().count(
                    seq_add(seq_sub(q, other.trees@[t].shift@), old(self).trees@[t].shift@),
                ) == old(self).trees@[t].points().count(
                    seq_add(seq_sub(q, other.trees@[t].shift@), old(self).trees@[t].shift@),
                ) + other.trees@[t].points().count(q),
            forall|t: int, x: Seq<i64>|
                #![trigger final(self).trees@[t].points().count(x)]
                0 <= t < final(self).trees@.len() && !crate::tree::reshifted_from(
                    other.trees@[t].points(),
                    other.trees@[t].shift@,
                    old(self).trees@[t].shift@,
                    x,
                ) ==> final(self).trees@[t].points().count(x) == old(
                    self,
                ).trees@[t].points().count(x),
    {
        let n = self.trees.len();
        let mut rest = other.trees;
        let ghost others = rest@;
        let mut i: usize = 0;
        while i < n
            invariant
                n == self.trees@.len(),
                n == old(self).trees@.len(),
                self.bb@ == old(self).bb@,
                self.wf(),
                0 <= i <= n,
                rest@ =~= others.skip(i as int),
                others.len() == n,
                forall|t: int|
                    0 <= t < n ==> (#[trigger] others[t]).wf() && others[t].base_bb@ == old(
                        self,
                    ).bb@,
                forall|t: int|
                    i <= t < n ==> #[trigger] self.trees@[t] == old(self).trees@[t],
                forall|t: int|
                    0 <= t < n ==> (#[trigger] old(self).trees@[t]).points().len()
                        + others[t].points().len() <= usize::MAX,
                forall|t: int|
                    0 <= t < i ==> {
                        &&& (#[trigger] self.trees@[t]).points().len() == old(
                            self,
                        ).trees@[t].points().len() + others[t].points().len()
                        &&& self.trees@[t].same_shape(&old(self).trees@[t])
                    },
                forall|t: int, q: Seq<i64>|
                    #![trigger self.trees@[t], others[t].points().count(q)]
                    0 <= t < i && others[t].points().count(q) > 0 ==> self.trees@[t].points().count(
                        seq_add(seq_sub(q, others[t].shift@), old(self).trees@[t].shift@),
                    ) == old(self).trees@[t].points().count(
                        seq_add(seq_sub(q, others[t].shift@), old(self).trees@[t].shift@),
                    ) + others[t].points().count(q),
                forall|t: int, x: Seq<i64>|
                    #![trigger self.trees@[t].points().count(x)]
                    0 <= t < i && !crate::tree::reshifted_from(
                        others[t].points(),
                        others[t].shift@,
                        old(self).trees@[t].shift@,
                        x,
                    ) ==> self.trees@[t].points().count(x) == old(self).trees@[t].points().count(
                        x,
                    ),
            decreases n - i,
        {
            let t2 = rest.remove(0);
            proof {
                assert(t2 == others[i as int]);
                assert(rest@ =~= others.skip(i as int + 1));
            }
            self.trees[i].extend(t2);
            i += 1;
        }
    }

    /// Inserts a point into one tree only (the split-picker window mode).
    pub fn insert_tree(&mut self, t: usize, p: &Vec<i64>)
        requires
            old(self).wf(),
            t < old(self).trees@.len(),
            box_contains(old(self).bb@, p@),
            old(self).trees@[t as int].points().len() < usize::MAX,
        ensures
            final(self).wf(),
            final(self).bb@ == old(self).bb@,
            final(self).trees@.len() == old(self).trees@.len(),
            final(self).trees@[t as int].points() =~= old(self).trees@[t as int].points().insert(
                old(self).trees@[t as int].shifted(p@),
            ),
            final(self).trees@[t as int].same_shape(&old(self).trees@[t as int]),
            forall|x: int|
                0 <= x < old(self).trees@.len() && x != t ==> #[trigger] final(self).trees@[x]
                    == old(self).trees@[x],
    {
        self.trees[t].insert(p);
    }

    /// Removes a point from one tree only (the split-picker window mode).
    pub fn remove_tree(&mut self, t: usize, p: &Vec<i64>)
        requires
            old(self).wf(),
            t < old(self).trees@.len(),
            box_contains(old(self).bb@, p@),
        ensures
            final(self).wf(),
            final(self).bb@ == old(self).bb@,
            final(self).trees@.len() == old(self).trees@.len(),
            final(self).trees@[t as int].points() =~= old(self).trees@[t as int].points().remove(
                old(self).trees@[t as int].shifted(p@),
            ),
            final(self).trees@[t as int].same_shape(&old(self).trees@[t as int]),
            forall|x: int|
                0 <= x < old(self).trees@.len() && x != t ==> #[trigger] final(self).trees@[x]
                    == old(self).trees@[x],
    {
        self.trees[t].remove(p);
    }

    /// Mean stored weight over the trees, rounded down; zero on an empty
    /// forest.
    pub fn n_points(&self) -> (r: usize)
        requires
            self.wf(),
            forest_weight_total(self.trees@) <= usize::MAX,
        ensures
            self.trees@.len() > 0 ==> r == forest_weight_total(self.trees@) as int / (
            self.trees@.len() as int),
            self.trees@.len() == 0 ==> r == 0,
    {
        let total = self.weight_total();
        if self.trees.len() == 0 {
            0
        } else {
            total / self.trees.len()
        }
    }

    /// Total entry count over the trees.
    pub fn entry_total(&self) -> (r: usize)
        requires
            self.wf(),
            forest_entry_total(self.trees@) <= usize::MAX,
        ensures
            r == forest_entry_total(self.trees@),
    {
        let ghost s = self.trees@;
        let mut sum: usize = 0;
        let mut i: usize = 0;
        proof {
            assert(s.take(0) =~= Seq::<RST>::empty());
        }
        while i < self.trees.len()
            invariant
                s == self.trees@,
                self.wf(),
                forest_entry_total(s) <= usize::MAX,
                0 <= i <= s.len(),
                sum == forest_entry_total(s.take(i as int)),
            decreases s.len() - i,
        {
            proof {
                assert(s.take(i + 1).drop_last() =~= s.take(i as int));
                assert(s.take(i + 1).last() == s[i as int]);
                lemma_forest_entry_prefix(s, i as int + 1);
            }
            let w = self.trees[i].n_points();
            sum = sum + w;
            i += 1;
        }
        proof {
            assert(s.take(s.len() as int) =~= s);
        }
        sum
    }

    /// Total stored weight over the trees.
    pub fn weight_total(&self) -> (r: usize)
        requires
            self.wf(),
            forest_weight_total(self.trees@) <= usize::MAX,
        ensures
            r == forest_weight_total(self.trees@),
    {
        let ghost s = self.trees@;
        let mut sum: usize = 0;
        let mut i: usize = 0;
        proof {
            assert(s.take(0) =~= Seq::<RST>::empty());
        }
        while i < self.trees.len()
            invariant
                s == self.trees@,
                self.wf(),
                forest_weight_total(s) <= usize::MAX,
                0 <= i <= s.len(),
                sum == forest_weight_total(s.take(i as int)),
            decreases s.len() - i,
        {
            proof {
                assert(s.take(i + 1).drop_last() =~= s.take(i as int));
                assert(s.take(i + 1).last() == s[i as int]);
                lemma_forest_weight_prefix(s, i as int + 1);
            }
            let w = self.trees[i].total_weight();
            sum = sum + w;
            i += 1;
        }
        proof {
            assert(s.take(s.len() as int) =~= s);
        }
        sum
    }
}

/// A prefix of trees holds no more entries than all of them.
pub proof fn lemma_forest_entry_prefix(s: Seq<RST>, i: int)
    requires
        0 <= i <= s.len(),
    ensures
        forest_entry_total(s.take(i)) <= forest_entry_total(s),
    decreases s.len() - i,
{
    if i == s.len() {
        assert(s.take(i) =~= s);
    } else {
        assert(s.take(i + 1).drop_last() =~= s.take(i));
        assert(s.take(i + 1).last() == s[i]);
        lemma_forest_entry_prefix(s, i + 1);
    }
}

/// A prefix of trees weighs no more than all of them.
pub proof fn lemma_forest_weight_prefix(s: Seq<RST>, i: int)
    requires
        0 <= i <= s.len(),
    ensures
        forest_weight_total(s.take(i)) <= forest_weight_total(s),
    decreases s.len() - i,
{
    if i == s.len() {
        assert(s.take(i) =~= s);
    } else {
        assert(s.take(i + 1).drop_last() =~= s.take(i));
        assert(s.take(i + 1).last() == s[i]);
        lemma_forest_weight_prefix(s, i + 1);
    }
}

} // verus!
