//! The reservoir pipeline: every arrival is scored once the reservoir has
//! been primed, and the reservoir's verdict is mirrored into the forest —
//! an insertion, a skip, or a replacement (remove then insert).
//!
//! The binding statement is the mirror invariant in `wf`: each tree's
//! contents always equal the shifted multiset of its governing reservoir's
//! buffer, so the forest can never drift from the reservoirs and each tree
//! holds at most the reservoir capacity.  The joint shape keeps one
//! reservoir for the whole forest; the split shape keeps one per tree.
use vstd::prelude::*;
use vstd::multiset::Multiset;

use crate::bounding_box::box_contains;
use crate::config::Config;
use crate::forest::ForestScore;
use crate::forest::RandShiftForest;
use crate::reservoir::Reservoir;
use crate::reservoir::ReservoirUpdate;
use crate::tree::rows_of;
use crate::tree::seq_add;

verus! {

broadcast use vstd::multiset::group_multiset_axioms;

/// A coarse summary of one reservoir verdict applied to a tree's contents:
/// unchanged, one shifted insertion, or a removal followed by the
/// insertion.  The exact tie to the buffer is the mirror invariant in
/// `RSFReservoir::wf`.
pub open spec fn reservoir_step_ok(
    oldms: Multiset<Seq<i64>>,
    newms: Multiset<Seq<i64>>,
    ps: Seq<i64>,
) -> bool {
    ||| newms =~= oldms
    ||| newms =~= oldms.insert(ps)
    ||| exists|q: Seq<i64>| newms =~= oldms.remove(q).insert(ps)
}

/// The multiset of buffered rows, each shifted by a tree's shift: what a
/// tree mirroring the reservoir must hold.
pub open spec fn shifted_rows_ms(rows: Seq<Seq<i64>>, shift: Seq<i64>) -> Multiset<Seq<i64>>
    decreases rows.len(),
{
    if rows.len() == 0 {
        Multiset::empty()
    } else {
        shifted_rows_ms(rows.drop_last(), shift).insert(seq_add(rows.last(), shift))
    }
}

pub proof fn lemma_srm_len(rows: Seq<Seq<i64>>, shift: Seq<i64>)
    ensures
        shifted_rows_ms(rows, shift).len() == rows.len(),
    decreases rows.len(),
{
    if rows.len() > 0 {
        lemma_srm_len(rows.drop_last(), shift);
    }
}

pub proof fn lemma_srm_push(rows: Seq<Seq<i64>>, x: Seq<i64>, shift: Seq<i64>)
    ensures
        shifted_rows_ms(rows.push(x), shift) == shifted_rows_ms(rows, shift).insert(
            seq_add(x, shift),
        ),
{
    assert(rows.push(x).drop_last() =~= rows);
}

/// Each buffered row contributes its shifted copy at least once.
pub proof fn lemma_srm_at(rows: Seq<Seq<i64>>, j: int, shift: Seq<i64>)
    requires
        0 <= j < rows.len(),
    ensures
        shifted_rows_ms(rows, shift).count(seq_add(rows[j], shift)) >= 1,
    decreases rows.len(),
{
    if j < rows.len() - 1 {
        assert(rows.drop_last()[j] == rows[j]);
        lemma_srm_at(rows.drop_last(), j, shift);
    }
}

/// Replacing one buffered row removes its shifted copy and inserts the
/// replacement's.
pub proof fn lemma_srm_update(rows: Seq<Seq<i64>>, j: int, x: Seq<i64>, shift: Seq<i64>)
    requires
        0 <= j < rows.len(),
    ensures
        shifted_rows_ms(rows.update(j, x), shift) =~= shifted_rows_ms(rows, shift).remove(
            seq_add(rows[j], shift),
        ).insert(seq_add(x, shift)),
    decreases rows.len(),
{
    if j == rows.len() - 1 {
        assert(rows.update(j, x).drop_last() =~= rows.drop_last());
        assert(rows.update(j, x).last() == x);
    } else {
        assert(rows.drop_last()[j] == rows[j]);
        assert(rows.update(j, x).drop_last() =~= rows.drop_last().update(j, x));
        assert(rows.update(j, x).last() == rows.last());
        lemma_srm_update(rows.drop_last(), j, x, shift);
        lemma_srm_at(rows.drop_last(), j, shift);
        assert forall|v: Seq<i64>|
            shifted_rows_ms(rows.update(j, x), shift).count(v) == shifted_rows_ms(
                rows,
                shift,
            ).remove(seq_add(rows[j], shift)).insert(seq_add(x, shift)).count(v) by {
            assert(shifted_rows_ms(rows.update(j, x), shift).count(v) == shifted_rows_ms(
                rows.drop_last().update(j, x),
                shift,
            ).count(v) + (if v == seq_add(rows.last(), shift) {
                1int
            } else {
                0int
            }));
            assert(shifted_rows_ms(rows, shift).count(v) == shifted_rows_ms(
                rows.drop_last(),
                shift,
            ).count(v) + (if v == seq_add(rows.last(), shift) {
                1int
            } else {
                0int
            }));
        }
    }
}

/// The reservoir pipeline over a forest.
pub struct RSFReservoir {
    pub f: RandShiftForest,
    pub reservoirs: Vec<Reservoir>,
    pub split_mode: bool,
    pub r: usize,
    pub seen: usize,
}

impl RSFReservoir {
    /// The reservoir governing tree `t`: its own in the split shape, the
    /// single shared one otherwise.
    pub open spec fn reservoir_for(&self, t: int) -> Reservoir {
        if self.split_mode {
            self.reservoirs@[t]
        } else {
            self.reservoirs@[0]
        }
    }

    pub open spec fn wf(&self) -> bool {
        &&& self.f.wf()
        &&& (if self.split_mode {
            self.reservoirs@.len() == self.f.trees@.len()
        } else {
            self.reservoirs@.len() == 1
        })
        &&& forall|i: int|
            0 <= i < self.reservoirs@.len() ==> {
                &&& (#[trigger] self.reservoirs@[i]).wf()
                &&& self.reservoirs@[i].r == self.r
                &&& self.reservoirs@[i].i == self.seen
            }
        &&& forall|i: int, j: int|
            #![trigger self.reservoirs@[i].buf@[j]]
            0 <= i < self.reservoirs@.len() && 0 <= j < self.reservoirs@[i].buf@.len()
                ==> box_contains(self.f.bb@, (self.reservoirs@[i].buf@[j])@)
        &&& forall|t: int|
            0 <= t < self.f.trees@.len() ==> (#[trigger] self.f.trees@[t]).points()
                == shifted_rows_ms(
                rows_of(self.reservoir_for(t).buf@),
                self.f.trees@[t].shift@,
            )
    }

    /// Builds the pipeline: reservoirs of capacity `n_points` over a fresh
    /// forest.
    pub fn new(cfg: &Config, split_mode: bool) -> (r: Self)
        requires
            cfg.wf(),
            cfg.granularity < usize::MAX,
        ensures
            r.wf(),
            r.seen == 0,
            r.r == cfg.n_points,
            r.split_mode == split_mode,
            r.f.bb@ == cfg.bb@,
            r.f.trees@.len() == cfg.n_trees,
    {
        let f = RandShiftForest::from_config(cfg);
        let n_res: usize = if split_mode {
            f.n_trees()
        } else {
            1
        };
        let mut reservoirs: Vec<Reservoir> = Vec::new();
        let mut i: usize = 0;
        while i < n_res
            invariant
                0 <= i <= n_res,
                reservoirs@.len() == i,
                forall|j: int|
                    0 <= j < i ==> {
                        &&& (#[trigger] reservoirs@[j]).wf()
                        &&& reservoirs@[j].r == cfg.n_points
                        &&& reservoirs@[j].i == 0
                        &&& reservoirs@[j].buf@.len() == 0
                    },
            decreases n_res - i,
        {
            let res = Reservoir::new(cfg.n_points);
            reservoirs.push(res);
            i += 1;
        }
        let made = RSFReservoir { f, reservoirs, split_mode, r: cfg.n_points, seen: 0 };
        proof {
            assert forall|t: int|
                0 <= t < made.f.trees@.len() implies (#[trigger] made.f.trees@[t]).points()
                == shifted_rows_ms(
                rows_of(made.reservoir_for(t).buf@),
                made.f.trees@[t].shift@,
            ) by {
                assert(made.f.trees@[t].points().len() == 0);
                assert(made.f.trees@[t].points() =~= Multiset::<Seq<i64>>::empty());
                assert(made.reservoir_for(t).buf@.len() == 0);
                assert(rows_of(made.reservoir_for(t).buf@).len() == 0);
            }
        }
        made
    }

    /// Feeds one point: scored once the first `r` arrivals have primed the
    /// reservoir, then offered to each reservoir, whose verdict is
    /// mirrored into the matching trees.
    pub fn push(&mut self, p: &Vec<i64>) -> (out: Option<ForestScore>)
        requires
            old(self).wf(),
            box_contains(old(self).f.bb@, p@),
            old(self).f.can_insert(1),
            old(self).seen < usize::MAX,
        ensures
            final(self).wf(),
            final(self).seen == old(self).seen + 1,
            final(self).r == old(self).r,
            final(self).split_mode == old(self).split_mode,
            final(self).f.trees@.len() == old(self).f.trees@.len(),
            out is Some <==> old(self).seen >= old(self).r,
            out is Some ==> out->Some_0.per_tree@ == old(self).f.spec_scores(p@),
            forall|t: int|
                0 <= t < final(self).f.trees@.len() ==> reservoir_step_ok(
                    (#[trigger] old(self).f.trees@[t]).points(),
                    final(self).f.trees@[t].points(),
                    old(self).f.trees@[t].shifted(p@),
                ) && final(self).f.trees@[t].same_shape(&old(self).f.trees@[t]),
            forall|t: int|
                0 <= t < final(self).f.trees@.len() ==> (#[trigger] final(self).f.trees@[t]).points().len()
                    <= final(self).r,
    {
        let out: Option<ForestScore> = if self.seen >= self.r {
            Option::Some(self.f.score(p))
        } else {
            Option::None
        };
        self.seen = self.seen + 1;
        if !self.split_mode {
            let item = crate::copy_coords(p);
            let res = &mut self.reservoirs[0];
            let upd = res.insert(item);
            match upd {
                ReservoirUpdate::Insert => {
                    let forest = &mut self.f;
                    forest.insert(p);
                    proof {
                        let rows0 = rows_of(old(self).reservoirs@[0].buf@);
                        assert(rows_of(self.reservoirs@[0].buf@) =~= rows0.push(p@));
                        assert forall|t: int|
                            0 <= t < self.f.trees@.len() implies (#[trigger] self.f.trees@[t]).points()
                            == shifted_rows_ms(
                            rows_of(self.reservoirs@[0].buf@),
                            self.f.trees@[t].shift@,
                        ) by {
                            lemma_srm_push(rows0, p@, self.f.trees@[t].shift@);
                            assert(old(self).f.trees@[t].points() == shifted_rows_ms(
                                rows0,
                                old(self).f.trees@[t].shift@,
                            ));
                            assert(self.f.trees@[t].points() =~= old(
                                self,
                            ).f.trees@[t].points().insert(old(self).f.trees@[t].shifted(p@)));
                        }
                    }
                },
                ReservoirUpdate::Skip => {},
                ReservoirUpdate::Replace(evicted) => {
                    proof {
                        let j = choose|j: int|
                            0 <= j < old(self).reservoirs@[0].r && evicted@ == (
                            #[trigger] old(self).reservoirs@[0].buf@[j])@ && crate::tree::rows_of(
                                self.reservoirs@[0].buf@,
                            ) =~= crate::tree::rows_of(old(self).reservoirs@[0].buf@).update(
                                j,
                                p@,
                            );
                        assert(box_contains(self.f.bb@, evicted@));
                    }
                    let forest = &mut self.f;
                    forest.remove(&evicted);
                    proof {
                        assert forall|t: int|
                            0 <= t < self.f.trees@.len() implies (#[trigger] self.f.trees@[t]).points().len()
                            + 1 <= usize::MAX by {
                            crate::tree::lemma_remove_len(
                                old(self).f.trees@[t].points(),
                                old(self).f.trees@[t].shifted(evicted@),
                            );
                        }
                        assert(self.f.can_insert(1));
                    }
                    let forest2 = &mut self.f;
                    forest2.insert(p);
                    proof {
                        assert forall|t: int|
                            0 <= t < self.f.trees@.len() implies reservoir_step_ok(
                            (#[trigger] old(self).f.trees@[t]).points(),
                            self.f.trees@[t].points(),
                            old(self).f.trees@[t].shifted(p@),
                        ) by {
                            let q = old(self).f.trees@[t].shifted(evicted@);
                            assert(self.f.trees@[t].points() =~= old(
                                self,
                            ).f.trees@[t].points().remove(q).insert(
                                old(self).f.trees@[t].shifted(p@),
                            ));
                        }
                        let rows0 = rows_of(old(self).reservoirs@[0].buf@);
                        let j2 = choose|j2: int|
                            0 <= j2 < old(self).reservoirs@[0].r && evicted@ == (
                            #[trigger] old(self).reservoirs@[0].buf@[j2])@ && rows_of(
                                self.reservoirs@[0].buf@,
                            ) =~= rows0.update(j2, p@);
                        assert forall|t: int|
                            0 <= t < self.f.trees@.len() implies (#[trigger] self.f.trees@[t]).points()
                            == shifted_rows_ms(
                            rows_of(self.reservoirs@[0].buf@),
                            self.f.trees@[t].shift@,
                        ) by {
                            let sh = self.f.trees@[t].shift@;
                            lemma_srm_update(rows0, j2, p@, sh);
                            assert(rows0[j2] == evicted@);
                            assert(old(self).f.trees@[t].points() == shifted_rows_ms(rows0, sh));
                            assert(self.f.trees@[t].points() =~= old(
                                self,
                            ).f.trees@[t].points().remove(seq_add(evicted@, sh)).insert(
                                seq_add(p@, sh),
                            ));
                        }
                    }
                },
            }
            proof {
                assert forall|i: int, j: int|
                    #![trigger self.reservoirs@[i].buf@[j]]
                    0 <= i < self.reservoirs@.len() && 0 <= j < self.reservoirs@[i].buf@.len() implies box_contains(
                    self.f.bb@,
                    (self.reservoirs@[i].buf@[j])@,
                ) by {
                    assert(crate::tree::rows_of(self.reservoirs@[0].buf@)[j] == (
                    self.reservoirs@[0].buf@[j])@);
                }
            }
        } else {
            let n = self.f.n_trees();
            let mut t: usize = 0;
            while t < n
                invariant
                    box_contains(old(self).f.bb@, p@),
                    self.split_mode == old(self).split_mode,
                    self.split_mode,
                    self.r == old(self).r,
                    self.seen == old(self).seen + 1,
                    self.f.wf(),
                    self.f.bb@ == old(self).f.bb@,
                    n == self.f.trees@.len(),
                    n == old(self).f.trees@.len(),
                    self.reservoirs@.len() == n,
                    old(self).reservoirs@.len() == n,
                    old(self).seen < usize::MAX,
                    0 <= t <= n,
                    forall|x: int|
                        t <= x < n ==> #[trigger] self.f.trees@[x] == old(self).f.trees@[x],
                    forall|x: int|
                        t <= x < n ==> #[trigger] self.reservoirs@[x] == old(self).reservoirs@[x],
                    forall|x: int|
                        0 <= x < t ==> {
                            &&& (#[trigger] self.reservoirs@[x]).wf()
                            &&& self.reservoirs@[x].r == self.r
                            &&& self.reservoirs@[x].i == self.seen
                        },
                    forall|x: int|
                        0 <= x < n ==> {
                            &&& (#[trigger] old(self).reservoirs@[x]).wf()
                            &&& old(self).reservoirs@[x].r == self.r
                            &&& old(self).reservoirs@[x].i == old(self).seen
                        },
                    forall|x: int, j: int|
                        #![trigger self.reservoirs@[x].buf@[j]]
                        0 <= x < n && 0 <= j < self.reservoirs@[x].buf@.len() ==> box_contains(
                            self.f.bb@,
                            (self.reservoirs@[x].buf@[j])@,
                        ),
                    forall|x: int|
                        0 <= x < t ==> reservoir_step_ok(
                            (#[trigger] old(self).f.trees@[x]).points(),
                            self.f.trees@[x].points(),
                            old(self).f.trees@[x].shifted(p@),
                        ) && self.f.trees@[x].same_shape(&old(self).f.trees@[x]),
                    forall|x: int|
                        0 <= x < n ==> (#[trigger] self.f.trees@[x]).points() == shifted_rows_ms(
                            rows_of(self.reservoirs@[x].buf@),
                            self.f.trees@[x].shift@,
                        ),
                    old(self).f.can_insert(1),
                decreases n - t,
            {
                let item = crate::copy_coords(p);
                let ghost prebuf = self.reservoirs@[t as int].buf@;
                let res = &mut self.reservoirs[t];
                let upd = res.insert(item);
                match upd {
                    ReservoirUpdate::Insert => {
                        let forest = &mut self.f;
                        forest.insert_tree(t, p);
                        proof {
                            assert(rows_of(self.reservoirs@[t as int].buf@) =~= rows_of(
                                prebuf,
                            ).push(p@));
                            lemma_srm_push(
                                rows_of(prebuf),
                                p@,
                                self.f.trees@[t as int].shift@,
                            );
                        }
                    },
                    ReservoirUpdate::Skip => {},
                    ReservoirUpdate::Replace(evicted) => {
                        proof {
                            let j = choose|j: int|
                                0 <= j < self.r && evicted@ == (#[trigger] prebuf[j])@
                                    && crate::tree::rows_of(self.reservoirs@[t as int].buf@)
                                    =~= crate::tree::rows_of(prebuf).update(j, p@);
                            assert(box_contains(self.f.bb@, evicted@));
                        }
                        let forest = &mut self.f;
                        forest.remove_tree(t, &evicted);
                        proof {
                            crate::tree::lemma_remove_len(
                                old(self).f.trees@[t as int].points(),
                                old(self).f.trees@[t as int].shifted(evicted@),
                            );
                            assert(self.f.trees@[t as int].points().len() < usize::MAX);
                        }
                        let forest2 = &mut self.f;
                        forest2.insert_tree(t, p);
                        proof {
                            let q = old(self).f.trees@[t as int].shifted(evicted@);
                            assert(self.f.trees@[t as int].points() =~= old(
                                self,
                            ).f.trees@[t as int].points().remove(q).insert(
                                old(self).f.trees@[t as int].shifted(p@),
                            ));
                            let sh = self.f.trees@[t as int].shift@;
                            let j2 = choose|j2: int|
                                0 <= j2 < self.r && evicted@ == (#[trigger] prebuf[j2])@
                                    && rows_of(self.reservoirs@[t as int].buf@) =~= rows_of(
                                    prebuf,
                                ).update(j2, p@);
                            lemma_srm_update(rows_of(prebuf), j2, p@, sh);
                            assert(rows_of(prebuf)[j2] == evicted@);
                            assert(self.f.trees@[t as int].points() == shifted_rows_ms(
                                rows_of(self.reservoirs@[t as int].buf@),
                                sh,
                            ));
                        }
                    },
                }
                proof {
                    assert forall|x: int, j: int|
                        #![trigger self.reservoirs@[x].buf@[j]]
                        0 <= x < n && 0 <= j
                            < self.reservoirs@[x].buf@.len() implies box_contains(
                        self.f.bb@,
                        (self.reservoirs@[x].buf@[j])@,
                    ) by {
                        if x == t {
                            assert(crate::tree::rows_of(self.reservoirs@[x].buf@)[j] == (
                            self.reservoirs@[x].buf@[j])@);
                        }
                    }
                }
                t += 1;
            }
        }
        proof {
            assert forall|t: int|
                0 <= t < self.f.trees@.len() implies (#[trigger] self.f.trees@[t]).points().len()
                <= self.r by {
                assert(self.f.trees@[t].points() == shifted_rows_ms(
                    rows_of(self.reservoir_for(t).buf@),
                    self.f.trees@[t].shift@,
                ));
                lemma_srm_len(rows_of(self.reservoir_for(t).buf@), self.f.trees@[t].shift@);
                assert(self.reservoir_for(t).buf@.len() <= self.r);
            }
        }
        out
    }
}

} // verus!
