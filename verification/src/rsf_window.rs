//! The sliding-window pipeline: once the window is full, each arrival is
//! scored, the evicted point may leave the forest and the arrival may
//! enter it, both under deterministic hash sub-sampling.
//!
//! The joint shape shares one picker across all trees; the split shape
//! gives every tree its own picker, so each tree sees its own subsample.
use vstd::prelude::*;
use vstd::multiset::Multiset;

use crate::bounding_box::box_contains;
use crate::config::Config;
use crate::forest::ForestScore;
use crate::forest::RandShiftForest;
use crate::hash_picker::HashPicker;
use crate::hash_picker::spec_picks;
use crate::tree::seq_add;
use crate::window::Window;
use crate::window::WindowUpdate;

verus! {

broadcast use vstd::multiset::group_multiset_axioms;

/// Whether a picker accepts a stream index.
pub open spec fn pick_of(picker: HashPicker, i: usize) -> bool {
    spec_picks(picker.seed, picker.num, picker.den, i as u64)
}

/// What one window step does to a tree's contents: the evicted point, if
/// any and if picked, leaves; then the arrival, if picked, enters.
pub open spec fn window_step_ms(
    ms: Multiset<Seq<i64>>,
    shift: Seq<i64>,
    picker: HashPicker,
    evicted: Option<(usize, Seq<i64>)>,
    idx: usize,
    p: Seq<i64>,
) -> Multiset<Seq<i64>> {
    let ms1 = match evicted {
        Option::None => ms,
        Option::Some(e) => if pick_of(picker, e.0) {
            ms.remove(seq_add(e.1, shift))
        } else {
            ms
        },
    };
    if pick_of(picker, idx) {
        ms1.insert(seq_add(p, shift))
    } else {
        ms1
    }
}

/// The window pipeline over a forest.
pub struct RSFWindow {
    pub f: RandShiftForest,
    pub window: Window,
    pub pickers: Vec<HashPicker>,
    pub next_index: usize,
    pub split_mode: bool,
}

impl RSFWindow {
    /// The picker deciding the fate of indices for tree `t`.
    pub open spec fn picker_for(&self, t: int) -> HashPicker {
        if self.split_mode {
            self.pickers@[t]
        } else {
            self.pickers@[0]
        }
    }

    pub open spec fn wf(&self) -> bool {
        &&& self.f.wf()
        &&& self.window.wf()
        &&& (if self.split_mode {
            self.pickers@.len() == self.f.trees@.len()
        } else {
            self.pickers@.len() == 1
        })
        &&& forall|i: int| 0 <= i < self.pickers@.len() ==> (#[trigger] self.pickers@[i]).wf()
        &&& forall|j: int|
            0 <= j < self.window.buf@.len() ==> box_contains(
                self.f.bb@,
                ((#[trigger] self.window.buf@[j]).1)@,
            )
    }

    /// Builds the pipeline: one picker in the joint shape, one per tree in
    /// the split shape, each accepting `n_points` of every `window` indices.
    pub fn new(cfg: &Config, split_mode: bool) -> (r: Self)
        requires
            cfg.wf(),
            cfg.granularity < usize::MAX,
            cfg.n_points <= cfg.window,
            cfg.window >= 1,
        ensures
            r.wf(),
            r.window.buf@.len() == 0,
            r.window.w == cfg.window,
            r.next_index == 0,
            r.split_mode == split_mode,
            r.f.bb@ == cfg.bb@,
            r.f.trees@.len() == cfg.n_trees,
    {
        let f = RandShiftForest::from_config(cfg);
        let n_pickers: usize = if split_mode {
            f.n_trees()
        } else {
            1
        };
        let mut pickers: Vec<HashPicker> = Vec::new();
        let mut i: usize = 0;
        while i < n_pickers
            invariant
                cfg.n_points <= cfg.window,
                cfg.window >= 1,
                0 <= i <= n_pickers,
                pickers@.len() == i,
                forall|j: int| 0 <= j < i ==> (#[trigger] pickers@[j]).wf(),
            decreases n_pickers - i,
        {
            let picker = HashPicker::from_frac(cfg.n_points, cfg.window);
            pickers.push(picker);
            i += 1;
        }
        RSFWindow { f, window: Window::new(cfg.window), pickers, next_index: 0, split_mode }
    }

    /// Removes an evicted window item from the trees whose picker accepted
    /// its index.
    fn handle_old(&mut self, item: &(usize, Vec<i64>))
        requires
            old(self).wf(),
            box_contains(old(self).f.bb@, item.1@),
        ensures
            final(self).wf(),
            final(self).f.bb@ == old(self).f.bb@,
            final(self).f.trees@.len() == old(self).f.trees@.len(),
            final(self).window == old(self).window,
            final(self).pickers == old(self).pickers,
            final(self).next_index == old(self).next_index,
            final(self).split_mode == old(self).split_mode,
            forall|t: int|
                0 <= t < final(self).f.trees@.len() ==> {
                    &&& (#[trigger] final(self).f.trees@[t]).points() =~= (if pick_of(
                        old(self).picker_for(t),
                        item.0,
                    ) {
                        old(self).f.trees@[t].points().remove(
                            old(self).f.trees@[t].shifted(item.1@),
                        )
                    } else {
                        old(self).f.trees@[t].points()
                    })
                    &&& final(self).f.trees@[t].same_shape(&old(self).f.trees@[t])
                },
    {
        if !self.split_mode {
            if self.pickers[0].picks(item.0 as u64) {
                let forest = &mut self.f;
                forest.remove(&item.1);
            }
        } else {
            let n = self.f.n_trees();
            let mut t: usize = 0;
            while t < n
                invariant
                    self.wf(),
                    box_contains(old(self).f.bb@, item.1@),
                    self.split_mode == old(self).split_mode,
                    self.split_mode,
                    self.pickers == old(self).pickers,
                    self.window == old(self).window,
                    self.next_index == old(self).next_index,
                    self.f.bb@ == old(self).f.bb@,
                    n == self.f.trees@.len(),
                    n == old(self).f.trees@.len(),
                    0 <= t <= n,
                    forall|x: int|
                        t <= x < n ==> #[trigger] self.f.trees@[x] == old(self).f.trees@[x],
                    forall|x: int|
                        0 <= x < t ==> {
                            &&& (#[trigger] self.f.trees@[x]).points() =~= (if pick_of(
                                old(self).picker_for(x),
                                item.0,
                            ) {
                                old(self).f.trees@[x].points().remove(
                                    old(self).f.trees@[x].shifted(item.1@),
                                )
                            } else {
                                old(self).f.trees@[x].points()
                            })
                            &&& self.f.trees@[x].same_shape(&old(self).f.trees@[x])
                        },
                decreases n - t,
            {
                if self.pickers[t].picks(item.0 as u64) {
                    let forest = &mut self.f;
                    forest.remove_tree(t, &item.1);
                }
                t += 1;
            }
        }
    }

    /// Inserts an arriving point into the trees whose picker accepted its
    /// index.
    fn handle_new(&mut self, idx: usize, p: &Vec<i64>)
        requires
            old(self).wf(),
            box_contains(old(self).f.bb@, p@),
            old(self).f.can_insert(1),
        ensures
            final(self).wf(),
            final(self).f.bb@ == old(self).f.bb@,
            final(self).f.trees@.len() == old(self).f.trees@.len(),
            final(self).window == old(self).window,
            final(self).pickers == old(self).pickers,
            final(self).next_index == old(self).next_index,
            final(self).split_mode == old(self).split_mode,
            forall|t: int|
                0 <= t < final(self).f.trees@.len() ==> {
                    &&& (#[trigger] final(self).f.trees@[t]).points() =~= (if pick_of(
                        old(self).picker_for(t),
                        idx,
                    ) {
                        old(self).f.trees@[t].points().insert(old(self).f.trees@[t].shifted(p@))
                    } else {
                        old(self).f.trees@[t].points()
                    })
                    &&& final(self).f.trees@[t].same_shape(&old(self).f.trees@[t])
                },
    {
        if !self.split_mode {
            if self.pickers[0].picks(idx as u64) {
                let forest = &mut self.f;
                forest.insert(p);
            }
        } else {
            let n = self.f.n_trees();
            let mut t: usize = 0;
            while t < n
                invariant
                    self.wf(),
                    box_contains(old(self).f.bb@, p@),
                    self.split_mode == old(self).split_mode,
                    self.split_mode,
                    self.pickers == old(self).pickers,
                    self.window == old(self).window,
                    self.next_index == old(self).next_index,
                    self.f.bb@ == old(self).f.bb@,
                    n == self.f.trees@.len(),
                    n == old(self).f.trees@.len(),
                    0 <= t <= n,
                    forall|x: int|
                        t <= x < n ==> #[trigger] self.f.trees@[x] == old(self).f.trees@[x],
                    forall|x: int|
                        0 <= x < t ==> {
                            &&& (#[trigger] self.f.trees@[x]).points() =~= (if pick_of(
                                old(self).picker_for(x),
                                idx,
                            ) {
                                old(self).f.trees@[x].points().insert(
                                    old(self).f.trees@[x].shifted(p@),
                                )
                            } else {
                                old(self).f.trees@[x].points()
                            })
                            &&& self.f.trees@[x].same_shape(&old(self).f.trees@[x])
                        },
                    old(self).f.can_insert(1),
                decreases n - t,
            {
                if self.pickers[t].picks(idx as u64) {
                    let forest = &mut self.f;
                    forest.insert_tree(t, p);
                }
                t += 1;
            }
        }
    }

    /// Feeds one point.  While the window fills, the point is buffered and
    /// (if picked) inserted, with no score.  Once the window is full, the
    /// point is scored first, then the oldest buffered point is evicted
    /// and the arrival takes its place, each under its picker.
    #[verifier::rlimit(100)]
    pub fn push(&mut self, p: &Vec<i64>) -> (r: Option<ForestScore>)
        requires
            old(self).wf(),
            box_contains(old(self).f.bb@, p@),
            old(self).f.can_insert(1),
            old(self).next_index < usize::MAX,
        ensures
            final(self).wf(),
            final(self).next_index == old(self).next_index + 1,
            final(self).f.trees@.len() == old(self).f.trees@.len(),
            old(self).window.buf@.len() < old(self).window.w ==> r is None,
            old(self).window.buf@.len() == old(self).window.w ==> r is Some
                && r->Some_0.per_tree@ == old(self).f.spec_scores(p@),
            forall|t: int|
                0 <= t < final(self).f.trees@.len() ==> (#[trigger] final(self).f.trees@[t]).points()
                    =~= window_step_ms(
                    old(self).f.trees@[t].points(),
                    old(self).f.trees@[t].shift@,
                    old(self).picker_for(t),
                    (if old(self).window.buf@.len() == old(self).window.w {
                        Option::Some(
                            (old(self).window.buf@[0].0, (old(self).window.buf@[0].1)@),
                        )
                    } else {
                        Option::None
                    }),
                    old(self).next_index,
                    p@,
                ),
    {
        let idx = self.next_index;
        self.next_index = idx + 1;
        let item = (idx, crate::copy_coords(p));
        let ghost was_full = self.window.buf@.len() == self.window.w;
        let win = &mut self.window;
        let upd = win.push(item);
        match upd {
            WindowUpdate::Insert => {
                let ghost mid = *self;
                self.handle_new(idx, p);
                proof {
                    assert forall|t: int|
                        0 <= t < self.f.trees@.len() implies (#[trigger] self.f.trees@[t]).points()
                        =~= window_step_ms(
                        old(self).f.trees@[t].points(),
                        old(self).f.trees@[t].shift@,
                        old(self).picker_for(t),
                        Option::None,
                        idx,
                        p@,
                    ) by {
                        assert(mid.f.trees@[t] == old(self).f.trees@[t]);
                        assert(self.f.trees@[t].points() =~= (if pick_of(mid.picker_for(t), idx) {
                            mid.f.trees@[t].points().insert(mid.f.trees@[t].shifted(p@))
                        } else {
                            mid.f.trees@[t].points()
                        }));
                        assert(mid.picker_for(t) == old(self).picker_for(t));
                    }
                }
                Option::None
            },
            WindowUpdate::Replace(old_item) => {
                let s = self.f.score(p);
                proof {
                    assert(was_full);
                    assert(old_item == old(self).window.buf@[0]);
                }
                self.handle_old(&old_item);
                let ghost mid = *self;
                proof {
                    assert forall|t: int|
                        0 <= t < self.f.trees@.len() implies (#[trigger] self.f.trees@[t]).points().len()
                        + 1 <= usize::MAX by {
                        crate::tree::lemma_remove_len(
                            old(self).f.trees@[t].points(),
                            old(self).f.trees@[t].shifted(old_item.1@),
                        );
                        assert(old(self).f.trees@[t].points().len() + 1 <= usize::MAX);
                    }
                    assert(self.f.can_insert(1));
                }
                self.handle_new(idx, p);
                proof {
                    let ghost ev = Option::Some(
                        (old(self).window.buf@[0].0, (old(self).window.buf@[0].1)@),
                    );
                    assert forall|t: int|
                        0 <= t < self.f.trees@.len() implies (#[trigger] self.f.trees@[t]).points()
                        =~= window_step_ms(
                        old(self).f.trees@[t].points(),
                        old(self).f.trees@[t].shift@,
                        old(self).picker_for(t),
                        ev,
                        idx,
                        p@,
                    ) by {
                        assert(mid.f.trees@[t].points() =~= (if pick_of(
                            old(self).picker_for(t),
                            old_item.0,
                        ) {
                            old(self).f.trees@[t].points().remove(
                                old(self).f.trees@[t].shifted(old_item.1@),
                            )
                        } else {
                            old(self).f.trees@[t].points()
                        }));
                        assert(mid.f.trees@[t].same_shape(&old(self).f.trees@[t]));
                        assert(self.f.trees@[t].points() =~= (if pick_of(mid.picker_for(t), idx) {
                            mid.f.trees@[t].points().insert(mid.f.trees@[t].shifted(p@))
                        } else {
                            mid.f.trees@[t].points()
                        }));
                        assert(mid.picker_for(t) == old(self).picker_for(t));
                        assert(mid.f.trees@[t].shifted(p@) == old(self).f.trees@[t].shifted(p@));
                    }
                }
                Option::Some(s)
            },
        }
    }
}

} // verus!
