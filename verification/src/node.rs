//! Tree nodes: a bounding box, a depth level, a point list, and either no
//! children (a leaf) or exactly two (an internal node split at the box
//! midpoint along the dimension scheduled for its level).
//!
//! The model of a subtree is the multiset of all coordinate vectors held in
//! its leaves.  The structural invariant ties children to the parent's box
//! halves and keeps every point of the right subtree strictly above the
//! split value, so that descent by comparison finds the one leaf that can
//! hold a coordinate vector.
use vstd::prelude::*;
use vstd::multiset::Multiset;

use crate::bounding_box::BoundingBox;
use crate::bounding_box::box_contains;
use crate::bounding_box::box_left;
use crate::bounding_box::box_mid;
use crate::bounding_box::box_right;
use crate::bounding_box::lemma_box_split;
use crate::point_list::PointList;
use crate::point_list::Point;
use crate::point_list::entries_ms;
use crate::point_list::entry_count;
use crate::point_list::total_weight;
use crate::point_list::lemma_entries_ms_concat;
use crate::point_list::lemma_entries_ms_contains;
use crate::point_list::lemma_entries_ms_len;
use crate::point_list::lemma_entry_count_exists;

verus! {

broadcast use vstd::multiset::group_multiset_axioms;

/// The split schedule is one dimension index per level, each naming a real
/// dimension.
pub open spec fn splits_ok(splits: Seq<usize>, max_depth: int, d: int) -> bool {
    &&& splits.len() == max_depth
    &&& forall|i: int| 0 <= i < splits.len() ==> (#[trigger] splits[i]) < d
}

/// The two children of an internal node.
pub struct NodePair {
    pub left: Node,
    pub right: Node,
}

/// A tree node; `children` is `None` exactly on leaves.
pub struct Node {
    pub bb: BoundingBox,
    pub level: usize,
    pub points: PointList,
    pub children: Option<Box<NodePair>>,
}

impl Node {
    /// The multiset of coordinate vectors held in this subtree.
    pub open spec fn node_ms(self) -> Multiset<Seq<i64>>
        decreases self,
    {
        match self.children {
            Option::None => self.points@,
            Option::Some(b) => self.points@.add(b.left.node_ms()).add(b.right.node_ms()),
        }
    }

    /// Height of the subtree: zero on a leaf.
    pub open spec fn height(self) -> nat
        decreases self,
    {
        match self.children {
            Option::None => 0,
            Option::Some(b) => 1 + (if b.left.height() >= b.right.height() {
                b.left.height()
            } else {
                b.right.height()
            }),
        }
    }

    /// Entries held over all nodes of the subtree.
    pub open spec fn entry_total(self) -> nat
        decreases self,
    {
        match self.children {
            Option::None => self.points.entries@.len(),
            Option::Some(b) => self.points.entries@.len() + b.left.entry_total()
                + b.right.entry_total(),
        }
    }

    /// Every node of the subtree holds at most `k` entries.
    pub open spec fn sketched(self, k: int) -> bool
        decreases self,
    {
        match self.children {
            Option::None => self.points.entries@.len() <= k,
            Option::Some(b) => self.points.entries@.len() <= k && b.left.sketched(k)
                && b.right.sketched(k),
        }
    }

    /// Structural invariant of a subtree, for a given split schedule, depth
    /// limit and dimension.
    pub open spec fn wf(self, splits: Seq<usize>, max_depth: int, d: int) -> bool
        decreases self,
    {
        &&& self.bb.wf()
        &&& self.bb@.len() == d
        &&& 0 <= self.level <= max_depth
        &&& self.points.wf()
        &&& self.points.dims_are(d)
        &&& forall|c: Seq<i64>| self.points@.contains(c) ==> box_contains(self.bb@, c)
        &&& self.node_ms().len() <= usize::MAX
        &&& match self.children {
            Option::None => true,
            Option::Some(b) => {
                &&& self.level < max_depth
                &&& self.points.entries@.len() == 0
                &&& b.left.level == self.level + 1
                &&& b.right.level == self.level + 1
                &&& b.left.bb@ == box_left(self.bb@, splits[self.level as int] as int)
                &&& b.right.bb@ == box_right(self.bb@, splits[self.level as int] as int)
                &&& forall|c: Seq<i64>|
                    b.right.node_ms().contains(c) ==> c[splits[self.level as int] as int]
                        > box_mid(self.bb@, splits[self.level as int] as int)
                &&& b.left.wf(splits, max_depth, d)
                &&& b.right.wf(splits, max_depth, d)
            },
        }
    }

    /// A fresh leaf over a box.
    pub fn leaf(bb: BoundingBox, level: usize) -> (r: Self)
        ensures
            r.bb == bb,
            r.level == level,
            r.children is None,
            r.points.entries@.len() == 0,
            r.node_ms() =~= Multiset::empty(),
    {
        let r = Node { bb, level, points: PointList::new(), children: Option::None };
        r
    }

    /// Everything a subtree holds lies inside its box.
    pub proof fn lemma_in_box(self, splits: Seq<usize>, max_depth: int, d: int)
        requires
            self.wf(splits, max_depth, d),
            splits_ok(splits, max_depth, d),
        ensures
            forall|c: Seq<i64>| #[trigger] self.node_ms().contains(c) ==> box_contains(self.bb@, c),
        decreases self,
    {
        match self.children {
            Option::None => {},
            Option::Some(b) => {
                let dim = splits[self.level as int] as int;
                b.left.lemma_in_box(splits, max_depth, d);
                b.right.lemma_in_box(splits, max_depth, d);
                lemma_box_split(self.bb@, dim);
                assert forall|c: Seq<i64>| #[trigger]
                    self.node_ms().contains(c) implies box_contains(self.bb@, c) by {
                    if self.points@.contains(c) {
                    } else if b.left.node_ms().contains(c) {
                        assert(box_contains(b.left.bb@, c));
                    } else {
                        assert(b.right.node_ms().contains(c));
                        assert(box_contains(b.right.bb@, c));
                    }
                }
            },
        }
    }

    /// Splits a leaf: the box is halved along the level's scheduled
    /// dimension and the points are partitioned between two fresh leaf
    /// children; the midpoint goes left.
    pub fn split(&mut self, splits: &Vec<usize>, max_depth: usize)
        requires
            old(self).wf(splits@, max_depth as int, old(self).bb@.len() as int),
            splits_ok(splits@, max_depth as int, old(self).bb@.len() as int),
            old(self).children is None,
            old(self).level < max_depth,
        ensures
            final(self).wf(splits@, max_depth as int, old(self).bb@.len() as int),
            final(self).node_ms() =~= old(self).node_ms(),
            final(self).bb == old(self).bb,
            final(self).level == old(self).level,
            final(self).children is Some,
    {
        let ghost d = self.bb@.len() as int;
        let dim: usize = splits[self.level];
        let (left_bb, right_bb) = self.bb.split_at(dim);
        proof {
            lemma_box_split(self.bb@, dim as int);
        }
        let mut pts = PointList::new();
        core::mem::swap(&mut pts, &mut self.points);
        let (in_left, in_right) = pts.partition_at(&left_bb, dim);
        proof {
            assert forall|c: Seq<i64>| #[trigger]
                in_left@.contains(c) implies box_contains(left_bb@, c) && c[dim as int] <= box_mid(
                self.bb@,
                dim as int,
            ) by {
                assert(old(self).points@.contains(c));
                assert(box_contains(self.bb@, c));
            }
            assert forall|c: Seq<i64>| #[trigger]
                in_right@.contains(c) implies box_contains(right_bb@, c) && c[dim as int] > box_mid(
                self.bb@,
                dim as int,
            ) by {
                assert(old(self).points@.contains(c));
                assert(box_contains(self.bb@, c));
                assert(!(left_bb@[dim as int].0 <= c[dim as int] <= left_bb@[dim as int].1));
            }
        }
        let ghost in_left_ms = in_left@;
        let ghost in_right_ms = in_right@;
        let lvl: usize = self.level;
        let left = Node {
            bb: left_bb,
            level: lvl + 1,
            points: in_left,
            children: Option::None,
        };
        let right = Node {
            bb: right_bb,
            level: lvl + 1,
            points: in_right,
            children: Option::None,
        };
        self.children = Option::Some(Box::new(NodePair { left, right }));
        proof {
            let np = self.children->Some_0;
            assert(np.left.node_ms() == in_left_ms);
            assert(np.right.node_ms() == in_right_ms);
            assert(self.node_ms() == self.points@.add(np.left.node_ms()).add(np.right.node_ms()));
            assert(self.points.entries@.len() == 0);
            assert(self.points@ =~= Multiset::<Seq<i64>>::empty());
            assert(old(self).node_ms() == old(self).points@);
            assert(in_left_ms.add(in_right_ms) =~= old(self).points@);
            assert(self.node_ms() =~= old(self).node_ms());
            assert(np.left.node_ms().len() + np.right.node_ms().len() == old(
                self,
            ).node_ms().len());
            assert(np.left.wf(splits@, max_depth as int, d)) by {
                assert(np.left.points.dims_are(d));
            }
            assert(np.right.wf(splits@, max_depth as int, d)) by {
                assert(np.right.points.dims_are(d));
            }
            assert(self.wf(splits@, max_depth as int, d));
        }
    }

    /// Inserts an already-shifted coordinate vector: descend to the leaf
    /// whose box half matches at every level, splitting any full leaf above
    /// the depth limit on the way.
    pub fn insert_shifted(
        &mut self,
        c: Vec<i64>,
        splits: &Vec<usize>,
        max_depth: usize,
        max_points: usize,
    )
        requires
            old(self).wf(splits@, max_depth as int, old(self).bb@.len() as int),
            splits_ok(splits@, max_depth as int, old(self).bb@.len() as int),
            c@.len() == old(self).bb@.len(),
            box_contains(old(self).bb@, c@),
            old(self).node_ms().len() < usize::MAX,
        ensures
            final(self).wf(splits@, max_depth as int, old(self).bb@.len() as int),
            final(self).node_ms() =~= old(self).node_ms().insert(c@),
            final(self).bb == old(self).bb,
            final(self).level == old(self).level,
            final(self).spec_leaf(c@, splits@).points@.count(c@) > 0,
            final(self).spec_leaf(c@, splits@).level == max_depth || total_weight(
                final(self).spec_leaf(c@, splits@).points.entries@,
            ) != max_points + 1,
        decreases max_depth - old(self).level,
    {
        let ghost d = self.bb@.len() as int;
        let ghost cc = c@;
        let mut needs_descent = self.children.is_some();
        if !needs_descent {
            let w = self.points.weight();
            proof {
                lemma_entries_ms_len(self.points.entries@);
            }
            if self.level < max_depth && w == max_points {
                self.split(splits, max_depth);
                needs_descent = true;
            } else {
                self.points.insert(c);
                proof {
                    assert(self.node_ms() =~= old(self).node_ms().insert(c@));
                    assert(self.spec_leaf(cc, splits@) == *self);
                    crate::point_list::lemma_entries_ms_len(self.points.entries@);
                }
                return ;
            }
        }
        let ghost pre = *self;
        let dim: usize = splits[self.level];
        let (lo, hi) = self.bb.bounds[dim];
        let m: i64 = lo + (hi - lo) / 2;
        proof {
            lemma_box_split(self.bb@, dim as int);
        }
        let opt = self.children.take();
        match opt {
            Option::Some(b) => {
                let pair = *b;
                let mut left = pair.left;
                let mut right = pair.right;
                let ghost cc = c@;
                let ghost went_left = c@[dim as int] <= m;
                proof {
                    assert(pre.node_ms() == pre.points@.add(pair.left.node_ms()).add(
                        pair.right.node_ms(),
                    ));
                    assert(pair.left.node_ms().len() <= pre.node_ms().len());
                    assert(pair.right.node_ms().len() <= pre.node_ms().len());
                    assert(m == box_mid(pre.bb@, dim as int));
                }
                if c[dim] <= m {
                    proof {
                        assert(box_contains(pair.left.bb@, c@));
                    }
                    left.insert_shifted(c, splits, max_depth, max_points);
                } else {
                    proof {
                        assert(box_contains(pair.right.bb@, c@));
                    }
                    right.insert_shifted(c, splits, max_depth, max_points);
                }
                self.children = Option::Some(Box::new(NodePair { left, right }));
                proof {
                    let np = self.children->Some_0;
                    assert(self.node_ms() == self.points@.add(np.left.node_ms()).add(
                        np.right.node_ms(),
                    ));
                    if went_left {
                        assert(np.left.node_ms() =~= pair.left.node_ms().insert(cc));
                        assert(np.right == pair.right);
                    } else {
                        assert(np.right.node_ms() =~= pair.right.node_ms().insert(cc));
                        assert(np.left == pair.left);
                    }
                    assert(self.node_ms() =~= pre.node_ms().insert(cc));
                    assert forall|x: Seq<i64>|
                        np.right.node_ms().contains(x) implies x[dim as int] > box_mid(
                        self.bb@,
                        dim as int,
                    ) by {
                        if !went_left && x == cc {
                        } else {
                            assert(pair.right.node_ms().contains(x));
                        }
                    }
                    assert(self.wf(splits@, max_depth as int, d));
                    assert(pre.node_ms() =~= old(self).node_ms());
                    if went_left {
                        assert(self.spec_leaf(cc, splits@) == np.left.spec_leaf(cc, splits@));
                    } else {
                        assert(self.spec_leaf(cc, splits@) == np.right.spec_leaf(cc, splits@));
                    }
                }
            },
            Option::None => {
                proof {
                    assert(false);
                }
            },
        }
    }

    /// Removes one occurrence of an already-shifted coordinate vector, or
    /// nothing when it is absent; the structure of the tree is unchanged.
    pub fn remove_shifted(&mut self, c: &Vec<i64>, splits: &Vec<usize>, max_depth: usize)
        requires
            old(self).wf(splits@, max_depth as int, old(self).bb@.len() as int),
            splits_ok(splits@, max_depth as int, old(self).bb@.len() as int),
            c@.len() == old(self).bb@.len(),
        ensures
            final(self).wf(splits@, max_depth as int, old(self).bb@.len() as int),
            final(self).node_ms() =~= old(self).node_ms().remove(c@),
            final(self).bb == old(self).bb,
            final(self).level == old(self).level,
            final(self).height() == old(self).height(),
        decreases old(self).height(),
    {
        let ghost d = self.bb@.len() as int;
        if self.children.is_none() {
            self.points.remove(c);
            proof {
                assert(self.node_ms() =~= old(self).node_ms().remove(c@));
            }
            return ;
        }
        let ghost pre = *self;
        let dim: usize = splits[self.level];
        let (lo, hi) = self.bb.bounds[dim];
        let m: i64 = lo + (hi - lo) / 2;
        proof {
            lemma_box_split(self.bb@, dim as int);
        }
        let opt = self.children.take();
        match opt {
            Option::Some(b) => {
                let pair = *b;
                let mut left = pair.left;
                let mut right = pair.right;
                let ghost went_left = c@[dim as int] <= m;
                proof {
                    assert(pre.node_ms() == pre.points@.add(pair.left.node_ms()).add(
                        pair.right.node_ms(),
                    ));
                    assert(pair.left.height() < pre.height());
                    assert(pair.right.height() < pre.height());
                    assert(m == box_mid(pre.bb@, dim as int));
                    pair.left.lemma_in_box(splits@, max_depth as int, d);
                    if went_left {
                        assert(pair.right.node_ms().count(c@) == 0) by {
                            if pair.right.node_ms().count(c@) > 0 {
                                assert(pair.right.node_ms().contains(c@));
                            }
                        }
                    } else {
                        assert(pair.left.node_ms().count(c@) == 0) by {
                            if pair.left.node_ms().count(c@) > 0 {
                                assert(pair.left.node_ms().contains(c@));
                                assert(box_contains(pair.left.bb@, c@));
                            }
                        }
                    }
                }
                if c[dim] <= m {
                    left.remove_shifted(c, splits, max_depth);
                } else {
                    right.remove_shifted(c, splits, max_depth);
                }
                self.children = Option::Some(Box::new(NodePair { left, right }));
                proof {
                    let cc = c@;
                    let np = self.children->Some_0;
                    assert(self.node_ms() == self.points@.add(np.left.node_ms()).add(
                        np.right.node_ms(),
                    ));
                    assert(self.node_ms() =~= pre.node_ms().remove(cc));
                    assert forall|x: Seq<i64>|
                        np.right.node_ms().contains(x) implies x[dim as int] > box_mid(
                        self.bb@,
                        dim as int,
                    ) by {
                        assert(pair.right.node_ms().contains(x));
                    }
                    assert(self.node_ms().len() <= pre.node_ms().len()) by {
                        if pre.node_ms().count(cc) > 0 {
                            assert(Multiset::singleton(cc).subset_of(pre.node_ms())) by {
                                assert(forall|v: Seq<i64>|
                                    Multiset::singleton(cc).count(v) <= pre.node_ms().count(v));
                            }
                            assert(pre.node_ms().sub(Multiset::singleton(cc)).len()
                                == pre.node_ms().len() - 1);
                        } else {
                            assert(self.node_ms() =~= pre.node_ms());
                        }
                    }
                    assert(np.left.wf(splits@, max_depth as int, d));
                    assert(np.right.wf(splits@, max_depth as int, d));
                    assert(self.wf(splits@, max_depth as int, d));
                    assert(pre.node_ms() =~= old(self).node_ms());
                }
            },
            Option::None => {
                proof {
                    assert(false);
                }
            },
        }
    }

    /// The collapse guard of contraction: an internal node may fold its
    /// children into itself exactly when both are leaves and their combined
    /// weight is at most `max_points`.
    pub open spec fn can_merge(self, max_points: int) -> bool {
        match self.children {
            Option::None => false,
            Option::Some(b) => {
                &&& b.left.children is None
                &&& b.right.children is None
                &&& total_weight(b.left.points.entries@) + total_weight(b.right.points.entries@)
                    <= max_points
            },
        }
    }

    /// Whether this node would collapse its children right now.
    pub fn can_contract(&self, max_points: usize) -> (r: bool)
        requires
            match self.children {
                Option::None => true,
                Option::Some(b) => total_weight(b.left.points.entries@) <= usize::MAX
                    && total_weight(b.right.points.entries@) <= usize::MAX,
            },
        ensures
            r == self.can_merge(max_points as int),
    {
        match &self.children {
            Option::None => false,
            Option::Some(b) => {
                if b.left.children.is_some() || b.right.children.is_some() {
                    false
                } else {
                    let wl = b.left.points.weight();
                    let wr = b.right.points.weight();
                    wl <= max_points && wr <= max_points - wl
                }
            },
        }
    }

    /// No node along the descent path of `c` can still collapse: every
    /// internal node on that path fails the merge guard.
    pub open spec fn contracted_along(
        self,
        c: Seq<i64>,
        splits: Seq<usize>,
        max_points: int,
    ) -> bool
        decreases self,
    {
        match self.children {
            Option::None => true,
            Option::Some(b) => {
                &&& !self.can_merge(max_points)
                &&& (if c[splits[self.level as int] as int] <= box_mid(
                    self.bb@,
                    splits[self.level as int] as int,
                ) {
                    b.left.contracted_along(c, splits, max_points)
                } else {
                    b.right.contracted_along(c, splits, max_points)
                })
            },
        }
    }

    /// Walks down along the path a coordinate vector takes and collapses, on
    /// the way back up, every internal node whose children are both leaves
    /// with a combined weight at most `max_points`.  The held points are
    /// unchanged, the height never grows, and afterwards no node on the
    /// path can still collapse.
    pub fn contract_at(
        &mut self,
        c: &Vec<i64>,
        splits: &Vec<usize>,
        max_depth: usize,
        max_points: usize,
    )
        requires
            old(self).wf(splits@, max_depth as int, old(self).bb@.len() as int),
            splits_ok(splits@, max_depth as int, old(self).bb@.len() as int),
            c@.len() == old(self).bb@.len(),
        ensures
            final(self).wf(splits@, max_depth as int, old(self).bb@.len() as int),
            final(self).node_ms() =~= old(self).node_ms(),
            final(self).height() <= old(self).height(),
            final(self).bb == old(self).bb,
            final(self).level == old(self).level,
            final(self).contracted_along(c@, splits@, max_points as int),
        decreases old(self).height(),
    {
        let ghost d = self.bb@.len() as int;
        if self.children.is_none() {
            return ;
        }
        let ghost pre = *self;
        let dim: usize = splits[self.level];
        let (lo, hi) = self.bb.bounds[dim];
        let m: i64 = lo + (hi - lo) / 2;
        proof {
            lemma_box_split(self.bb@, dim as int);
        }
        let opt = self.children.take();
        match opt {
            Option::Some(b) => {
                let pair = *b;
                let mut left = pair.left;
                let mut right = pair.right;
                proof {
                    assert(pre.node_ms() == pre.points@.add(pair.left.node_ms()).add(
                        pair.right.node_ms(),
                    ));
                    assert(pair.left.height() < pre.height());
                    assert(pair.right.height() < pre.height());
                    assert(m == box_mid(pre.bb@, dim as int));
                }
                if c[dim] <= m {
                    left.contract_at(c, splits, max_depth, max_points);
                } else {
                    right.contract_at(c, splits, max_depth, max_points);
                }
                proof {
                    assert(left.wf(splits@, max_depth as int, d));
                    assert(right.wf(splits@, max_depth as int, d));
                    assert(left.points.wf());
                    assert(right.points.wf());
                }
                let mut do_merge = false;
                if left.children.is_none() && right.children.is_none() {
                    let wl = left.points.weight();
                    let wr = right.points.weight();
                    if wl <= max_points && wr <= max_points - wl {
                        do_merge = true;
                    }
                }
                if do_merge {
                    proof {
                        lemma_entries_ms_len(left.points.entries@);
                        lemma_entries_ms_len(right.points.entries@);
                        lemma_entries_ms_concat(left.points.entries@, right.points.entries@);
                        left.lemma_in_box(splits@, max_depth as int, d);
                        assert(left.node_ms() == left.points@);
                        assert(right.node_ms() == right.points@);
                        assert forall|x: Seq<i64>| #[trigger]
                            entry_count(left.points.entries@ + right.points.entries@, x)
                            <= 1 by {
                            assert(entry_count(left.points.entries@ + right.points.entries@, x)
                                == entry_count(left.points.entries@, x) + entry_count(
                                right.points.entries@,
                                x,
                            ));
                            if entry_count(left.points.entries@, x) > 0 && entry_count(
                                right.points.entries@,
                                x,
                            ) > 0 {
                                lemma_entries_ms_contains(left.points.entries@, x);
                                lemma_entry_count_exists(left.points.entries@, x);
                                lemma_entries_ms_contains(right.points.entries@, x);
                                lemma_entry_count_exists(right.points.entries@, x);
                                assert(left.points@.contains(x));
                                assert(right.points@.contains(x));
                                assert(box_contains(left.bb@, x));
                                assert(x[dim as int] <= box_mid(pre.bb@, dim as int));
                                assert(pair.right.node_ms().contains(x));
                            }
                        }
                    }
                    let mut entries = left.points.entries;
                    let mut rentries = right.points.entries;
                    entries.append(&mut rentries);
                    self.points = PointList { entries };
                    proof {
                        assert(self.children is None);
                        assert(self.node_ms() == self.points@);
                        assert(self.node_ms() =~= pre.node_ms());
                        assert forall|x: Seq<i64>| self.points@.contains(x) implies box_contains(
                            self.bb@,
                            x,
                        ) by {
                            assert(self.points@.count(x) > 0);
                            if left.points@.contains(x) {
                                assert(box_contains(left.bb@, x));
                            } else {
                                assert(right.points@.contains(x));
                                assert(pair.right.node_ms().contains(x));
                                assert(x[dim as int] > box_mid(pre.bb@, dim as int));
                                assert(box_contains(right.bb@, x)) by {
                                    right.lemma_in_box(splits@, max_depth as int, d);
                                }
                            }
                        }
                        assert(self.wf(splits@, max_depth as int, d));
                    }
                } else {
                    self.children = Option::Some(Box::new(NodePair { left, right }));
                    proof {
                        let np = self.children->Some_0;
                        assert(self.node_ms() == self.points@.add(np.left.node_ms()).add(
                            np.right.node_ms(),
                        ));
                        assert(self.node_ms() =~= pre.node_ms());
                        assert forall|x: Seq<i64>|
                            np.right.node_ms().contains(x) implies x[dim as int] > box_mid(
                            self.bb@,
                            dim as int,
                        ) by {
                            assert(pair.right.node_ms().contains(x));
                        }
                        assert(self.wf(splits@, max_depth as int, d));
                        assert(!self.can_merge(max_points as int));
                        assert(self.contracted_along(c@, splits@, max_points as int));
                    }
                }
            },
            Option::None => {
                proof {
                    assert(false);
                }
            },
        }
    }

    /// The leaf reached by descending with `c`: left when the coordinate is
    /// at most the midpoint of the scheduled dimension, right otherwise.
    pub open spec fn spec_leaf(self, c: Seq<i64>, splits: Seq<usize>) -> Node
        decreases self,
    {
        match self.children {
            Option::None => self,
            Option::Some(b) => {
                if c[splits[self.level as int] as int] <= box_mid(
                    self.bb@,
                    splits[self.level as int] as int,
                ) {
                    b.left.spec_leaf(c, splits)
                } else {
                    b.right.spec_leaf(c, splits)
                }
            },
        }
    }

    /// Level and total weight of the leaf that `c` descends to.
    pub fn find_leaf(&self, c: &Vec<i64>, splits: &Vec<usize>, max_depth: usize) -> (r: (
        usize,
        usize,
    ))
        requires
            self.wf(splits@, max_depth as int, self.bb@.len() as int),
            splits_ok(splits@, max_depth as int, self.bb@.len() as int),
            c@.len() == self.bb@.len(),
        ensures
            r.0 == self.spec_leaf(c@, splits@).level,
            r.1 == total_weight(self.spec_leaf(c@, splits@).points.entries@),
        decreases self.height(),
    {
        match &self.children {
            Option::None => {
                let w = self.points.weight();
                (self.level, w)
            },
            Option::Some(b) => {
                let dim: usize = splits[self.level];
                let (lo, hi) = self.bb.bounds[dim];
                let m: i64 = lo + (hi - lo) / 2;
                if c[dim] <= m {
                    b.left.find_leaf(c, splits, max_depth)
                } else {
                    b.right.find_leaf(c, splits, max_depth)
                }
            },
        }
    }

    /// Applies the point-list sketch to every node of the subtree: total
    /// weight is preserved, no new coordinates appear, and afterwards no
    /// node holds more than `k` entries.
    pub fn sketch_all(&mut self, k: usize, splits: &Vec<usize>, max_depth: usize)
        requires
            old(self).wf(splits@, max_depth as int, old(self).bb@.len() as int),
            splits_ok(splits@, max_depth as int, old(self).bb@.len() as int),
            k >= 1,
        ensures
            final(self).wf(splits@, max_depth as int, old(self).bb@.len() as int),
            final(self).node_ms().len() == old(self).node_ms().len(),
            forall|c: Seq<i64>| #[trigger]
                final(self).node_ms().contains(c) ==> old(self).node_ms().contains(c),
            final(self).sketched(k as int),
            final(self).bb == old(self).bb,
            final(self).level == old(self).level,
        decreases old(self).height(),
    {
        let ghost d = self.bb@.len() as int;
        self.points.sketch(k);
        if self.children.is_none() {
            proof {
                assert(self.node_ms() == self.points@);
                assert(old(self).node_ms() == old(self).points@);
            }
            return ;
        }
        let ghost pre = *self;
        let dim: usize = splits[self.level];
        proof {
            lemma_box_split(self.bb@, dim as int);
            assert(pre.points@ =~= old(self).points@);
        }
        let opt = self.children.take();
        match opt {
            Option::Some(b) => {
                let pair = *b;
                let mut left = pair.left;
                let mut right = pair.right;
                proof {
                    assert(pre.node_ms() == pre.points@.add(pair.left.node_ms()).add(
                        pair.right.node_ms(),
                    ));
                    assert(pair.left.height() < pre.height());
                    assert(pair.right.height() < pre.height());
                }
                left.sketch_all(k, splits, max_depth);
                right.sketch_all(k, splits, max_depth);
                self.children = Option::Some(Box::new(NodePair { left, right }));
                proof {
                    let np = self.children->Some_0;
                    assert(self.node_ms() == self.points@.add(np.left.node_ms()).add(
                        np.right.node_ms(),
                    ));
                    assert(self.node_ms().len() == pre.node_ms().len());
                    assert forall|x: Seq<i64>| #[trigger]
                        self.node_ms().contains(x) implies old(self).node_ms().contains(x) by {
                        if self.points@.contains(x) {
                        } else if np.left.node_ms().contains(x) {
                            assert(pair.left.node_ms().contains(x));
                        } else {
                            assert(np.right.node_ms().contains(x));
                            assert(pair.right.node_ms().contains(x));
                        }
                    }
                    assert forall|x: Seq<i64>|
                        np.right.node_ms().contains(x) implies x[dim as int] > box_mid(
                        self.bb@,
                        dim as int,
                    ) by {
                        assert(pair.right.node_ms().contains(x));
                    }
                    assert(self.wf(splits@, max_depth as int, d));
                }
            },
            Option::None => {
                proof {
                    assert(false);
                }
            },
        }
    }

    /// Appends a copy of every entry held in the subtree to `out`.
    pub fn collect_into(&self, out: &mut Vec<Point>)
        ensures
            entries_ms(final(out)@) =~= entries_ms(old(out)@).add(self.node_ms()),
            final(out)@.len() >= old(out)@.len(),
            forall|j: int| 0 <= j < old(out)@.len() ==> #[trigger] final(out)@[j] == old(out)@[j],
            forall|j: int|
                old(out)@.len() <= j < final(out)@.len() ==> self.node_ms().contains(
                    (#[trigger] final(out)@[j]).coords@,
                ) || (#[trigger] final(out)@[j]).weight == 0,
        decreases self.height(),
    {
        let ghost start = out@;
        let ghost pts = self.points.entries@;
        let mut i: usize = 0;
        proof {
            assert(pts.take(0) =~= Seq::<Point>::empty());
        }
        while i < self.points.entries.len()
            invariant
                pts == self.points.entries@,
                0 <= i <= pts.len(),
                out@.len() == start.len() + i,
                entries_ms(out@) =~= entries_ms(start).add(entries_ms(pts.take(i as int))),
                forall|j: int| 0 <= j < start.len() ==> #[trigger] out@[j] == start[j],
                forall|j: int|
                    start.len() <= j < out@.len() ==> self.points@.contains(
                        (#[trigger] out@[j]).coords@,
                    ) || (#[trigger] out@[j]).weight == 0,
            decreases pts.len() - i,
        {
            let e = &self.points.entries[i];
            let p = Point { coords: crate::copy_coords(&e.coords), weight: e.weight };
            let ghost outpre = out@;
            proof {
                crate::point_list::lemma_entries_ms_push(outpre, p);
                crate::point_list::lemma_entries_ms_take(pts, i as int);
                crate::point_list::lemma_pt_ms(p);
                crate::point_list::lemma_pt_ms(pts[i as int]);
                if p.weight > 0 {
                    crate::point_list::lemma_entries_ms_contains(pts, p.coords@);
                    assert(pts[i as int].coords@ == p.coords@ && pts[i as int].weight > 0);
                }
            }
            out.push(p);
            i += 1;
        }
        proof {
            assert(pts.take(pts.len() as int) =~= pts);
        }
        match &self.children {
            Option::None => {
                proof {
                    assert(self.node_ms() == self.points@);
                }
            },
            Option::Some(b) => {
                let ghost mid1 = out@;
                b.left.collect_into(out);
                let ghost mid2 = out@;
                b.right.collect_into(out);
                proof {
                    assert(self.node_ms() == self.points@.add(b.left.node_ms()).add(
                        b.right.node_ms(),
                    ));
                    assert(entries_ms(out@) =~= entries_ms(start).add(self.node_ms()));
                    assert forall|j: int|
                        start.len() <= j < out@.len() implies self.node_ms().contains(
                        (#[trigger] out@[j]).coords@,
                    ) || (#[trigger] out@[j]).weight == 0 by {
                        if j < mid1.len() {
                            assert(out@[j] == mid1[j]);
                            if out@[j].weight != 0 {
                                assert(self.points@.contains(out@[j].coords@));
                            }
                        } else if j < mid2.len() {
                            assert(out@[j] == mid2[j]);
                            if out@[j].weight != 0 {
                                assert(b.left.node_ms().contains(out@[j].coords@));
                            }
                        } else {
                            if out@[j].weight != 0 {
                                assert(b.right.node_ms().contains(out@[j].coords@));
                            }
                        }
                    }
                }
            },
        }
    }

    /// Total weight held in the subtree: the length of its model.
    pub fn weight_sum(&self, splits: &Vec<usize>, max_depth: usize) -> (r: usize)
        requires
            self.wf(splits@, max_depth as int, self.bb@.len() as int),
        ensures
            r == self.node_ms().len(),
        decreases self.height(),
    {
        match &self.children {
            Option::None => {
                proof {
                    lemma_entries_ms_len(self.points.entries@);
                }
                self.points.weight()
            },
            Option::Some(b) => {
                proof {
                    assert(self.node_ms() == self.points@.add(b.left.node_ms()).add(
                        b.right.node_ms(),
                    ));
                    assert(self.points.entries@.len() == 0);
                    assert(self.points@ =~= Multiset::<Seq<i64>>::empty());
                }
                proof {
                    assert(b.left.wf(splits@, max_depth as int, self.bb@.len() as int));
                    assert(b.right.wf(splits@, max_depth as int, self.bb@.len() as int));
                    assert(b.left.bb@.len() == self.bb@.len());
                    assert(b.right.bb@.len() == self.bb@.len());
                }
                let a = b.left.weight_sum(splits, max_depth);
                let c = b.right.weight_sum(splits, max_depth);
                a + c
            },
        }
    }

    /// Number of entries held over all nodes of the subtree.
    pub fn entry_sum(&self, splits: &Vec<usize>, max_depth: usize) -> (r: usize)
        requires
            self.wf(splits@, max_depth as int, self.bb@.len() as int),
        ensures
            r == self.entry_total(),
        decreases self.height(),
    {
        proof {
            self.lemma_entry_total_le(splits@, max_depth as int, self.bb@.len() as int);
        }
        match &self.children {
            Option::None => self.points.n_points(),
            Option::Some(b) => {
                proof {
                    assert(b.left.wf(splits@, max_depth as int, self.bb@.len() as int));
                    assert(b.right.wf(splits@, max_depth as int, self.bb@.len() as int));
                    assert(b.left.bb@.len() == self.bb@.len());
                    assert(b.right.bb@.len() == self.bb@.len());
                    b.left.lemma_entry_total_le(splits@, max_depth as int, self.bb@.len() as int);
                    b.right.lemma_entry_total_le(splits@, max_depth as int, self.bb@.len() as int);
                    assert(self.points.entries@.len() == 0);
                    assert(self.points@ =~= Multiset::<Seq<i64>>::empty());
                }
                let a = b.left.entry_sum(splits, max_depth);
                let c = b.right.entry_sum(splits, max_depth);
                self.points.n_points() + a + c
            },
        }
    }

    /// The leaf a descent reaches stays within the depth limit and is well
    /// formed.
    pub proof fn lemma_spec_leaf_level(self, c: Seq<i64>, splits: Seq<usize>, max_depth: int, d: int)
        requires
            self.wf(splits, max_depth, d),
        ensures
            self.spec_leaf(c, splits).level <= max_depth,
            self.spec_leaf(c, splits).points.wf(),
            self.spec_leaf(c, splits).children is None,
        decreases self,
    {
        match self.children {
            Option::None => {},
            Option::Some(b) => {
                if c[splits[self.level as int] as int] <= box_mid(
                    self.bb@,
                    splits[self.level as int] as int,
                ) {
                    b.left.lemma_spec_leaf_level(c, splits, max_depth, d);
                } else {
                    b.right.lemma_spec_leaf_level(c, splits, max_depth, d);
                }
            },
        }
    }

    /// A subtree holds no more entries than its total weight.
    pub proof fn lemma_entry_total_le(self, splits: Seq<usize>, max_depth: int, d: int)
        requires
            self.wf(splits, max_depth, d),
        ensures
            self.entry_total() <= self.node_ms().len(),
        decreases self,
    {
        crate::point_list::lemma_entries_le_total(self.points.entries@);
        crate::point_list::lemma_entries_ms_len(self.points.entries@);
        match self.children {
            Option::None => {},
            Option::Some(b) => {
                b.left.lemma_entry_total_le(splits, max_depth, d);
                b.right.lemma_entry_total_le(splits, max_depth, d);
            },
        }
    }
}

} // verus!
