//! A single random shift tree.
//!
//! The tree owns a configured base box, a fixed shift vector drawn from the
//! box ranges, a fixed split-dimension schedule, a depth limit and a point
//! limit.  Every coordinate vector it stores is the shifted copy `p + shift`
//! of an input `p` from the base box; the root box doubles the base ranges
//! so that every shifted input stays inside it.
use vstd::prelude::*;
use vstd::multiset::Multiset;

use crate::bounding_box::BoundingBox;
use crate::bounding_box::box_contains;
use crate::bounding_box::box_input_sized;
use crate::bounding_box::box_range;
use crate::bounding_box::box_wf;
use crate::config::Config;
use crate::node::Node;
use crate::node::splits_ok;
use crate::point_list::Point;
use crate::point_list::entries_ms;
use crate::point_list::pt_ms;
use crate::point_list::total_weight;
use crate::point_list::lemma_entries_ms_len;
use crate::point_list::lemma_entries_ms_take;
use crate::point_list::lemma_weight_prefix_bound;

verus! {

broadcast use vstd::multiset::group_multiset_axioms;

/// The integer skeleton of a tree's anomaly score: the depth of the leaf a
/// point lands in, counting the root as one, and the leaf's weight when the
/// tail correction applies (zero otherwise).  The real-valued score is
/// `depth` when `tail_weight` is zero and `depth + c(tail_weight)`
/// otherwise, with `c` the expected search path length of a binary tree.
#[derive(Clone, Copy, Debug, PartialEq, Eq, Structural)]
pub struct TreeScore {
    pub depth: usize,
    pub tail_weight: usize,
}

/// Element-wise sum of two coordinate vectors.
pub open spec fn seq_add(a: Seq<i64>, b: Seq<i64>) -> Seq<i64> {
    Seq::new(a.len(), |i: int| (a[i] + b[i]) as i64)
}

/// Element-wise difference of two coordinate vectors.
pub open spec fn seq_sub(a: Seq<i64>, b: Seq<i64>) -> Seq<i64> {
    Seq::new(a.len(), |i: int| (a[i] - b[i]) as i64)
}

/// `c` lies in the box `b` translated by the shift `s`.
pub open spec fn in_shifted_box(b: Seq<(i64, i64)>, s: Seq<i64>, c: Seq<i64>) -> bool {
    &&& c.len() == b.len()
    &&& forall|i: int|
        0 <= i < b.len() ==> (#[trigger] b[i]).0 + s[i] <= c[i] && c[i] <= b[i].1 + s[i]
}

/// The coordinate views of a batch of rows.
pub open spec fn rows_of(xs: Seq<Vec<i64>>) -> Seq<Seq<i64>> {
    Seq::new(xs.len(), |i: int| xs[i]@)
}

/// The contents of a tree after inserting each row, shifted, in order.
pub open spec fn ms_after_inserts(
    ms: Multiset<Seq<i64>>,
    xs: Seq<Seq<i64>>,
    shift: Seq<i64>,
) -> Multiset<Seq<i64>>
    decreases xs.len(),
{
    if xs.len() == 0 {
        ms
    } else {
        ms_after_inserts(ms, xs.drop_last(), shift).insert(seq_add(xs.last(), shift))
    }
}

/// `x` is the copy of a point of `src` moved from under `src_shift` to
/// under `dst_shift`.
pub open spec fn reshifted_from(
    src: Multiset<Seq<i64>>,
    src_shift: Seq<i64>,
    dst_shift: Seq<i64>,
    x: Seq<i64>,
) -> bool {
    exists|o: Seq<i64>| #[trigger] src.contains(o) && x == seq_add(seq_sub(o, src_shift), dst_shift)
}

/// Moving two distinct points of one shifted box to another shift keeps
/// them distinct: the re-shift map is injective on the box, since all the
/// arithmetic stays in range.
pub proof fn lemma_reshift_injective(
    b: Seq<(i64, i64)>,
    s1: Seq<i64>,
    s2: Seq<i64>,
    o1: Seq<i64>,
    o2: Seq<i64>,
)
    requires
        box_input_sized(b),
        s1.len() == b.len(),
        s2.len() == b.len(),
        forall|i: int| 0 <= i < b.len() ==> 0 <= #[trigger] s1[i] <= box_range(b, i),
        forall|i: int| 0 <= i < b.len() ==> 0 <= #[trigger] s2[i] <= box_range(b, i),
        in_shifted_box(b, s1, o1),
        in_shifted_box(b, s1, o2),
        o1 != o2,
    ensures
        seq_add(seq_sub(o1, s1), s2) != seq_add(seq_sub(o2, s1), s2),
{
    if forall|k: int| 0 <= k < o1.len() ==> o1[k] == o2[k] {
        assert(o1 =~= o2);
    }
    let k = choose|k: int| 0 <= k < o1.len() && o1[k] != o2[k];
    assert(b[k].0 + s1[k] <= o1[k] <= b[k].1 + s1[k]);
    assert(b[k].0 + s1[k] <= o2[k] <= b[k].1 + s1[k]);
    assert(-crate::COORD_LIMIT <= b[k].0 && b[k].1 <= crate::COORD_LIMIT);
    assert(seq_sub(o1, s1)[k] == o1[k] - s1[k]);
    assert(seq_sub(o2, s1)[k] == o2[k] - s1[k]);
    assert(seq_add(seq_sub(o1, s1), s2)[k] == o1[k] - s1[k] + s2[k]);
    assert(seq_add(seq_sub(o2, s1), s2)[k] == o2[k] - s1[k] + s2[k]);
}

/// The inverse of a shift: subtracts it and lands back in the base box.
fn unshift(c: &Vec<i64>, shift: &Vec<i64>, Ghost(b): Ghost<Seq<(i64, i64)>>) -> (u: Vec<i64>)
    requires
        box_wf(b),
        shift@.len() == b.len(),
        forall|i: int| 0 <= i < b.len() ==> 0 <= #[trigger] shift@[i] <= box_range(b, i),
        in_shifted_box(b, shift@, c@),
    ensures
        u@ == seq_sub(c@, shift@),
        box_contains(b, u@),
{
    let mut u: Vec<i64> = Vec::new();
    let mut i: usize = 0;
    while i < c.len()
        invariant
            box_wf(b),
            shift@.len() == b.len(),
            forall|j: int| 0 <= j < b.len() ==> 0 <= #[trigger] shift@[j] <= box_range(b, j),
            in_shifted_box(b, shift@, c@),
            c@.len() == b.len(),
            0 <= i <= c@.len(),
            u@.len() == i,
            forall|j: int| 0 <= j < i ==> #[trigger] u@[j] == c@[j] - shift@[j],
        decreases c@.len() - i,
    {
        proof {
            assert(b[i as int].0 + shift@[i as int] <= c@[i as int] <= b[i as int].1 + shift@[
                i as int
            ]);
        }
        let v: i64 = c[i] - shift[i];
        u.push(v);
        i += 1;
    }
    proof {
        assert(u@ =~= seq_sub(c@, shift@));
        assert forall|j: int|
            0 <= j < b.len() implies (#[trigger] b[j]).0 <= u@[j] && u@[j] <= b[j].1 by {
            assert(b[j].0 + shift@[j] <= c@[j] <= b[j].1 + shift@[j]);
        }
    }
    u
}

/// One bookkeeping step on a tree's contents: an insertion of a shifted
/// coordinate vector, or a removal of one.
pub enum PointOp {
    Added(Seq<i64>),
    Taken(Seq<i64>),
}

/// The contents after one operation, exactly as `insert` and `remove`
/// describe themselves: an insertion always adds one occurrence, a removal
/// drops one occurrence when the point is present and nothing otherwise.
pub open spec fn apply_op(ms: Multiset<Seq<i64>>, op: PointOp) -> Multiset<Seq<i64>> {
    match op {
        PointOp::Added(c) => ms.insert(c),
        PointOp::Taken(c) => ms.remove(c),
    }
}

/// The contents after a whole sequence of operations, applied in order.
pub open spec fn apply_ops(ms: Multiset<Seq<i64>>, ops: Seq<PointOp>) -> Multiset<Seq<i64>>
    decreases ops.len(),
{
    if ops.len() == 0 {
        ms
    } else {
        apply_ops(apply_op(ms, ops[0]), ops.skip(1))
    }
}

/// Number of insertions in a sequence of operations.
pub open spec fn adds_count(ops: Seq<PointOp>) -> nat
    decreases ops.len(),
{
    if ops.len() == 0 {
        0
    } else {
        (if ops[0] is Added {
            1nat
        } else {
            0nat
        }) + adds_count(ops.skip(1))
    }
}

/// Number of removals that found their point, each judged against the
/// contents at its own moment.
pub open spec fn takes_hit(ms: Multiset<Seq<i64>>, ops: Seq<PointOp>) -> nat
    decreases ops.len(),
{
    if ops.len() == 0 {
        0
    } else {
        (match ops[0] {
            PointOp::Added(_) => 0nat,
            PointOp::Taken(c) => if ms.contains(c) {
                1nat
            } else {
                0nat
            },
        }) + takes_hit(apply_op(ms, ops[0]), ops.skip(1))
    }
}

/// After any sequence of insertions and removals, the stored weight is the
/// starting weight plus the insertions minus the removals that found their
/// point.  `insert` and `remove` state exactly one `apply_op` step each, so
/// this holds of any run of tree operations.
pub proof fn lemma_weight_after_ops(ms: Multiset<Seq<i64>>, ops: Seq<PointOp>)
    ensures
        apply_ops(ms, ops).len() + takes_hit(ms, ops) == ms.len() + adds_count(ops),
    decreases ops.len(),
{
    if ops.len() > 0 {
        let ms2 = apply_op(ms, ops[0]);
        match ops[0] {
            PointOp::Added(c) => {
                assert(ms2.len() == ms.len() + 1);
            },
            PointOp::Taken(c) => {
                if ms.count(c) > 0 {
                    assert(Multiset::singleton(c).subset_of(ms)) by {
                        assert(forall|v: Seq<i64>|
                            Multiset::singleton(c).count(v) <= ms.count(v));
                    }
                    assert(ms2.len() == ms.len() - 1);
                } else {
                    assert(ms2 =~= ms);
                }
            },
        }
        lemma_weight_after_ops(ms2, ops.skip(1));
    }
}

/// Removing one occurrence never grows a multiset, and shrinks it by at
/// most one.
pub proof fn lemma_remove_len<T>(m: Multiset<T>, c: T)
    ensures
        m.remove(c).len() <= m.len(),
        m.len() <= m.remove(c).len() + 1,
{
    if m.count(c) > 0 {
        assert(Multiset::singleton(c).subset_of(m)) by {
            assert(forall|v: T| Multiset::singleton(c).count(v) <= m.count(v));
        }
        assert(m.sub(Multiset::singleton(c)).len() == m.len() - 1);
    } else {
        assert(m.remove(c) =~= m);
    }
}

/// A random shift tree.
pub struct RST {
    pub base_bb: BoundingBox,
    pub shift: Vec<i64>,
    pub splits: Vec<usize>,
    pub max_depth: usize,
    pub max_points: usize,
    pub root: Node,
}

impl RST {
    /// Dimension of the space.
    pub open spec fn d(&self) -> int {
        self.base_bb@.len() as int
    }

    /// The multiset of shifted coordinate vectors the tree holds.
    pub open spec fn points(&self) -> Multiset<Seq<i64>> {
        self.root.node_ms()
    }

    /// The shifted copy of an input point.
    pub open spec fn shifted(&self, p: Seq<i64>) -> Seq<i64> {
        seq_add(p, self.shift@)
    }

    /// The tree's configuration fields, unchanged by every operation.
    pub open spec fn same_shape(&self, other: &RST) -> bool {
        &&& self.base_bb@ == other.base_bb@
        &&& self.shift@ == other.shift@
        &&& self.splits@ == other.splits@
        &&& self.max_depth == other.max_depth
        &&& self.max_points == other.max_points
    }

    /// Every scheduled split dimension has room to split: its range in the
    /// base box is nonzero.
    pub open spec fn schedule_live(&self) -> bool {
        forall|i: int|
            0 <= i < self.splits@.len() ==> box_range(
                self.base_bb@,
                (#[trigger] self.splits@[i]) as int,
            ) != 0
    }

    pub open spec fn wf(&self) -> bool {
        &&& box_wf(self.base_bb@)
        &&& box_input_sized(self.base_bb@)
        &&& self.shift@.len() == self.d()
        &&& forall|i: int|
            0 <= i < self.d() ==> 0 <= #[trigger] self.shift@[i] <= box_range(self.base_bb@, i)
        &&& splits_ok(self.splits@, self.max_depth as int, self.d())
        &&& self.max_depth < usize::MAX
        &&& self.root.level == 0
        &&& self.root.wf(self.splits@, self.max_depth as int, self.d())
        &&& self.root.bb@.len() == self.d()
        &&& forall|i: int|
            0 <= i < self.d() ==> (#[trigger] self.root.bb@[i]).0 == self.base_bb@[i].0
                && self.root.bb@[i].1 == self.base_bb@[i].1 + box_range(self.base_bb@, i)
        &&& forall|c: Seq<i64>| #[trigger]
            self.points().contains(c) ==> in_shifted_box(self.base_bb@, self.shift@, c)
    }

    /// Builds an empty tree from explicit parameters; the root box is the
    /// base box with its range doubled.
    pub fn new(
        base_bb: BoundingBox,
        shift: Vec<i64>,
        splits: Vec<usize>,
        max_depth: usize,
        max_points: usize,
    ) -> (r: Self)
        requires
            box_wf(base_bb@),
            box_input_sized(base_bb@),
            shift@.len() == base_bb@.len(),
            forall|i: int|
                0 <= i < shift@.len() ==> 0 <= #[trigger] shift@[i] <= box_range(base_bb@, i),
            splits@.len() == max_depth,
            forall|i: int| 0 <= i < splits@.len() ==> (#[trigger] splits@[i]) < base_bb@.len(),
            max_depth < usize::MAX,
        ensures
            r.wf(),
            r.points() =~= Multiset::empty(),
            r.root.children is None,
            r.base_bb@ == base_bb@,
            r.shift@ == shift@,
            r.splits@ == splits@,
            r.max_depth == max_depth,
            r.max_points == max_points,
    {
        let root_bb = BoundingBox::with_double_range(&base_bb);
        let root = Node::leaf(root_bb, 0);
        let r = RST { base_bb, shift, splits, max_depth, max_points, root };
        proof {
            assert forall|c: Seq<i64>| #[trigger] r.points().contains(c) implies in_shifted_box(
                r.base_bb@,
                r.shift@,
                c,
            ) by {
                assert(r.points().count(c) == 0);
            }
            assert(r.root.points.wf());
            assert(r.root.wf(r.splits@, max_depth as int, r.d()));
        }
        r
    }

    /// Builds an empty tree for slot `tree_i` of a forest: the shift and
    /// the split schedule are drawn from the configured box, the depth
    /// limit is `ceil(log2(n_points))` and the point limit grows with the
    /// slot index.
    pub fn from_config_using(cfg: &Config, tree_i: usize, rng: &mut rand::rngs::StdRng) -> (r: Self)
        requires
            cfg.wf(),
            tree_i < cfg.n_trees,
            cfg.granularity < usize::MAX,
        ensures
            r.wf(),
            r.points() =~= Multiset::empty(),
            r.root.children is None,
            r.schedule_live(),
            r.base_bb@ == cfg.bb@,
            r.max_depth == cfg.spec_max_depth(),
            r.max_points == (tree_i as int) * (cfg.granularity as int) / (cfg.n_trees as int) + 1,
    {
        let max_depth = cfg.max_depth();
        proof {
            let n = cfg.n_points as nat;
            crate::config::lemma_ceil_log2_le(n);
            if n >= 2 {
                crate::config::lemma_ceil_log2_le((n + 1) / 2);
                assert(crate::config::ceil_log2(n) == 1 + crate::config::ceil_log2((n + 1) / 2));
            }
            assert(max_depth < usize::MAX);
        }
        let max_points = cfg.max_points(tree_i);
        let shift = cfg.bb.gen_shift_using(rng);
        let splits = cfg.bb.gen_splits_using(max_depth, rng);
        Self::new(cfg.bb.clone(), shift, splits, max_depth, max_points)
    }

    /// The shifted copy of `p`, which lands inside the root box.
    fn add_shift(&self, p: &Vec<i64>) -> (q: Vec<i64>)
        requires
            self.wf(),
            box_contains(self.base_bb@, p@),
        ensures
            q@ == seq_add(p@, self.shift@),
            box_contains(self.root.bb@, q@),
            in_shifted_box(self.base_bb@, self.shift@, q@),
    {
        let mut q: Vec<i64> = Vec::new();
        let mut i: usize = 0;
        while i < p.len()
            invariant
                self.wf(),
                box_contains(self.base_bb@, p@),
                p@.len() == self.d(),
                0 <= i <= p@.len(),
                q@.len() == i,
                forall|j: int| 0 <= j < i ==> #[trigger] q@[j] == p@[j] + self.shift@[j],
            decreases p@.len() - i,
        {
            proof {
                assert(self.base_bb@[i as int].0 <= p@[i as int] <= self.base_bb@[i as int].1);
                assert(0 <= self.shift@[i as int] <= box_range(self.base_bb@, i as int));
            }
            let v: i64 = p[i] + self.shift[i];
            q.push(v);
            i += 1;
        }
        proof {
            assert(q@ =~= seq_add(p@, self.shift@));
            assert forall|j: int|
                0 <= j < self.root.bb@.len() implies (#[trigger] self.root.bb@[j]).0 <= q@[j] && q@[j]
                <= self.root.bb@[j].1 by {
                assert(self.base_bb@[j].0 <= p@[j] <= self.base_bb@[j].1);
                assert(0 <= self.shift@[j] <= box_range(self.base_bb@, j));
            }
        }
        q
    }

    /// Inserts an input point: its shifted copy joins the tree's contents.
    pub fn insert(&mut self, p: &Vec<i64>)
        requires
            old(self).wf(),
            box_contains(old(self).base_bb@, p@),
            old(self).points().len() < usize::MAX,
        ensures
            final(self).wf(),
            final(self).points() =~= old(self).points().insert(old(self).shifted(p@)),
            final(self).same_shape(old(self)),
            final(self).root.spec_leaf(old(self).shifted(p@), old(self).splits@).points@.count(
                old(self).shifted(p@),
            ) > 0,
            final(self).root.spec_leaf(old(self).shifted(p@), old(self).splits@).level == old(
                self,
            ).max_depth || total_weight(
                final(self).root.spec_leaf(old(self).shifted(p@), old(self).splits@).points.entries@,
            ) != old(self).max_points + 1,
    {
        let q = self.add_shift(p);
        let ghost qq = q@;
        let root = &mut self.root;
        root.insert_shifted(q, &self.splits, self.max_depth, self.max_points);
        proof {
            assert forall|c: Seq<i64>| #[trigger] self.points().contains(c) implies in_shifted_box(
                self.base_bb@,
                self.shift@,
                c,
            ) by {
                if c != qq {
                    assert(old(self).points().contains(c));
                }
            }
        }
    }

    /// Removes one occurrence of an input point's shifted copy, then
    /// contracts along its path; absent points are a silent no-op.
    pub fn remove(&mut self, p: &Vec<i64>)
        requires
            old(self).wf(),
            box_contains(old(self).base_bb@, p@),
        ensures
            final(self).wf(),
            final(self).points() =~= old(self).points().remove(old(self).shifted(p@)),
            final(self).same_shape(old(self)),
            final(self).root.height() <= old(self).root.height(),
            final(self).root.contracted_along(
                old(self).shifted(p@),
                old(self).splits@,
                old(self).max_points as int,
            ),
    {
        let q = self.add_shift(p);
        let ghost qq = q@;
        let root = &mut self.root;
        root.remove_shifted(&q, &self.splits, self.max_depth);
        let root2 = &mut self.root;
        root2.contract_at(&q, &self.splits, self.max_depth, self.max_points);
        proof {
            assert forall|c: Seq<i64>| #[trigger] self.points().contains(c) implies in_shifted_box(
                self.base_bb@,
                self.shift@,
                c,
            ) by {
                assert(self.points().count(c) > 0);
                assert(old(self).points().contains(c));
            }
        }
    }

    /// The tree's score of `p`: the depth of the leaf its shifted copy
    /// lands in, with the tail weight set when the leaf sits at the depth
    /// limit and overflows the point limit.
    pub open spec fn spec_score(&self, p: Seq<i64>) -> TreeScore {
        let leaf = self.root.spec_leaf(seq_add(p, self.shift@), self.splits@);
        let w = total_weight(leaf.points.entries@);
        TreeScore {
            depth: (leaf.level + 1) as usize,
            tail_weight: (if leaf.level == self.max_depth && w > self.max_points {
                w as usize
            } else {
                0
            }),
        }
    }

    pub fn score(&self, p: &Vec<i64>) -> (r: TreeScore)
        requires
            self.wf(),
            box_contains(self.base_bb@, p@),
        ensures
            r == self.spec_score(p@),
            r.depth <= self.max_depth + 1,
            r.depth >= 1,
            r.tail_weight > 0 ==> r.depth == self.max_depth + 1 && r.tail_weight > self.max_points,
    {
        let q = self.add_shift(p);
        proof {
            self.root.lemma_spec_leaf_level(q@, self.splits@, self.max_depth as int, self.d());
        }
        let (lvl, w) = self.root.find_leaf(&q, &self.splits, self.max_depth);
        let depth = lvl + 1;
        let tail: usize = if lvl == self.max_depth && w > self.max_points {
            w
        } else {
            0
        };
        TreeScore { depth, tail_weight: tail }
    }

    /// Number of entries held over all nodes.
    pub fn n_points(&self) -> (r: usize)
        requires
            self.wf(),
        ensures
            r == self.root.entry_total(),
    {
        self.root.entry_sum(&self.splits, self.max_depth)
    }

    /// Total weight held: the number of stored point occurrences.
    pub fn total_weight(&self) -> (r: usize)
        requires
            self.wf(),
        ensures
            r == self.points().len(),
    {
        self.root.weight_sum(&self.splits, self.max_depth)
    }

    /// Inserts every row of a batch, in order.
    pub fn batch_insert(&mut self, xs: &Vec<Vec<i64>>)
        requires
            old(self).wf(),
            forall|i: int|
                0 <= i < xs@.len() ==> box_contains(old(self).base_bb@, (#[trigger] xs@[i])@),
            old(self).points().len() + xs@.len() <= usize::MAX,
        ensures
            final(self).wf(),
            final(self).points() =~= ms_after_inserts(
                old(self).points(),
                rows_of(xs@),
                old(self).shift@,
            ),
            final(self).points().len() == old(self).points().len() + xs@.len(),
            final(self).same_shape(old(self)),
    {
        let mut i: usize = 0;
        proof {
            assert(rows_of(xs@.take(0)) =~= Seq::<Seq<i64>>::empty());
        }
        while i < xs.len()
            invariant
                self.wf(),
                self.same_shape(old(self)),
                forall|j: int|
                    0 <= j < xs@.len() ==> box_contains(old(self).base_bb@, (#[trigger] xs@[j])@),
                old(self).points().len() + xs@.len() <= usize::MAX,
                0 <= i <= xs@.len(),
                self.points() =~= ms_after_inserts(
                    old(self).points(),
                    rows_of(xs@.take(i as int)),
                    old(self).shift@,
                ),
                self.points().len() == old(self).points().len() + i,
            decreases xs@.len() - i,
        {
            self.insert(&xs[i]);
            proof {
                assert(rows_of(xs@.take(i + 1)).drop_last() =~= rows_of(xs@.take(i as int)));
                assert(rows_of(xs@.take(i + 1)).last() == xs@[i as int]@);
                assert(self.points() =~= ms_after_inserts(
                    old(self).points(),
                    rows_of(xs@.take(i + 1)),
                    old(self).shift@,
                ));
            }
            i += 1;
        }
        proof {
            assert(xs@.take(xs@.len() as int) =~= xs@);
        }
    }

    /// Scores every row of a batch, in order: the result at `i` is exactly
    /// the score of row `i`.
    pub fn batch_score(&self, xs: &Vec<Vec<i64>>) -> (r: Vec<TreeScore>)
        requires
            self.wf(),
            forall|i: int| 0 <= i < xs@.len() ==> box_contains(self.base_bb@, (#[trigger] xs@[i])@),
        ensures
            r@.len() == xs@.len(),
            forall|i: int| 0 <= i < r@.len() ==> #[trigger] r@[i] == self.spec_score(xs@[i]@),
    {
        let mut r: Vec<TreeScore> = Vec::new();
        let mut i: usize = 0;
        while i < xs.len()
            invariant
                self.wf(),
                forall|j: int|
                    0 <= j < xs@.len() ==> box_contains(self.base_bb@, (#[trigger] xs@[j])@),
                0 <= i <= xs@.len(),
                r@.len() == i,
                forall|j: int| 0 <= j < i ==> #[trigger] r@[j] == self.spec_score(xs@[j]@),
            decreases xs@.len() - i,
        {
            let s = self.score(&xs[i]);
            r.push(s);
            i += 1;
        }
        r
    }

    /// Merges another tree built over the same base box by re-inserting
    /// each of its stored points, un-shifted by the other tree's shift and
    /// re-shifted by this tree's own: the merged structure is re-randomized
    /// under this tree's schedule.
    pub fn extend(&mut self, other: RST)
        requires
            old(self).wf(),
            other.wf(),
            old(self).base_bb@ == other.base_bb@,
            old(self).points().len() + other.points().len() <= usize::MAX,
        ensures
            final(self).wf(),
            final(self).same_shape(old(self)),
            final(self).points().len() == old(self).points().len() + other.points().len(),
            forall|x: Seq<i64>| #[trigger]
                final(self).points().contains(x) ==> old(self).points().contains(x)
                    || reshifted_from(other.points(), other.shift@, old(self).shift@, x),
            forall|q: Seq<i64>|
                (#[trigger] other.points().count(q)) > 0 ==> final(self).points().count(
                    seq_add(seq_sub(q, other.shift@), old(self).shift@),
                ) == old(self).points().count(seq_add(seq_sub(q, other.shift@), old(self).shift@))
                    + other.points().count(q),
            forall|x: Seq<i64>|
                !reshifted_from(other.points(), other.shift@, old(self).shift@, x) ==> (
                #[trigger] final(self).points().count(x)) == old(self).points().count(x),
    {
        let mut entries: Vec<Point> = Vec::new();
        other.root.collect_into(&mut entries);
        proof {
            assert(entries_ms(Seq::<Point>::empty()) =~= Multiset::empty());
            assert(entries_ms(entries@) =~= other.points());
            lemma_entries_ms_len(entries@);
            assert(entries@.take(0) =~= Seq::<Point>::empty());
        }
        let ghost oldlen = self.points().len();
        let mut i: usize = 0;
        while i < entries.len()
            invariant
                self.wf(),
                self.same_shape(old(self)),
                other.wf(),
                old(self).base_bb@ == other.base_bb@,
                oldlen == old(self).points().len(),
                total_weight(entries@) == other.points().len(),
                oldlen + total_weight(entries@) <= usize::MAX,
                entries_ms(entries@) =~= other.points(),
                forall|j: int|
                    0 <= j < entries@.len() ==> (#[trigger] entries@[j]).weight == 0
                        || other.points().contains(entries@[j].coords@),
                0 <= i <= entries@.len(),
                self.points().len() == oldlen + total_weight(entries@.take(i as int)),
                forall|x: Seq<i64>| #[trigger]
                    self.points().contains(x) ==> old(self).points().contains(x)
                        || reshifted_from(other.points(), other.shift@, old(self).shift@, x),
                forall|q: Seq<i64>|
                    (#[trigger] other.points().count(q)) > 0 ==> self.points().count(
                        seq_add(seq_sub(q, other.shift@), old(self).shift@),
                    ) == old(self).points().count(
                        seq_add(seq_sub(q, other.shift@), old(self).shift@),
                    ) + entries_ms(entries@.take(i as int)).count(q),
                forall|x: Seq<i64>|
                    !reshifted_from(other.points(), other.shift@, old(self).shift@, x) ==> (
                    #[trigger] self.points().count(x)) == old(self).points().count(x),
            decreases entries@.len() - i,
        {
            let w: usize = entries[i].weight;
            let ghost o = entries@[i as int].coords@;
            proof {
                lemma_entries_ms_take(entries@, i as int);
                lemma_weight_prefix_bound(entries@, i as int + 1);
                crate::point_list::lemma_pt_ms(entries@[i as int]);
            }
            if w > 0 {
                proof {
                    assert(other.points().contains(entries@[i as int].coords@));
                    assert(in_shifted_box(
                        other.base_bb@,
                        other.shift@,
                        entries@[i as int].coords@,
                    ));
                }
                let u = unshift(&entries[i].coords, &other.shift, Ghost(other.base_bb@));
                let mut t: usize = 0;
                while t < w
                    invariant
                        self.wf(),
                        self.same_shape(old(self)),
                        other.wf(),
                        old(self).base_bb@ == other.base_bb@,
                        oldlen == old(self).points().len(),
                        0 <= t <= w,
                        0 <= i < entries@.len(),
                        w == entries@[i as int].weight,
                        o == entries@[i as int].coords@,
                        other.points().contains(o),
                        u@ == seq_sub(o, other.shift@),
                        box_contains(old(self).base_bb@, u@),
                        oldlen + total_weight(entries@.take(i as int)) + w <= usize::MAX,
                        self.points().len() == oldlen + total_weight(entries@.take(i as int)) + t,
                        forall|x: Seq<i64>| #[trigger]
                            self.points().contains(x) ==> old(self).points().contains(x)
                                || reshifted_from(
                                other.points(),
                                other.shift@,
                                old(self).shift@,
                                x,
                            ),
                        forall|q: Seq<i64>|
                            (#[trigger] other.points().count(q)) > 0 ==> self.points().count(
                                seq_add(seq_sub(q, other.shift@), old(self).shift@),
                            ) == old(self).points().count(
                                seq_add(seq_sub(q, other.shift@), old(self).shift@),
                            ) + entries_ms(entries@.take(i as int)).count(q) + (if q == o {
                                t as int
                            } else {
                                0
                            }),
                        forall|x: Seq<i64>|
                            !reshifted_from(other.points(), other.shift@, old(self).shift@, x)
                                ==> (#[trigger] self.points().count(x)) == old(
                                self,
                            ).points().count(x),
                    decreases w - t,
                {
                    let ghost preins = self.points();
                    self.insert(&u);
                    proof {
                        let xstar = seq_add(seq_sub(o, other.shift@), old(self).shift@);
                        assert(self.points() =~= preins.insert(xstar));
                        assert forall|x: Seq<i64>| #[trigger]
                            self.points().contains(x) implies old(self).points().contains(x)
                            || reshifted_from(
                            other.points(),
                            other.shift@,
                            old(self).shift@,
                            x,
                        ) by {
                            if !preins.contains(x) {
                                assert(x == xstar);
                                assert(other.points().contains(o));
                            }
                        }
                        assert forall|q: Seq<i64>|
                            (#[trigger] other.points().count(q)) > 0 implies self.points().count(
                            seq_add(seq_sub(q, other.shift@), old(self).shift@),
                        ) == old(self).points().count(
                            seq_add(seq_sub(q, other.shift@), old(self).shift@),
                        ) + entries_ms(entries@.take(i as int)).count(q) + (if q == o {
                            t + 1 as int
                        } else {
                            0
                        }) by {
                            if q != o {
                                assert(other.points().contains(q));
                                assert(other.points().contains(o));
                                assert(in_shifted_box(other.base_bb@, other.shift@, q));
                                assert(in_shifted_box(other.base_bb@, other.shift@, o));
                                lemma_reshift_injective(
                                    other.base_bb@,
                                    other.shift@,
                                    old(self).shift@,
                                    q,
                                    o,
                                );
                            }
                        }
                        assert forall|x: Seq<i64>|
                            !reshifted_from(
                                other.points(),
                                other.shift@,
                                old(self).shift@,
                                x,
                            ) implies (#[trigger] self.points().count(x)) == old(
                            self,
                        ).points().count(x) by {
                            assert(other.points().contains(o));
                            if x == xstar {
                                assert(reshifted_from(
                                    other.points(),
                                    other.shift@,
                                    old(self).shift@,
                                    xstar,
                                ));
                            }
                        }
                    }
                    t += 1;
                }
            }
            proof {
                assert forall|q: Seq<i64>|
                    (#[trigger] other.points().count(q)) > 0 implies self.points().count(
                    seq_add(seq_sub(q, other.shift@), old(self).shift@),
                ) == old(self).points().count(seq_add(seq_sub(q, other.shift@), old(self).shift@))
                    + entries_ms(entries@.take(i as int + 1)).count(q) by {
                    assert(entries_ms(entries@.take(i as int + 1)).count(q) == entries_ms(
                        entries@.take(i as int),
                    ).count(q) + pt_ms(entries@[i as int]).count(q));
                    if q == o {
                        assert(pt_ms(entries@[i as int]).count(q) == w);
                    } else {
                        assert(pt_ms(entries@[i as int]).count(q) == 0);
                    }
                }
            }
            i += 1;
        }
        proof {
            assert(entries@.take(entries@.len() as int) =~= entries@);
        }
    }

    /// Applies the point-list sketch at every node.
    pub fn sketch(&mut self, k: usize)
        requires
            old(self).wf(),
            k >= 1,
        ensures
            final(self).wf(),
            final(self).points().len() == old(self).points().len(),
            forall|c: Seq<i64>| #[trigger]
                final(self).points().contains(c) ==> old(self).points().contains(c),
            final(self).root.sketched(k as int),
            final(self).same_shape(old(self)),
    {
        let root = &mut self.root;
        root.sketch_all(k, &self.splits, self.max_depth);
        proof {
            assert forall|c: Seq<i64>| #[trigger] self.points().contains(c) implies in_shifted_box(
                self.base_bb@,
                self.shift@,
                c,
            ) by {
                assert(old(self).points().contains(c));
            }
        }
    }
}

} // verus!
