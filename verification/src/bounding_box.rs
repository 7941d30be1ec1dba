//! Axis-aligned bounding boxes over fixed-point coordinates.
//!
//! A box stores one `(lower, upper)` pair per dimension.  Boxes generate the
//! random shift and the random split-dimension schedule of a tree, and they
//! answer the containment queries that drive tree descent.
use vstd::prelude::*;

use crate::BOX_LIMIT;
use crate::COORD_LIMIT;
use crate::UNIT;
use crate::coords_valid;

verus! {

/// Per-dimension invariant: lower bound at most upper bound, and both small
/// enough that midpoints and doubled ranges stay inside `i64`.
pub open spec fn box_wf(b: Seq<(i64, i64)>) -> bool {
    forall|i: int|
        0 <= i < b.len() ==> (#[trigger] b[i]).0 <= b[i].1 && -BOX_LIMIT <= b[i].0 && b[i].1
            <= BOX_LIMIT
}

/// A box whose bounds are small enough to serve as a configured input box:
/// doubling its range still satisfies `box_wf`.
pub open spec fn box_input_sized(b: Seq<(i64, i64)>) -> bool {
    forall|i: int|
        0 <= i < b.len() ==> -COORD_LIMIT <= (#[trigger] b[i]).0 && b[i].1 <= COORD_LIMIT
}

/// Inclusive containment on every dimension; false when the lengths differ.
pub open spec fn box_contains(b: Seq<(i64, i64)>, c: Seq<i64>) -> bool {
    &&& c.len() == b.len()
    &&& forall|i: int| 0 <= i < b.len() ==> (#[trigger] b[i]).0 <= c[i] && c[i] <= b[i].1
}

/// Inclusive containment along one dimension only.
pub open spec fn box_contains_at(b: Seq<(i64, i64)>, c: Seq<i64>, dim: int) -> bool {
    b[dim].0 <= c[dim] && c[dim] <= b[dim].1
}

/// The split value of a box along a dimension: the midpoint, rounded down.
pub open spec fn box_mid(b: Seq<(i64, i64)>, dim: int) -> int {
    b[dim].0 + (b[dim].1 - b[dim].0) / 2
}

/// Width of a box along one dimension.
pub open spec fn box_range(b: Seq<(i64, i64)>, i: int) -> int {
    b[i].1 - b[i].0
}

/// The left half of a box split at `dim`: the upper bound drops to the midpoint.
pub open spec fn box_left(b: Seq<(i64, i64)>, dim: int) -> Seq<(i64, i64)> {
    b.update(dim, (b[dim].0, box_mid(b, dim) as i64))
}

/// The right half of a box split at `dim`: the lower bound rises to the midpoint.
pub open spec fn box_right(b: Seq<(i64, i64)>, dim: int) -> Seq<(i64, i64)> {
    b.update(dim, (box_mid(b, dim) as i64, b[dim].1))
}

/// Some point among the first `upto` carries the value `v` in dimension
/// `k`: the derived bounds are attained, not merely valid.
pub open spec fn coord_attained(points: Seq<Vec<i64>>, upto: int, k: int, v: i64) -> bool {
    exists|q: int| 0 <= q < upto && (#[trigger] points[q])@[k] == v
}

/// Some dimension has a nonzero range, so a split schedule can be drawn.
pub open spec fn box_has_nonzero_range(b: Seq<(i64, i64)>) -> bool {
    exists|i: int| 0 <= i < b.len() && box_range(b, i) != 0
}

/// How a split relates the halves to the whole: each half is well formed and
/// nested in the parent, the two halves cover it, and membership in a half
/// decides the coordinate against the midpoint.
pub proof fn lemma_box_split(b: Seq<(i64, i64)>, dim: int)
    requires
        box_wf(b),
        0 <= dim < b.len(),
    ensures
        box_wf(box_left(b, dim)),
        box_wf(box_right(b, dim)),
        box_left(b, dim).len() == b.len(),
        box_right(b, dim).len() == b.len(),
        b[dim].0 <= box_mid(b, dim) <= b[dim].1,
        forall|c: Seq<i64>| box_contains(box_left(b, dim), c) ==> box_contains(b, c),
        forall|c: Seq<i64>| box_contains(box_right(b, dim), c) ==> box_contains(b, c),
        forall|c: Seq<i64>|
            box_contains(b, c) && c[dim] <= box_mid(b, dim) ==> box_contains(box_left(b, dim), c),
        forall|c: Seq<i64>|
            box_contains(b, c) && c[dim] > box_mid(b, dim) ==> box_contains(box_right(b, dim), c),
        forall|c: Seq<i64>| box_contains(box_left(b, dim), c) ==> c[dim] <= box_mid(b, dim),
        forall|c: Seq<i64>| box_contains(box_right(b, dim), c) ==> c[dim] >= box_mid(b, dim),
{
    let lo = b[dim].0;
    let hi = b[dim].1;
    assert(0 <= (hi - lo) / 2 <= hi - lo);
    assert forall|c: Seq<i64>| box_contains(box_left(b, dim), c) implies box_contains(b, c) by {
        assert forall|i: int| 0 <= i < b.len() implies (#[trigger] b[i]).0 <= c[i] && c[i]
            <= b[i].1 by {
            assert(box_left(b, dim)[i].0 <= c[i] && c[i] <= box_left(b, dim)[i].1);
        }
    }
    assert forall|c: Seq<i64>| box_contains(box_right(b, dim), c) implies box_contains(b, c) by {
        assert forall|i: int| 0 <= i < b.len() implies (#[trigger] b[i]).0 <= c[i] && c[i]
            <= b[i].1 by {
            assert(box_right(b, dim)[i].0 <= c[i] && c[i] <= box_right(b, dim)[i].1);
        }
    }
    assert forall|c: Seq<i64>|
        box_contains(b, c) && c[dim] <= box_mid(b, dim) implies box_contains(
        box_left(b, dim),
        c,
    ) by {
        assert forall|i: int|
            0 <= i < b.len() implies (#[trigger] box_left(b, dim)[i]).0 <= c[i] && c[i]
            <= box_left(b, dim)[i].1 by {
            assert(b[i].0 <= c[i] && c[i] <= b[i].1);
        }
    }
    assert forall|c: Seq<i64>|
        box_contains(b, c) && c[dim] > box_mid(b, dim) implies box_contains(
        box_right(b, dim),
        c,
    ) by {
        assert forall|i: int|
            0 <= i < b.len() implies (#[trigger] box_right(b, dim)[i]).0 <= c[i] && c[i]
            <= box_right(b, dim)[i].1 by {
            assert(b[i].0 <= c[i] && c[i] <= b[i].1);
        }
    }
    assert forall|c: Seq<i64>| box_contains(box_left(b, dim), c) implies c[dim] <= box_mid(
        b,
        dim,
    ) by {
        assert((box_left(b, dim)[dim]).0 <= c[dim] && c[dim] <= box_left(b, dim)[dim].1);
    }
    assert forall|c: Seq<i64>| box_contains(box_right(b, dim), c) implies c[dim] >= box_mid(
        b,
        dim,
    ) by {
        assert((box_right(b, dim)[dim]).0 <= c[dim] && c[dim] <= box_right(b, dim)[dim].1);
    }
}

/// An axis-aligned box in fixed-point coordinates: one `(lower, upper)`
/// bound pair per dimension.
#[derive(Debug)]
pub struct BoundingBox {
    pub bounds: Vec<(i64, i64)>,
}

impl View for BoundingBox {
    type V = Seq<(i64, i64)>;

    open spec fn view(&self) -> Seq<(i64, i64)> {
        self.bounds@
    }
}

impl Clone for BoundingBox {
    fn clone(&self) -> (r: Self)
        ensures
            r@ == self@,
    {
        let mut bounds: Vec<(i64, i64)> = Vec::new();
        let mut i: usize = 0;
        while i < self.bounds.len()
            invariant
                0 <= i <= self@.len(),
                bounds@.len() == i,
                forall|j: int| 0 <= j < i ==> #[trigger] bounds@[j] == self@[j],
            decreases self@.len() - i,
        {
            bounds.push(self.bounds[i]);
            i += 1;
        }
        proof {
            assert(bounds@ =~= self@);
        }
        BoundingBox { bounds }
    }
}

impl BoundingBox {
    pub open spec fn wf(&self) -> bool {
        box_wf(self@)
    }

    /// Wraps explicit bounds; every lower bound must not exceed its upper
    /// bound, and bounds must be small enough for midpoint arithmetic.
    pub fn new(bounds: Vec<(i64, i64)>) -> (r: Self)
        requires
            box_wf(bounds@),
        ensures
            r@ == bounds@,
            r.wf(),
    {
        BoundingBox { bounds }
    }

    /// The unit box `[0, 1]^d`, with one written in fixed point as `UNIT`.
    pub fn unit(d: usize) -> (r: Self)
        ensures
            r@.len() == d,
            forall|i: int| 0 <= i < d ==> #[trigger] r@[i] == (0i64, UNIT),
            r.wf(),
            box_input_sized(r@),
    {
        let mut bounds: Vec<(i64, i64)> = Vec::new();
        let mut i: usize = 0;
        while i < d
            invariant
                0 <= i <= d,
                bounds@.len() == i,
                forall|j: int| 0 <= j < i ==> #[trigger] bounds@[j] == (0i64, UNIT),
            decreases d - i,
        {
            bounds.push((0i64, UNIT));
            i += 1;
        }
        BoundingBox { bounds }
    }

    /// Number of dimensions.
    pub fn d(&self) -> (r: usize)
        ensures
            r == self@.len(),
    {
        self.bounds.len()
    }

    /// Per-dimension width `upper - lower`.
    pub fn range(&self) -> (r: Vec<i64>)
        requires
            self.wf(),
        ensures
            r@.len() == self@.len(),
            forall|i: int| 0 <= i < r@.len() ==> #[trigger] r@[i] == box_range(self@, i),
    {
        let mut r: Vec<i64> = Vec::new();
        let mut i: usize = 0;
        while i < self.bounds.len()
            invariant
                self.wf(),
                0 <= i <= self@.len(),
                r@.len() == i,
                forall|j: int| 0 <= j < i ==> #[trigger] r@[j] == box_range(self@, j),
            decreases self@.len() - i,
        {
            let (lo, hi) = self.bounds[i];
            r.push(hi - lo);
            i += 1;
        }
        r
    }

    /// A copy of `bb` whose upper bound grows by the range in every
    /// dimension; used as the root box so that every contained point plus a
    /// shift of at most one range stays inside.
    pub fn with_double_range(bb: &Self) -> (r: Self)
        requires
            bb.wf(),
            box_input_sized(bb@),
        ensures
            r@.len() == bb@.len(),
            forall|i: int|
                0 <= i < r@.len() ==> (#[trigger] r@[i]).0 == bb@[i].0 && r@[i].1 == bb@[i].1
                    + box_range(bb@, i),
            r.wf(),
    {
        let mut bounds: Vec<(i64, i64)> = Vec::new();
        let mut i: usize = 0;
        while i < bb.bounds.len()
            invariant
                bb.wf(),
                box_input_sized(bb@),
                0 <= i <= bb@.len(),
                bounds@.len() == i,
                forall|j: int|
                    0 <= j < i ==> (#[trigger] bounds@[j]).0 == bb@[j].0 && bounds@[j].1 == bb@[j].1
                        + box_range(bb@, j),
            decreases bb@.len() - i,
        {
            let (lo, hi) = bb.bounds[i];
            bounds.push((lo, hi + (hi - lo)));
            i += 1;
        }
        BoundingBox { bounds }
    }

    /// Replaces the box with its `s`-fold vertical concatenation, matching
    /// shingled input vectors.
    pub fn shingle(&mut self, s: usize)
        requires
            s >= 1,
            old(self)@.len() * s <= usize::MAX,
        ensures
            final(self)@.len() == old(self)@.len() * s,
            forall|i: int|
                0 <= i < final(self)@.len() ==> #[trigger] final(self)@[i] == old(self)@[i % (
                old(self)@.len() as int)],
    {
        let d: usize = self.bounds.len();
        if d == 0 {
            proof {
                let n = old(self)@.len() as int;
                assert(n * s == 0) by (nonlinear_arith)
                    requires
                        n == 0,
                ;
            }
            return ;
        }
        let mut bounds: Vec<(i64, i64)> = Vec::new();
        let mut rep: usize = 0;
        while rep < s
            invariant
                1 <= s,
                d == old(self)@.len(),
                d >= 1,
                d * s <= usize::MAX,
                self@ == old(self)@,
                0 <= rep <= s,
                bounds@.len() == d * rep,
                forall|i: int|
                    0 <= i < bounds@.len() ==> #[trigger] bounds@[i] == old(self)@[i % (d as int)],
            decreases s - rep,
        {
            let mut i: usize = 0;
            while i < d
                invariant
                    d == self@.len(),
                    d >= 1,
                    d * s <= usize::MAX,
                    rep < s,
                    self@ == old(self)@,
                    0 <= i <= d,
                    bounds@.len() == d * rep + i,
                    forall|j: int|
                        0 <= j < bounds@.len() ==> #[trigger] bounds@[j] == old(self)@[j % (
                        d as int)],
                decreases d - i,
            {
                proof {
                    let len = (d * rep + i) as int;
                    assert(len % (d as int) == i as int) by (nonlinear_arith)
                        requires
                            len == d * rep + i,
                            0 <= i < d,
                            0 <= rep,
                    ;
                    assert(d * rep + i < d * s) by (nonlinear_arith)
                        requires
                            0 <= i < d,
                            0 <= rep < s,
                    ;
                }
                bounds.push(self.bounds[i]);
                i += 1;
            }
            proof {
                assert(d * (rep + 1) == d * rep + d) by (nonlinear_arith);
            }
            rep += 1;
        }
        self.bounds = bounds;
    }

    /// Normalises a point in place onto `[0, UNIT]` per dimension:
    /// `p[i] <- (p[i] - lower) * UNIT / range`.  Dimensions with zero range
    /// are left untouched.
    pub fn normalise(&self, p: &mut Vec<i64>)
        requires
            self.wf(),
            box_contains(self@, old(p)@),
        ensures
            final(p)@.len() == old(p)@.len(),
            forall|i: int|
                0 <= i < old(p)@.len() ==> #[trigger] final(p)@[i] == (if box_range(self@, i) == 0 {
                    old(p)@[i]
                } else {
                    ((old(p)@[i] - self@[i].0) * UNIT / box_range(self@, i)) as i64
                }),
    {
        let ghost orig = old(p)@;
        let mut i: usize = 0;
        while i < p.len()
            invariant
                self.wf(),
                box_contains(self@, orig),
                p@.len() == orig.len(),
                0 <= i <= orig.len(),
                forall|j: int| i <= j < orig.len() ==> #[trigger] p@[j] == orig[j],
                forall|j: int|
                    0 <= j < i ==> #[trigger] p@[j] == (if box_range(self@, j) == 0 {
                        orig[j]
                    } else {
                        ((orig[j] - self@[j].0) * UNIT / box_range(self@, j)) as i64
                    }),
            decreases orig.len() - i,
        {
            let (lo, hi) = self.bounds[i];
            let range: i64 = hi - lo;
            if range != 0 {
                proof {
                    assert(self@[i as int].0 <= orig[i as int] && orig[i as int]
                        <= self@[i as int].1);
                }
                let wide: i128 = (p[i] as i128 - lo as i128) * UNIT as i128 / range as i128;
                proof {
                    let diff = orig[i as int] - lo;
                    assert(0 <= diff * UNIT <= range * UNIT) by (nonlinear_arith)
                        requires
                            0 <= diff <= range,
                            UNIT > 0,
                    ;
                    assert(0 <= diff * UNIT / (range as int) <= UNIT) by (nonlinear_arith)
                        requires
                            0 <= diff * UNIT <= range * UNIT,
                            range > 0,
                    ;
                }
                let v: i64 = wide as i64;
                p.set(i, v);
            }
            i += 1;
        }
    }

    /// Splits the box at its midpoint along `dim` into a left and right half
    /// sharing all other bounds; the midpoint belongs to both halves.
    pub fn split_at(&self, dim: usize) -> (r: (Self, Self))
        requires
            self.wf(),
            dim < self@.len(),
        ensures
            r.0@ == box_left(self@, dim as int),
            r.1@ == box_right(self@, dim as int),
            r.0.wf(),
            r.1.wf(),
    {
        let (lo, hi) = self.bounds[dim];
        let m: i64 = lo + (hi - lo) / 2;
        let mut left = self.clone();
        let mut right = self.clone();
        left.bounds.set(dim, (lo, m));
        right.bounds.set(dim, (m, hi));
        (left, right)
    }

    /// The two corner points of the split segment at the midpoint along
    /// `dim`: the lower and upper box corners with that coordinate replaced
    /// by the split value.
    pub fn split_line_at(&self, dim: usize) -> (r: (Vec<i64>, Vec<i64>))
        requires
            self.wf(),
            dim < self@.len(),
        ensures
            r.0@.len() == self@.len(),
            r.1@.len() == self@.len(),
            forall|i: int| 0 <= i < self@.len() && i != dim ==> #[trigger] r.0@[i] == self@[i].0,
            forall|i: int| 0 <= i < self@.len() && i != dim ==> #[trigger] r.1@[i] == self@[i].1,
            r.0@[dim as int] == box_mid(self@, dim as int),
            r.1@[dim as int] == box_mid(self@, dim as int),
    {
        let mut p1: Vec<i64> = Vec::new();
        let mut p2: Vec<i64> = Vec::new();
        let mut i: usize = 0;
        while i < self.bounds.len()
            invariant
                self.wf(),
                0 <= i <= self@.len(),
                p1@.len() == i,
                p2@.len() == i,
                forall|j: int| 0 <= j < i ==> #[trigger] p1@[j] == self@[j].0,
                forall|j: int| 0 <= j < i ==> #[trigger] p2@[j] == self@[j].1,
            decreases self@.len() - i,
        {
            let (lo, hi) = self.bounds[i];
            p1.push(lo);
            p2.push(hi);
            i += 1;
        }
        let (lo, hi) = self.bounds[dim];
        let m: i64 = lo + (hi - lo) / 2;
        p1.set(dim, m);
        p2.set(dim, m);
        (p1, p2)
    }

    /// Inclusive containment test; a point of the wrong dimension is
    /// rejected rather than compared.
    pub fn contains(&self, p: &Vec<i64>) -> (r: bool)
        ensures
            r == box_contains(self@, p@),
    {
        if p.len() != self.bounds.len() {
            return false;
        }
        let mut i: usize = 0;
        while i < self.bounds.len()
            invariant
                p@.len() == self@.len(),
                0 <= i <= self@.len(),
                forall|j: int| 0 <= j < i ==> (#[trigger] self@[j]).0 <= p@[j] && p@[j] <= self@[j].1,
            decreases self@.len() - i,
        {
            let (lo, hi) = self.bounds[i];
            if p[i] < lo || p[i] > hi {
                return false;
            }
            i += 1;
        }
        true
    }

    /// Inclusive containment along a single dimension.
    pub fn contains_at(&self, p: &Vec<i64>, dim: usize) -> (r: bool)
        requires
            dim < self@.len(),
            dim < p@.len(),
        ensures
            r == box_contains_at(self@, p@, dim as int),
    {
        let (lo, hi) = self.bounds[dim];
        lo <= p[dim] && p[dim] <= hi
    }

    /// Runtime check of the structural invariant together with the size
    /// bound that lets the box serve as a configured input box.
    pub fn is_input_box(&self) -> (r: bool)
        ensures
            r == (box_wf(self@) && box_input_sized(self@)),
    {
        let mut i: usize = 0;
        while i < self.bounds.len()
            invariant
                0 <= i <= self@.len(),
                forall|j: int|
                    0 <= j < i ==> (#[trigger] self@[j]).0 <= self@[j].1 && -COORD_LIMIT
                        <= self@[j].0 && self@[j].1 <= COORD_LIMIT,
            decreases self@.len() - i,
        {
            let (lo, hi) = self.bounds[i];
            if lo > hi || lo < -COORD_LIMIT || hi > COORD_LIMIT {
                return false;
            }
            i += 1;
        }
        true
    }

    /// Runtime test for a dimension of nonzero range.
    pub fn has_nonzero_range(&self) -> (r: bool)
        ensures
            r == box_has_nonzero_range(self@),
    {
        let mut i: usize = 0;
        while i < self.bounds.len()
            invariant
                0 <= i <= self@.len(),
                forall|j: int| 0 <= j < i ==> box_range(self@, j) == 0,
            decreases self@.len() - i,
        {
            let (lo, hi) = self.bounds[i];
            if hi != lo {
                proof {
                    assert(box_range(self@, i as int) != 0);
                }
                return true;
            }
            i += 1;
        }
        false
    }

    /// Draws a uniform shift: per dimension, zero when the range is zero,
    /// otherwise a value in `[0, range)`.
    pub fn gen_shift_using(&self, rng: &mut rand::rngs::StdRng) -> (r: Vec<i64>)
        requires
            self.wf(),
        ensures
            r@.len() == self@.len(),
            forall|i: int|
                0 <= i < r@.len() ==> 0 <= #[trigger] r@[i] <= box_range(self@, i) && (box_range(
                    self@,
                    i,
                ) > 0 ==> r@[i] < box_range(self@, i)),
    {
        let mut r: Vec<i64> = Vec::new();
        let mut i: usize = 0;
        while i < self.bounds.len()
            invariant
                self.wf(),
                0 <= i <= self@.len(),
                r@.len() == i,
                forall|j: int|
                    0 <= j < i ==> 0 <= #[trigger] r@[j] <= box_range(self@, j) && (box_range(
                        self@,
                        j,
                    ) > 0 ==> r@[j] < box_range(self@, j)),
            decreases self@.len() - i,
        {
            let (lo, hi) = self.bounds[i];
            let range: i64 = hi - lo;
            if range == 0 {
                r.push(0i64);
            } else {
                let v: u64 = crate::rng::gen_range_u64(rng, 0, range as u64);
                r.push(v as i64);
            }
            i += 1;
        }
        r
    }

    /// Draws a split schedule: `n` dimension indices chosen uniformly among
    /// the dimensions of nonzero range.
    pub fn gen_splits_using(&self, n: usize, rng: &mut rand::rngs::StdRng) -> (r: Vec<usize>)
        requires
            self.wf(),
            box_has_nonzero_range(self@),
        ensures
            r@.len() == n,
            forall|i: int|
                0 <= i < r@.len() ==> (#[trigger] r@[i]) < self@.len() && box_range(
                    self@,
                    r@[i] as int,
                ) != 0,
    {
        let mut nonzero: Vec<usize> = Vec::new();
        let mut i: usize = 0;
        while i < self.bounds.len()
            invariant
                self.wf(),
                0 <= i <= self@.len(),
                forall|j: int|
                    0 <= j < nonzero@.len() ==> (#[trigger] nonzero@[j]) < self@.len() && box_range(
                        self@,
                        nonzero@[j] as int,
                    ) != 0,
                forall|j: int| 0 <= j < i && box_range(self@, j) != 0 ==> nonzero@.len() > 0,
            decreases self@.len() - i,
        {
            let (lo, hi) = self.bounds[i];
            if hi != lo {
                nonzero.push(i);
            }
            i += 1;
        }
        proof {
            let w = choose|j: int| 0 <= j < self@.len() && box_range(self@, j) != 0;
            assert(nonzero@.len() > 0);
        }
        let mut r: Vec<usize> = Vec::new();
        let mut t: usize = 0;
        while t < n
            invariant
                0 <= t <= n,
                r@.len() == t,
                nonzero@.len() > 0,
                forall|j: int|
                    0 <= j < nonzero@.len() ==> (#[trigger] nonzero@[j]) < self@.len() && box_range(
                        self@,
                        nonzero@[j] as int,
                    ) != 0,
                forall|j: int|
                    0 <= j < r@.len() ==> (#[trigger] r@[j]) < self@.len() && box_range(
                        self@,
                        r@[j] as int,
                    ) != 0,
            decreases n - t,
        {
            let j: u64 = crate::rng::gen_range_u64(rng, 0, nonzero.len() as u64);
            r.push(nonzero[j as usize]);
            t += 1;
        }
        r
    }

    /// Derives the tightest box around a set of points: per-dimension
    /// minimum and maximum, each attained by some point.  Returns `None` on
    /// an empty set.
    pub fn from_points(points: &Vec<Vec<i64>>) -> (r: Option<Self>)
        requires
            forall|j: int| 0 <= j < points@.len() ==> coords_valid((#[trigger] points@[j])@),
            forall|j: int|
                0 <= j < points@.len() ==> (#[trigger] points@[j])@.len() == points@[0]@.len(),
        ensures
            r is Some <==> points@.len() > 0,
            r is Some ==> {
                &&& r->Some_0@.len() == points@[0]@.len()
                &&& r->Some_0.wf()
                &&& box_input_sized(r->Some_0@)
                &&& forall|j: int|
                    0 <= j < points@.len() ==> box_contains(r->Some_0@, (#[trigger] points@[j])@)
                &&& forall|k: int|
                    0 <= k < r->Some_0@.len() ==> coord_attained(
                        points@,
                        points@.len() as int,
                        k,
                        (#[trigger] r->Some_0@[k]).0,
                    ) && coord_attained(points@, points@.len() as int, k, r->Some_0@[k].1)
            },
    {
        if points.len() == 0 {
            return None;
        }
        let d: usize = points[0].len();
        let mut bounds: Vec<(i64, i64)> = Vec::new();
        let mut i: usize = 0;
        while i < d
            invariant
                d == points@[0]@.len(),
                points@.len() > 0,
                forall|j: int| 0 <= j < points@.len() ==> coords_valid((#[trigger] points@[j])@),
                forall|j: int| 0 <= j < points@.len() ==> (#[trigger] points@[j])@.len() == d,
                0 <= i <= d,
                bounds@.len() == i,
                forall|k: int|
                    0 <= k < i ==> (#[trigger] bounds@[k]).0 == points@[0]@[k] && bounds@[k].1
                        == points@[0]@[k],
            decreases d - i,
        {
            let v: i64 = points[0][i];
            bounds.push((v, v));
            i += 1;
        }
        let mut j: usize = 1;
        while j < points.len()
            invariant
                d == points@[0]@.len(),
                points@.len() > 0,
                forall|q: int| 0 <= q < points@.len() ==> coords_valid((#[trigger] points@[q])@),
                forall|q: int| 0 <= q < points@.len() ==> (#[trigger] points@[q])@.len() == d,
                1 <= j <= points@.len(),
                bounds@.len() == d,
                forall|k: int|
                    0 <= k < d ==> (#[trigger] bounds@[k]).0 <= bounds@[k].1 && -COORD_LIMIT
                        <= bounds@[k].0 && bounds@[k].1 <= COORD_LIMIT,
                forall|q: int, k: int|
                    0 <= q < j && 0 <= k < d ==> (#[trigger] bounds@[k]).0 <= (
                    #[trigger] points@[q])@[k] && points@[q]@[k] <= bounds@[k].1,
                forall|k: int|
                    0 <= k < d ==> coord_attained(points@, j as int, k, (#[trigger] bounds@[k]).0)
                        && coord_attained(points@, j as int, k, bounds@[k].1),
            decreases points@.len() - j,
        {
            let mut k: usize = 0;
            while k < d
                invariant
                    d == points@[0]@.len(),
                    points@.len() > 0,
                    forall|q: int| 0 <= q < points@.len() ==> coords_valid((#[trigger] points@[q])@),
                    forall|q: int| 0 <= q < points@.len() ==> (#[trigger] points@[q])@.len() == d,
                    1 <= j < points@.len(),
                    0 <= k <= d,
                    bounds@.len() == d,
                    forall|t: int|
                        0 <= t < d ==> (#[trigger] bounds@[t]).0 <= bounds@[t].1 && -COORD_LIMIT
                            <= bounds@[t].0 && bounds@[t].1 <= COORD_LIMIT,
                    forall|q: int, t: int|
                        0 <= q < j && 0 <= t < d ==> (#[trigger] bounds@[t]).0 <= (
                        #[trigger] points@[q])@[t] && points@[q]@[t] <= bounds@[t].1,
                    forall|t: int|
                        0 <= t < k ==> (#[trigger] bounds@[t]).0 <= points@[j as int]@[t]
                            && points@[j as int]@[t] <= bounds@[t].1,
                    forall|t: int|
                        0 <= t < d ==> coord_attained(
                            points@,
                            j + 1,
                            t,
                            (#[trigger] bounds@[t]).0,
                        ) && coord_attained(points@, j + 1, t, bounds@[t].1),
                decreases d - k,
            {
                let v: i64 = points[j][k];
                let (lo, hi) = bounds[k];
                let lo2: i64 = if v < lo {
                    v
                } else {
                    lo
                };
                let hi2: i64 = if v > hi {
                    v
                } else {
                    hi
                };
                let ghost pre = bounds@;
                bounds.set(k, (lo2, hi2));
                proof {
                    assert forall|t: int|
                        0 <= t < d implies coord_attained(
                        points@,
                        j + 1,
                        t,
                        (#[trigger] bounds@[t]).0,
                    ) && coord_attained(points@, j + 1, t, bounds@[t].1) by {
                        if t == k {
                            if lo2 == v {
                                assert(points@[j as int]@[t] == lo2);
                            } else {
                                let q = choose|q: int|
                                    0 <= q < j + 1 && (#[trigger] points@[q])@[t] == pre[t].0;
                                assert(points@[q]@[t] == bounds@[t].0);
                            }
                            if hi2 == v {
                                assert(points@[j as int]@[t] == hi2);
                            } else {
                                let q = choose|q: int|
                                    0 <= q < j + 1 && (#[trigger] points@[q])@[t] == pre[t].1;
                                assert(points@[q]@[t] == bounds@[t].1);
                            }
                        } else {
                            let q = choose|q: int|
                                0 <= q < j + 1 && (#[trigger] points@[q])@[t] == pre[t].0;
                            assert(points@[q]@[t] == bounds@[t].0);
                            let q2 = choose|q2: int|
                                0 <= q2 < j + 1 && (#[trigger] points@[q2])@[t] == pre[t].1;
                            assert(points@[q2]@[t] == bounds@[t].1);
                        }
                    }
                }
                k += 1;
            }
            j += 1;
        }
        Some(BoundingBox { bounds })
    }
}

} // verus!
