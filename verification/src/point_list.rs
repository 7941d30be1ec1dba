//! Weighted point lists: the contents of a tree node.
//!
//! A list holds coordinate vectors with positive integer weights and merges
//! equal coordinates by summing weights.  Its mathematical model is the
//! multiset of coordinate vectors in which each entry occurs with
//! multiplicity equal to its weight, so the length of the model is the total
//! weight of the list.
use vstd::prelude::*;
use vstd::multiset::Multiset;
use crate::copy_coords;
use crate::bounding_box::BoundingBox;
use crate::bounding_box::box_contains;
use crate::bounding_box::box_contains_at;





verus! {

broadcast use vstd::multiset::group_multiset_axioms;

/// A coordinate vector with the number of times it is held.
pub struct Point {
    pub coords: Vec<i64>,
    pub weight: usize,
}

/// The multiset holding `c` exactly `n` times.
pub open spec fn repeat_ms(c: Seq<i64>, n: nat) -> Multiset<Seq<i64>>
    decreases n,
{
    if n == 0 {
        Multiset::empty()
    } else {
        repeat_ms(c, (n - 1) as nat).insert(c)
    }
}

/// The multiset contribution of a single entry.
pub open spec fn pt_ms(p: Point) -> Multiset<Seq<i64>> {
    repeat_ms(p.coords@, p.weight as nat)
}

/// The multiset of coordinates held by a sequence of entries.
pub open spec fn entries_ms(s: Seq<Point>) -> Multiset<Seq<i64>>
    decreases s.len(),
{
    if s.len() == 0 {
        Multiset::empty()
    } else {
        entries_ms(s.drop_last()).add(pt_ms(s.last()))
    }
}

/// Total weight of a sequence of entries.
pub open spec fn total_weight(s: Seq<Point>) -> nat
    decreases s.len(),
{
    if s.len() == 0 {
        0
    } else {
        total_weight(s.drop_last()) + s.last().weight as nat
    }
}

pub proof fn lemma_repeat_ms(c: Seq<i64>, n: nat)
    ensures
        repeat_ms(c, n).len() == n,
        repeat_ms(c, n).count(c) == n,
        forall|d: Seq<i64>| d != c ==> repeat_ms(c, n).count(d) == 0,
    decreases n,
{
    if n > 0 {
        lemma_repeat_ms(c, (n - 1) as nat);
    }
}

pub proof fn lemma_pt_ms(p: Point)
    ensures
        pt_ms(p).len() == p.weight,
        pt_ms(p).count(p.coords@) == p.weight,
        forall|d: Seq<i64>| d != p.coords@ ==> pt_ms(p).count(d) == 0,
{
    lemma_repeat_ms(p.coords@, p.weight as nat);
}

/// The model's length is the total weight.
pub proof fn lemma_entries_ms_len(s: Seq<Point>)
    ensures
        entries_ms(s).len() == total_weight(s),
    decreases s.len(),
{
    if s.len() > 0 {
        lemma_entries_ms_len(s.drop_last());
        lemma_pt_ms(s.last());
    }
}

/// The multiplicity of a coordinate vector is the summed weight of the
/// entries carrying it.
pub open spec fn coord_weight(s: Seq<Point>, c: Seq<i64>) -> nat
    decreases s.len(),
{
    if s.len() == 0 {
        0
    } else {
        coord_weight(s.drop_last(), c) + (if s.last().coords@ == c {
            s.last().weight as nat
        } else {
            0
        })
    }
}

pub proof fn lemma_entries_ms_count(s: Seq<Point>, c: Seq<i64>)
    ensures
        entries_ms(s).count(c) == coord_weight(s, c),
    decreases s.len(),
{
    if s.len() > 0 {
        lemma_entries_ms_count(s.drop_last(), c);
        lemma_pt_ms(s.last());
    }
}

/// A coordinate is in the model exactly when some positive-weight entry
/// carries it.
pub proof fn lemma_entries_ms_contains(s: Seq<Point>, c: Seq<i64>)
    ensures
        entries_ms(s).count(c) > 0 <==> exists|j: int|
            0 <= j < s.len() && (#[trigger] s[j]).coords@ == c && s[j].weight > 0,
    decreases s.len(),
{
    if s.len() > 0 {
        lemma_entries_ms_contains(s.drop_last(), c);
        lemma_pt_ms(s.last());
        if entries_ms(s).count(c) > 0 {
            if s.last().coords@ == c && s.last().weight > 0 {
                assert(s[s.len() - 1].coords@ == c && s[s.len() - 1].weight > 0);
            } else {
                assert(entries_ms(s.drop_last()).count(c) > 0);
                let j = choose|j: int|
                    0 <= j < s.drop_last().len() && (#[trigger] s.drop_last()[j]).coords@ == c
                        && s.drop_last()[j].weight > 0;
                assert(s[j].coords@ == c && s[j].weight > 0);
            }
        }
        if exists|j: int| 0 <= j < s.len() && (#[trigger] s[j]).coords@ == c && s[j].weight > 0 {
            let j = choose|j: int|
                0 <= j < s.len() && (#[trigger] s[j]).coords@ == c && s[j].weight > 0;
            if j < s.len() - 1 {
                assert(s.drop_last()[j].coords@ == c && s.drop_last()[j].weight > 0);
            }
        }
    }
}

/// Number of entries carrying exactly the coordinates `c`.
pub open spec fn entry_count(s: Seq<Point>, c: Seq<i64>) -> nat
    decreases s.len(),
{
    if s.len() == 0 {
        0
    } else {
        entry_count(s.drop_last(), c) + (if s.last().coords@ == c {
            1nat
        } else {
            0nat
        })
    }
}

pub proof fn lemma_entry_count_exists(s: Seq<Point>, c: Seq<i64>)
    ensures
        entry_count(s, c) > 0 <==> exists|j: int| 0 <= j < s.len() && (#[trigger] s[j]).coords@ == c,
    decreases s.len(),
{
    if s.len() > 0 {
        lemma_entry_count_exists(s.drop_last(), c);
        if entry_count(s, c) > 0 {
            if s.last().coords@ == c {
                assert(s[s.len() - 1].coords@ == c);
            } else {
                let j = choose|j: int|
                    0 <= j < s.drop_last().len() && (#[trigger] s.drop_last()[j]).coords@ == c;
                assert(s[j].coords@ == c);
            }
        }
        if exists|j: int| 0 <= j < s.len() && (#[trigger] s[j]).coords@ == c {
            let j = choose|j: int| 0 <= j < s.len() && (#[trigger] s[j]).coords@ == c;
            if j < s.len() - 1 {
                assert(s.drop_last()[j].coords@ == c);
            }
        }
    }
}

/// Two distinct entries with equal coordinates force a count of two.
pub proof fn lemma_entry_count_two(s: Seq<Point>, j: int, k: int)
    requires
        0 <= j < k < s.len(),
        s[j].coords@ == s[k].coords@,
    ensures
        entry_count(s, s[j].coords@) >= 2,
    decreases s.len(),
{
    if k == s.len() - 1 {
        lemma_entry_count_exists(s.drop_last(), s[j].coords@);
        assert(s.drop_last()[j].coords@ == s[j].coords@);
    } else {
        assert(s.drop_last()[j] == s[j]);
        assert(s.drop_last()[k] == s[k]);
        lemma_entry_count_two(s.drop_last(), j, k);
    }
}

/// A bounded entry count means entries have pairwise distinct coordinates.
pub proof fn lemma_entry_count_distinct(s: Seq<Point>)
    requires
        forall|c: Seq<i64>| #[trigger] entry_count(s, c) <= 1,
    ensures
        forall|j: int, k: int|
            0 <= j < s.len() && 0 <= k < s.len() && j != k ==> (#[trigger] s[j]).coords@ != (
            #[trigger] s[k]).coords@,
{
    assert forall|j: int, k: int|
        0 <= j < s.len() && 0 <= k < s.len() && j != k implies (#[trigger] s[j]).coords@ != (
    #[trigger] s[k]).coords@ by {
        if s[j].coords@ == s[k].coords@ {
            if j < k {
                lemma_entry_count_two(s, j, k);
            } else {
                lemma_entry_count_two(s, k, j);
            }
        }
    }
}

pub proof fn lemma_entries_ms_push(s: Seq<Point>, p: Point)
    ensures
        entries_ms(s.push(p)) == entries_ms(s).add(pt_ms(p)),
        total_weight(s.push(p)) == total_weight(s) + p.weight,
        forall|c: Seq<i64>| #[trigger]
            entry_count(s.push(p), c) == entry_count(s, c) + (if p.coords@ == c {
                1nat
            } else {
                0nat
            }),
{
    assert(s.push(p).drop_last() =~= s);
}

pub proof fn lemma_entries_ms_update(s: Seq<Point>, i: int, p: Point)
    requires
        0 <= i < s.len(),
    ensures
        entries_ms(s.update(i, p)) =~= entries_ms(s).sub(pt_ms(s[i])).add(pt_ms(p)),
        total_weight(s.update(i, p)) + s[i].weight == total_weight(s) + p.weight,
        forall|c: Seq<i64>| #[trigger]
            entry_count(s.update(i, p), c) + (if s[i].coords@ == c {
                1nat
            } else {
                0nat
            }) == entry_count(s, c) + (if p.coords@ == c {
                1nat
            } else {
                0nat
            }),
    decreases s.len(),
{
    lemma_pt_ms(s[i]);
    lemma_pt_ms(p);
    if i == s.len() - 1 {
        assert(s.update(i, p).drop_last() =~= s.drop_last());
        assert(s.update(i, p).last() == p);
        assert forall|c: Seq<i64>| #[trigger]
            entry_count(s.update(i, p), c) + (if s[i].coords@ == c {
                1nat
            } else {
                0nat
            }) == entry_count(s, c) + (if p.coords@ == c {
                1nat
            } else {
                0nat
            }) by {
            assert(entry_count(s.update(i, p), c) == entry_count(s.drop_last(), c) + (
            if p.coords@ == c {
                1nat
            } else {
                0nat
            }));
            assert(entry_count(s, c) == entry_count(s.drop_last(), c) + (if s[i].coords@ == c {
                1nat
            } else {
                0nat
            }));
        }
        assert(entries_ms(s.update(i, p)) =~= entries_ms(s).sub(pt_ms(s[i])).add(pt_ms(p))) by {
            assert forall|v: Seq<i64>|
                entries_ms(s.update(i, p)).count(v) == entries_ms(s).sub(pt_ms(s[i])).add(
                    pt_ms(p),
                ).count(v) by {
                assert(entries_ms(s).count(v) == entries_ms(s.drop_last()).count(v) + pt_ms(
                    s.last(),
                ).count(v));
            }
        }
    } else {
        assert(s.drop_last()[i] == s[i]);
        assert(s.update(i, p).drop_last() =~= s.drop_last().update(i, p));
        assert(s.update(i, p).last() == s.last());
        lemma_entries_ms_update(s.drop_last(), i, p);
        lemma_entries_ms_count(s.drop_last(), s[i].coords@);
        lemma_coord_weight_entry(s.drop_last(), i);
        assert forall|c: Seq<i64>| #[trigger]
            entry_count(s.update(i, p), c) + (if s[i].coords@ == c {
                1nat
            } else {
                0nat
            }) == entry_count(s, c) + (if p.coords@ == c {
                1nat
            } else {
                0nat
            }) by {
            assert(entry_count(s.drop_last().update(i, p), c) + (if s.drop_last()[i].coords@ == c {
                1nat
            } else {
                0nat
            }) == entry_count(s.drop_last(), c) + (if p.coords@ == c {
                1nat
            } else {
                0nat
            }));
            assert(entry_count(s.update(i, p), c) == entry_count(s.drop_last().update(i, p), c) + (
            if s.last().coords@ == c {
                1nat
            } else {
                0nat
            }));
            assert(entry_count(s, c) == entry_count(s.drop_last(), c) + (if s.last().coords@ == c {
                1nat
            } else {
                0nat
            }));
        }
        assert(entries_ms(s.update(i, p)) =~= entries_ms(s).sub(pt_ms(s[i])).add(pt_ms(p))) by {
            assert forall|v: Seq<i64>|
                entries_ms(s.update(i, p)).count(v) == entries_ms(s).sub(pt_ms(s[i])).add(
                    pt_ms(p),
                ).count(v) by {
                assert(entries_ms(s.update(i, p)).count(v) == entries_ms(
                    s.drop_last().update(i, p),
                ).count(v) + pt_ms(s.last()).count(v));
                assert(entries_ms(s).count(v) == entries_ms(s.drop_last()).count(v) + pt_ms(
                    s.last(),
                ).count(v));
                if v == s[i].coords@ {
                    assert(entries_ms(s.drop_last()).count(v) >= s[i].weight);
                } else {
                    assert(pt_ms(s[i]).count(v) == 0);
                }
            }
        }
    }
}

/// Removing entry `i` by swapping in the last entry removes exactly that
/// entry's contribution from the model.
pub proof fn lemma_entries_ms_swap_remove(s: Seq<Point>, i: int)
    requires
        0 <= i < s.len(),
    ensures
        entries_ms(s.update(i, s.last()).drop_last()) =~= entries_ms(s).sub(pt_ms(s[i])),
        total_weight(s.update(i, s.last()).drop_last()) + s[i].weight == total_weight(s),
        forall|c: Seq<i64>| #[trigger]
            entry_count(s.update(i, s.last()).drop_last(), c) + (if s[i].coords@ == c {
                1nat
            } else {
                0nat
            }) == entry_count(s, c),
{
    lemma_pt_ms(s[i]);
    lemma_pt_ms(s.last());
    lemma_entries_ms_count(s, s[i].coords@);
    lemma_coord_weight_entry(s, i);
    lemma_entries_ms_count(s, s.last().coords@);
    lemma_coord_weight_entry(s, s.len() - 1);
    if i == s.len() - 1 {
        assert(s.update(i, s.last()) =~= s);
        assert forall|c: Seq<i64>| #[trigger]
            entry_count(s.update(i, s.last()).drop_last(), c) + (if s[i].coords@ == c {
                1nat
            } else {
                0nat
            }) == entry_count(s, c) by {
            assert(entry_count(s, c) == entry_count(s.drop_last(), c) + (if s.last().coords@ == c {
                1nat
            } else {
                0nat
            }));
        }
        assert(entries_ms(s) == entries_ms(s.drop_last()).add(pt_ms(s.last())));
        assert(entries_ms(s.update(i, s.last()).drop_last()) =~= entries_ms(s).sub(
            pt_ms(s[i]),
        )) by {
            assert forall|v: Seq<i64>|
                entries_ms(s.update(i, s.last()).drop_last()).count(v) == entries_ms(s).sub(
                    pt_ms(s[i]),
                ).count(v) by {
                assert(entries_ms(s).count(v) == entries_ms(s.drop_last()).count(v) + pt_ms(
                    s.last(),
                ).count(v));
            }
        }
    } else {
        lemma_entries_ms_update(s, i, s.last());
        let t = s.update(i, s.last());
        assert(entries_ms(t) == entries_ms(t.drop_last()).add(pt_ms(t.last())));
        assert(t.last() == s.last());
        assert forall|c: Seq<i64>| #[trigger]
            entry_count(t.drop_last(), c) + (if s[i].coords@ == c {
                1nat
            } else {
                0nat
            }) == entry_count(s, c) by {
            assert(entry_count(t, c) + (if s[i].coords@ == c {
                1nat
            } else {
                0nat
            }) == entry_count(s, c) + (if s.last().coords@ == c {
                1nat
            } else {
                0nat
            }));
            assert(entry_count(t, c) == entry_count(t.drop_last(), c) + (if t.last().coords@ == c {
                1nat
            } else {
                0nat
            }));
        }
        assert(entries_ms(t.drop_last()) =~= entries_ms(s).sub(pt_ms(s[i]))) by {
            assert forall|v: Seq<i64>|
                entries_ms(t.drop_last()).count(v) == entries_ms(s).sub(pt_ms(s[i])).count(
                    v,
                ) by {
                assert(entries_ms(t).count(v) == entries_ms(t.drop_last()).count(v) + pt_ms(
                    s.last(),
                ).count(v));
                assert(entries_ms(t).count(v) == entries_ms(s).sub(pt_ms(s[i])).add(
                    pt_ms(s.last()),
                ).count(v));
                if v == s[i].coords@ {
                    assert(entries_ms(s).count(v) >= s[i].weight);
                } else {
                    assert(pt_ms(s[i]).count(v) == 0);
                }
            }
        }
    }
}

pub proof fn lemma_entries_ms_concat(a: Seq<Point>, b: Seq<Point>)
    ensures
        entries_ms(a + b) =~= entries_ms(a).add(entries_ms(b)),
        total_weight(a + b) == total_weight(a) + total_weight(b),
        forall|c: Seq<i64>| #[trigger]
            entry_count(a + b, c) == entry_count(a, c) + entry_count(b, c),
    decreases b.len(),
{
    if b.len() == 0 {
        assert(a + b =~= a);
    } else {
        assert((a + b).drop_last() =~= a + b.drop_last());
        assert((a + b).last() == b.last());
        lemma_entries_ms_concat(a, b.drop_last());
        assert forall|c: Seq<i64>| #[trigger]
            entry_count(a + b, c) == entry_count(a, c) + entry_count(b, c) by {
            assert(entry_count(a + b, c) == entry_count(a + b.drop_last(), c) + (
            if b.last().coords@ == c {
                1nat
            } else {
                0nat
            }));
            assert(entry_count(a + b.drop_last(), c) == entry_count(a, c) + entry_count(
                b.drop_last(),
                c,
            ));
            assert(entry_count(b, c) == entry_count(b.drop_last(), c) + (if b.last().coords@ == c {
                1nat
            } else {
                0nat
            }));
        }
    }
}

pub proof fn lemma_entries_ms_take(s: Seq<Point>, i: int)
    requires
        0 <= i < s.len(),
    ensures
        entries_ms(s.take(i + 1)) == entries_ms(s.take(i)).add(pt_ms(s[i])),
        total_weight(s.take(i + 1)) == total_weight(s.take(i)) + s[i].weight,
        forall|c: Seq<i64>| #[trigger]
            entry_count(s.take(i + 1), c) == entry_count(s.take(i), c) + (if s[i].coords@ == c {
                1nat
            } else {
                0nat
            }),
{
    assert(s.take(i + 1).drop_last() =~= s.take(i));
    assert(s.take(i + 1).last() == s[i]);
}

/// Prefix entry counts never exceed those of the whole sequence.
pub proof fn lemma_entry_count_take_le(s: Seq<Point>, i: int, c: Seq<i64>)
    requires
        0 <= i <= s.len(),
    ensures
        entry_count(s.take(i), c) <= entry_count(s, c),
    decreases s.len() - i,
{
    if i == s.len() {
        assert(s.take(i) =~= s);
    } else {
        lemma_entries_ms_take(s, i);
        lemma_entry_count_take_le(s, i + 1, c);
    }
}

pub proof fn lemma_entries_ms_take_all(s: Seq<Point>)
    ensures
        entries_ms(s.take(s.len() as int)) == entries_ms(s),
        total_weight(s.take(s.len() as int)) == total_weight(s),
        forall|c: Seq<i64>| #[trigger]
            entry_count(s.take(s.len() as int), c) == entry_count(s, c),
{
    assert(s.take(s.len() as int) =~= s);
}

/// Inserting a coordinate into a point list and then removing it restores
/// the original contents: insert followed by remove of the same coordinate
/// is the identity on the model.
pub proof fn lemma_insert_then_remove(m: Multiset<Seq<i64>>, c: Seq<i64>)
    ensures
        m.insert(c).contains(c),
        m.insert(c).remove(c) =~= m,
{
}

/// An unordered collection of weighted points with pairwise distinct
/// coordinate vectors, all of one dimension.
pub struct PointList {
    pub entries: Vec<Point>,
}

impl View for PointList {
    type V = Multiset<Seq<i64>>;

    open spec fn view(&self) -> Multiset<Seq<i64>> {
        entries_ms(self.entries@)
    }
}

impl PointList {
    /// Structural invariant: positive weights, at most one entry per
    /// coordinate vector, and a total weight that fits the machine.
    pub open spec fn wf(&self) -> bool {
        &&& forall|j: int| 0 <= j < self.entries@.len() ==> (#[trigger] self.entries@[j]).weight >= 1
        &&& forall|c: Seq<i64>| #[trigger] entry_count(self.entries@, c) <= 1
        &&& total_weight(self.entries@) <= usize::MAX
    }

    /// All entries have dimension `d`.
    pub open spec fn dims_are(&self, d: int) -> bool {
        forall|j: int|
            0 <= j < self.entries@.len() ==> (#[trigger] self.entries@[j]).coords@.len() == d
    }

    pub fn new() -> (r: Self)
        ensures
            r.entries@.len() == 0,
            r@ =~= Multiset::empty(),
            r.wf(),
    {
        PointList { entries: Vec::new() }
    }

    pub fn with_points(points: Vec<Point>) -> (r: Self)
        ensures
            r.entries@ == points@,
    {
        PointList { entries: points }
    }

    /// Number of distinct entries (not the total weight).
    pub fn n_points(&self) -> (r: usize)
        ensures
            r == self.entries@.len(),
    {
        self.entries.len()
    }

    /// Total weight: the length of the model.
    pub fn weight(&self) -> (r: usize)
        requires
            total_weight(self.entries@) <= usize::MAX,
        ensures
            r == total_weight(self.entries@),
            r == self@.len(),
    {
        let ghost s = self.entries@;
        let mut sum: usize = 0;
        let mut i: usize = 0;
        proof {
            assert(s.take(0) =~= Seq::<Point>::empty());
        }
        while i < self.entries.len()
            invariant
                s == self.entries@,
                total_weight(s) <= usize::MAX,
                0 <= i <= s.len(),
                sum == total_weight(s.take(i as int)),
            decreases s.len() - i,
        {
            proof {
                lemma_entries_ms_take(s, i as int);
                lemma_weight_prefix_bound(s, i as int + 1);
            }
            sum = sum + self.entries[i].weight;
            i += 1;
        }
        proof {
            lemma_entries_ms_take_all(s);
            lemma_entries_ms_len(s);
        }
        sum
    }

    /// Looks up the entry holding exactly these coordinates.
    fn position_of(&self, coords: &Vec<i64>) -> (r: Option<usize>)
        ensures
            match r {
                Some(i) => 0 <= i < self.entries@.len() && self.entries@[i as int].coords@
                    == coords@,
                None => forall|j: int|
                    0 <= j < self.entries@.len() ==> (#[trigger] self.entries@[j]).coords@
                        != coords@,
            },
    {
        let mut i: usize = 0;
        while i < self.entries.len()
            invariant
                0 <= i <= self.entries@.len(),
                forall|j: int|
                    0 <= j < i ==> (#[trigger] self.entries@[j]).coords@ != coords@,
            decreases self.entries@.len() - i,
        {
            if coords_eq(&self.entries[i].coords, coords) {
                return Some(i);
            }
            i += 1;
        }
        None
    }

    /// Adds one occurrence of a coordinate vector: an existing entry's
    /// weight grows by one, otherwise a weight-one entry is appended.
    pub fn insert(&mut self, coords: Vec<i64>)
        requires
            old(self).wf(),
            old(self)@.len() < usize::MAX,
            forall|j: int|
                0 <= j < old(self).entries@.len() ==> (#[trigger] old(self).entries@[j]).coords@.len()
                    == coords@.len(),
        ensures
            final(self)@ =~= old(self)@.insert(coords@),
            final(self).wf(),
            final(self).dims_are(coords@.len() as int),
            final(self).entries@.len() == (if old(self)@.contains(coords@) {
                old(self).entries@.len()
            } else {
                old(self).entries@.len() + 1
            }),
    {
        let ghost s = self.entries@;
        proof {
            lemma_entries_ms_len(s);
            lemma_entries_ms_contains(s, coords@);
            lemma_entries_ms_count(s, coords@);
            lemma_entry_count_exists(s, coords@);
        }
        match self.position_of(&coords) {
            Some(i) => {
                proof {
                    lemma_weight_at_most_total(s, i as int);
                    lemma_coord_weight_entry(s, i as int);
                }
                let w: usize = self.entries[i].weight;
                let p = Point { coords, weight: w + 1 };
                proof {
                    lemma_entries_ms_update(s, i as int, p);
                    lemma_pt_ms(s[i as int]);
                    lemma_pt_ms(p);
                }
                self.entries.set(i, p);
                proof {
                    assert(self@ =~= old(self)@.insert(old(self).entries@[i as int].coords@));
                    lemma_entries_ms_len(self.entries@);
                    assert forall|c: Seq<i64>| #[trigger]
                        entry_count(self.entries@, c) <= 1 by {
                        assert(entry_count(s.update(i as int, p), c) + (
                        if s[i as int].coords@ == c {
                            1nat
                        } else {
                            0nat
                        }) == entry_count(s, c) + (if p.coords@ == c {
                            1nat
                        } else {
                            0nat
                        }));
                        assert(entry_count(s, c) <= 1);
                    }
                }
            },
            None => {
                let p = Point { coords, weight: 1 };
                proof {
                    lemma_entries_ms_push(s, p);
                    lemma_pt_ms(p);
                    assert(entries_ms(s.push(p)) =~= entries_ms(s).insert(p.coords@));
                }
                self.entries.push(p);
                proof {
                    lemma_entries_ms_len(self.entries@);
                    assert(entry_count(s, p.coords@) == 0);
                    assert forall|c: Seq<i64>| #[trigger]
                        entry_count(self.entries@, c) <= 1 by {
                        assert(entry_count(s.push(p), c) == entry_count(s, c) + (
                        if p.coords@ == c {
                            1nat
                        } else {
                            0nat
                        }));
                        assert(entry_count(s, c) <= 1);
                    }
                }
            },
        }
    }

    /// Removes one occurrence of a coordinate vector; a missing coordinate
    /// is a silent no-op.  An entry whose weight reaches zero is dropped by
    /// swapping in the last entry.
    pub fn remove(&mut self, coords: &Vec<i64>)
        requires
            old(self).wf(),
        ensures
            final(self)@ =~= (if old(self)@.contains(coords@) {
                old(self)@.remove(coords@)
            } else {
                old(self)@
            }),
            final(self).wf(),
            forall|d: int| old(self).dims_are(d) ==> final(self).dims_are(d),
            final(self).entries@.len() <= old(self).entries@.len(),
    {
        let ghost s = self.entries@;
        proof {
            lemma_entries_ms_contains(s, coords@);
        }
        match self.position_of(coords) {
            Some(i) => {
                let w: usize = self.entries[i].weight;
                proof {
                    lemma_entries_ms_count(s, coords@);
                    lemma_coord_weight_entry(s, i as int);
                }
                if w == 1 {
                    proof {
                        lemma_entries_ms_swap_remove(s, i as int);
                        lemma_pt_ms(s[i as int]);
                    }
                    self.entries.swap_remove(i);
                    proof {
                        assert(self@ =~= old(self)@.remove(coords@));
                        lemma_entries_ms_len(self.entries@);
                    }
                } else {
                    let c = copy_coords(&self.entries[i].coords);
                    let p2 = Point { coords: c, weight: w - 1 };
                    proof {
                        lemma_entries_ms_update(s, i as int, p2);
                        lemma_pt_ms(s[i as int]);
                        lemma_pt_ms(p2);
                    }
                    self.entries.set(i, p2);
                    proof {
                        assert(self@ =~= old(self)@.remove(coords@));
                        lemma_entries_ms_len(self.entries@);
                    }
                }
            },
            None => {},
        }
    }

    /// Moves the points lying inside `bb` into a returned list, keeping the
    /// points outside; full containment is used.
    pub fn split_off(&mut self, bb: &BoundingBox) -> (r: Self)
        requires
            old(self).wf(),
        ensures
            r@.add(final(self)@) =~= old(self)@,
            forall|c: Seq<i64>| r@.contains(c) ==> box_contains(bb@, c),
            forall|c: Seq<i64>| final(self)@.contains(c) ==> !box_contains(bb@, c),
            r.wf(),
            final(self).wf(),
            forall|d: int|
                #[trigger] old(self).dims_are(d) ==> r.dims_are(d) && final(self).dims_are(d),
            r.entries@.len() + final(self).entries@.len() == old(self).entries@.len(),
    {
        let ghost orig = self.entries@;
        let mut inside: Vec<Point> = Vec::new();
        let mut outside: Vec<Point> = Vec::new();
        proof {
            assert(orig.take(orig.len() as int) =~= orig);
        }
        while self.entries.len() > 0
            invariant
                self.entries@ == orig.take(self.entries@.len() as int),
                self.entries@.len() <= orig.len(),
                entries_ms(inside@).add(entries_ms(outside@)).add(entries_ms(self.entries@))
                    =~= entries_ms(orig),
                forall|c: Seq<i64>| #[trigger]
                    entry_count(inside@, c) + entry_count(outside@, c) + entry_count(
                        self.entries@,
                        c,
                    ) == entry_count(orig, c),
                total_weight(inside@) + total_weight(outside@) + total_weight(self.entries@)
                    == total_weight(orig),
                forall|j: int|
                    0 <= j < inside@.len() ==> box_contains(bb@, (#[trigger] inside@[j]).coords@),
                forall|j: int|
                    0 <= j < outside@.len() ==> !box_contains(bb@, (#[trigger] outside@[j]).coords@),
                forall|j: int| 0 <= j < inside@.len() ==> entry_from(orig, #[trigger] inside@[j]),
                forall|j: int| 0 <= j < outside@.len() ==> entry_from(orig, #[trigger] outside@[j]),
                inside@.len() + outside@.len() + self.entries@.len() == orig.len(),
            decreases self.entries@.len(),
        {
            let ghost pre = self.entries@;
            let ghost n = pre.len() as int;
            let p = match self.entries.pop() {
                Some(p) => p,
                None => {
                    proof {
                        assert(false);
                    }
                    Point { coords: Vec::new(), weight: 0 }
                },
            };
            proof {
                assert(pre.subrange(0, n - 1) =~= pre.drop_last());
                assert(pre.drop_last() =~= orig.take(n - 1));
                assert(p == orig[n - 1]);
                assert(entries_ms(pre) == entries_ms(pre.drop_last()).add(pt_ms(p)));
            }
            if bb.contains(&p.coords) {
                let ghost ivec = inside@;
                proof {
                    lemma_entries_ms_push(ivec, p);
                }
                inside.push(p);
                proof {
                    assert(entries_ms(inside@).add(entries_ms(outside@)).add(
                        entries_ms(self.entries@),
                    ) =~= entries_ms(orig));
                    assert forall|j: int| 0 <= j < inside@.len() implies entry_from(
                        orig,
                        #[trigger] inside@[j],
                    ) by {
                        if j == inside@.len() - 1 {
                            assert(inside@[j] == orig[n - 1]);
                        }
                    }
                }
            } else {
                let ghost ovec = outside@;
                proof {
                    lemma_entries_ms_push(ovec, p);
                }
                outside.push(p);
                proof {
                    assert(entries_ms(inside@).add(entries_ms(outside@)).add(
                        entries_ms(self.entries@),
                    ) =~= entries_ms(orig));
                    assert forall|j: int| 0 <= j < outside@.len() implies entry_from(
                        orig,
                        #[trigger] outside@[j],
                    ) by {
                        if j == outside@.len() - 1 {
                            assert(outside@[j] == orig[n - 1]);
                        }
                    }
                }
            }
        }
        self.entries = outside;
        let r = PointList { entries: inside };
        proof {
            assert(entries_ms(orig.take(0)) =~= Multiset::empty());
            assert forall|c: Seq<i64>| #[trigger] entry_count(r.entries@, c) <= 1 by {
                assert(entry_count(r.entries@, c) + entry_count(self.entries@, c) + entry_count(
                    orig.take(0),
                    c,
                ) == entry_count(orig, c));
                assert(entry_count(orig, c) <= 1);
            }
            assert forall|c: Seq<i64>| #[trigger] entry_count(self.entries@, c) <= 1 by {
                assert(entry_count(r.entries@, c) + entry_count(self.entries@, c) + entry_count(
                    orig.take(0),
                    c,
                ) == entry_count(orig, c));
                assert(entry_count(orig, c) <= 1);
            }
            assert(r@.add(self@) =~= entries_ms(orig));
            assert forall|c: Seq<i64>| r@.contains(c) implies box_contains(bb@, c) by {
                lemma_entries_ms_contains(r.entries@, c);
            }
            assert forall|c: Seq<i64>| self@.contains(c) implies !box_contains(bb@, c) by {
                lemma_entries_ms_contains(self.entries@, c);
            }
            assert forall|d: int| #[trigger]
                old(self).dims_are(d) implies r.dims_are(d) && self.dims_are(d) by {
                assert forall|j: int|
                    0 <= j < r.entries@.len() implies (#[trigger] r.entries@[j]).coords@.len()
                        == d by {
                    assert(entry_from(orig, r.entries@[j]));
                    let k = choose|k: int| 0 <= k < orig.len() && r.entries@[j] == orig[k];
                    assert(orig[k].coords@.len() == d);
                }
                assert forall|j: int|
                    0 <= j < self.entries@.len() implies (#[trigger] self.entries@[j]).coords@.len()
                        == d by {
                    assert(entry_from(orig, self.entries@[j]));
                    let k = choose|k: int| 0 <= k < orig.len() && self.entries@[j] == orig[k];
                    assert(orig[k].coords@.len() == d);
                }
            }
            assert forall|j: int| 0 <= j < r.entries@.len() implies (#[trigger] r.entries@[j]).weight
                >= 1 by {
                assert(entry_from(orig, r.entries@[j]));
                    let k = choose|k: int| 0 <= k < orig.len() && r.entries@[j] == orig[k];
            }
            assert forall|j: int|
                0 <= j < self.entries@.len() implies (#[trigger] self.entries@[j]).weight >= 1 by {
                assert(entry_from(orig, self.entries@[j]));
                    let k = choose|k: int| 0 <= k < orig.len() && self.entries@[j] == orig[k];
            }
            lemma_entries_ms_len(r.entries@);
            lemma_entries_ms_len(self.entries@);
            lemma_entries_ms_len(orig);
        }
        r
    }

    /// Splits the list into the points inside and outside `bb` along a
    /// single dimension.
    pub fn partition_at(self, bb: &BoundingBox, dim: usize) -> (r: (Self, Self))
        requires
            self.wf(),
            self.dims_are(bb@.len() as int),
            dim < bb@.len(),
        ensures
            r.0@.add(r.1@) =~= self@,
            forall|c: Seq<i64>| r.0@.contains(c) ==> box_contains_at(bb@, c, dim as int),
            forall|c: Seq<i64>| r.1@.contains(c) ==> !box_contains_at(bb@, c, dim as int),
            r.0.wf(),
            r.1.wf(),
            r.0.dims_are(bb@.len() as int),
            r.1.dims_are(bb@.len() as int),
            r.0.entries@.len() + r.1.entries@.len() == self.entries@.len(),
    {
        let ghost orig = self.entries@;
        let mut entries = self.entries;
        let mut inside: Vec<Point> = Vec::new();
        let mut outside: Vec<Point> = Vec::new();
        proof {
            assert(orig.take(orig.len() as int) =~= orig);
        }
        while entries.len() > 0
            invariant
                entries@ == orig.take(entries@.len() as int),
                entries@.len() <= orig.len(),
                forall|j: int|
                    0 <= j < orig.len() ==> (#[trigger] orig[j]).coords@.len() == bb@.len(),
                dim < bb@.len(),
                entries_ms(inside@).add(entries_ms(outside@)).add(entries_ms(entries@))
                    =~= entries_ms(orig),
                forall|c: Seq<i64>| #[trigger]
                    entry_count(inside@, c) + entry_count(outside@, c) + entry_count(entries@, c)
                        == entry_count(orig, c),
                total_weight(inside@) + total_weight(outside@) + total_weight(entries@)
                    == total_weight(orig),
                forall|j: int|
                    0 <= j < inside@.len() ==> box_contains_at(
                        bb@,
                        (#[trigger] inside@[j]).coords@,
                        dim as int,
                    ),
                forall|j: int|
                    0 <= j < outside@.len() ==> !box_contains_at(
                        bb@,
                        (#[trigger] outside@[j]).coords@,
                        dim as int,
                    ),
                forall|j: int| 0 <= j < inside@.len() ==> entry_from(orig, #[trigger] inside@[j]),
                forall|j: int| 0 <= j < outside@.len() ==> entry_from(orig, #[trigger] outside@[j]),
                inside@.len() + outside@.len() + entries@.len() == orig.len(),
            decreases entries@.len(),
        {
            let ghost pre = entries@;
            let ghost n = pre.len() as int;
            let p = match entries.pop() {
                Some(p) => p,
                None => {
                    proof {
                        assert(false);
                    }
                    Point { coords: Vec::new(), weight: 0 }
                },
            };
            proof {
                assert(pre.subrange(0, n - 1) =~= pre.drop_last());
                assert(pre.drop_last() =~= orig.take(n - 1));
                assert(p == orig[n - 1]);
                assert(entries_ms(pre) == entries_ms(pre.drop_last()).add(pt_ms(p)));
            }
            if bb.contains_at(&p.coords, dim) {
                let ghost ivec = inside@;
                proof {
                    lemma_entries_ms_push(ivec, p);
                }
                inside.push(p);
                proof {
                    assert(entries_ms(inside@).add(entries_ms(outside@)).add(entries_ms(entries@))
                        =~= entries_ms(orig));
                    assert forall|j: int| 0 <= j < inside@.len() implies entry_from(
                        orig,
                        #[trigger] inside@[j],
                    ) by {
                        if j == inside@.len() - 1 {
                            assert(inside@[j] == orig[n - 1]);
                        }
                    }
                }
            } else {
                let ghost ovec = outside@;
                proof {
                    lemma_entries_ms_push(ovec, p);
                }
                outside.push(p);
                proof {
                    assert(entries_ms(inside@).add(entries_ms(outside@)).add(entries_ms(entries@))
                        =~= entries_ms(orig));
                    assert forall|j: int| 0 <= j < outside@.len() implies entry_from(
                        orig,
                        #[trigger] outside@[j],
                    ) by {
                        if j == outside@.len() - 1 {
                            assert(outside@[j] == orig[n - 1]);
                        }
                    }
                }
            }
        }
        let a = PointList { entries: inside };
        let b = PointList { entries: outside };
        proof {
            assert(entries_ms(orig.take(0)) =~= Multiset::empty());
            assert forall|c: Seq<i64>| #[trigger] entry_count(a.entries@, c) <= 1 by {
                assert(entry_count(a.entries@, c) + entry_count(b.entries@, c) + entry_count(
                    orig.take(0),
                    c,
                ) == entry_count(orig, c));
                assert(entry_count(orig, c) <= 1);
            }
            assert forall|c: Seq<i64>| #[trigger] entry_count(b.entries@, c) <= 1 by {
                assert(entry_count(a.entries@, c) + entry_count(b.entries@, c) + entry_count(
                    orig.take(0),
                    c,
                ) == entry_count(orig, c));
                assert(entry_count(orig, c) <= 1);
            }
            assert(a@.add(b@) =~= entries_ms(orig));
            assert forall|c: Seq<i64>| a@.contains(c) implies box_contains_at(
                bb@,
                c,
                dim as int,
            ) by {
                lemma_entries_ms_contains(a.entries@, c);
            }
            assert forall|c: Seq<i64>| b@.contains(c) implies !box_contains_at(
                bb@,
                c,
                dim as int,
            ) by {
                lemma_entries_ms_contains(b.entries@, c);
            }
            assert forall|j: int| 0 <= j < a.entries@.len() implies (#[trigger] a.entries@[j]).weight
                >= 1 && a.entries@[j].coords@.len() == bb@.len() by {
                assert(entry_from(orig, a.entries@[j]));
                let k = choose|k: int| 0 <= k < orig.len() && a.entries@[j] == orig[k];
            }
            assert forall|j: int| 0 <= j < b.entries@.len() implies (#[trigger] b.entries@[j]).weight
                >= 1 && b.entries@[j].coords@.len() == bb@.len() by {
                assert(entry_from(orig, b.entries@[j]));
                let k = choose|k: int| 0 <= k < orig.len() && b.entries@[j] == orig[k];
            }
            lemma_entries_ms_len(a.entries@);
            lemma_entries_ms_len(b.entries@);
            lemma_entries_ms_len(orig);
        }
        (a, b)
    }

    /// Reduces the list to at most `k` entries: the weight of each excess
    /// entry is folded into the entry at its index modulo `k`, then the list
    /// is truncated.  The total weight is preserved and surviving entries
    /// keep their coordinates.
    pub fn sketch(&mut self, k: usize)
        requires
            old(self).wf(),
            k >= 1,
        ensures
            final(self)@.len() == old(self)@.len(),
            final(self).wf(),
            final(self).entries@.len() == (if old(self).entries@.len() <= k {
                old(self).entries@.len() as int
            } else {
                k as int
            }),
            forall|c: Seq<i64>| final(self)@.contains(c) ==> old(self)@.contains(c),
            forall|d: int| #[trigger] old(self).dims_are(d) ==> final(self).dims_are(d),
            forall|j: int|
                0 <= j < final(self).entries@.len() ==> (#[trigger] final(self).entries@[j]).coords@
                    == old(self).entries@[j].coords@,
            old(self).entries@.len() <= k ==> final(self).entries@ == old(self).entries@,
            old(self).entries@.len() > k ==> forall|i: int|
                0 <= i < k ==> (#[trigger] final(self).entries@[i]).weight == old(
                    self,
                ).entries@[i].weight + folded_extra(
                    old(self).entries@,
                    k as int,
                    i,
                    old(self).entries@.len() as int,
                ),
    {
        let ghost orig = self.entries@;
        let n: usize = self.entries.len();
        proof {
            lemma_entries_ms_len(orig);
        }
        if n <= k {
            return ;
        }
        let mut j: usize = k;
        while j < n
            invariant
                k >= 1,
                k < n,
                k <= j <= n,
                self.entries@.len() == n,
                n == orig.len(),
                total_weight(self.entries@) == total_weight(orig),
                total_weight(orig) <= usize::MAX,
                forall|i: int|
                    0 <= i < n ==> (#[trigger] self.entries@[i]).coords@ == orig[i].coords@,
                forall|c: Seq<i64>| #[trigger]
                    entry_count(self.entries@, c) == entry_count(orig, c),
                forall|i: int| 0 <= i < k ==> (#[trigger] self.entries@[i]).weight >= 1,
                forall|i: int|
                    0 <= i < k ==> (#[trigger] self.entries@[i]).weight == orig[i].weight
                        + folded_extra(orig, k as int, i, j as int),
                forall|i: int| k <= i < j ==> (#[trigger] self.entries@[i]).weight == 0,
                forall|i: int|
                    j <= i < n ==> (#[trigger] self.entries@[i]).weight == orig[i].weight,
            decreases n - j,
        {
            let ghost cur = self.entries@;
            let t: usize = j % k;
            let wj: usize = self.entries[j].weight;
            let wt: usize = self.entries[t].weight;
            proof {
                lemma_two_weights_le_total(cur, t as int, j as int);
            }
            let ct = copy_coords(&self.entries[t].coords);
            let pt2 = Point { coords: ct, weight: wt + wj };
            proof {
                lemma_entries_ms_update(cur, t as int, pt2);
            }
            self.entries.set(t, pt2);
            let ghost cur2 = self.entries@;
            let cj = copy_coords(&self.entries[j].coords);
            let pj = Point { coords: cj, weight: 0 };
            proof {
                lemma_entries_ms_update(cur2, j as int, pj);
            }
            self.entries.set(j, pj);
            proof {
                assert(cur2[t as int].coords@ == cur[t as int].coords@);
                assert(self.entries@[j as int].coords@ == cur2[j as int].coords@);
                assert(j as int % (k as int) == t as int);
                assert forall|i: int|
                    0 <= i < k implies (#[trigger] self.entries@[i]).weight == orig[i].weight
                    + folded_extra(orig, k as int, i, j as int + 1) by {
                    assert(folded_extra(orig, k as int, i, j as int + 1) == folded_extra(
                        orig,
                        k as int,
                        i,
                        j as int,
                    ) + (if (j as int) % (k as int) == i {
                        orig[j as int].weight as nat
                    } else {
                        0nat
                    }));
                }
                assert forall|c: Seq<i64>| #[trigger]
                    entry_count(self.entries@, c) == entry_count(orig, c) by {
                    assert(entry_count(cur2, c) == entry_count(cur, c));
                    assert(entry_count(self.entries@, c) == entry_count(cur2, c));
                    assert(entry_count(cur, c) == entry_count(orig, c));
                }
            }
            j += 1;
        }
        let ghost full = self.entries@;
        self.entries.truncate(k);
        proof {
            assert(self.entries@ == full.take(k as int));
            assert(full =~= full.take(k as int) + full.skip(k as int));
            lemma_entries_ms_concat(full.take(k as int), full.skip(k as int));
            lemma_zero_weights_total(full.skip(k as int));
            assert forall|c: Seq<i64>| #[trigger] entry_count(self.entries@, c) <= 1 by {
                lemma_entry_count_take_le(full, k as int, c);
            }
            lemma_entries_ms_len(self.entries@);
            lemma_entries_ms_len(orig);
            assert forall|c: Seq<i64>| self@.contains(c) implies old(self)@.contains(c) by {
                lemma_entries_ms_contains(self.entries@, c);
                lemma_entries_ms_contains(orig, c);
                let j2 = choose|j2: int|
                    0 <= j2 < self.entries@.len() && (#[trigger] self.entries@[j2]).coords@ == c
                        && self.entries@[j2].weight > 0;
                assert(orig[j2].coords@ == c && orig[j2].weight > 0);
            }
            assert forall|d: int| #[trigger] old(self).dims_are(d) implies self.dims_are(d) by {
                assert forall|j2: int|
                    0 <= j2 < self.entries@.len() implies (
                    #[trigger] self.entries@[j2]).coords@.len() == d by {
                    assert(self.entries@[j2].coords@ == orig[j2].coords@);
                    assert(orig[j2].coords@.len() == d);
                }
            }
        }
    }
}


/// The entry `e` occurs somewhere in `s`.
pub open spec fn entry_from(s: Seq<Point>, e: Point) -> bool {
    exists|k: int| 0 <= k < s.len() && e == #[trigger] s[k]
}

/// The weight that entries `k..upto` fold into slot `i` during a sketch:
/// the sum of the weights at positions congruent to `i` modulo `k`.
pub open spec fn folded_extra(s: Seq<Point>, k: int, i: int, upto: int) -> nat
    decreases upto - k,
{
    if upto <= k {
        0
    } else {
        folded_extra(s, k, i, upto - 1) + (if (upto - 1) % k == i {
            s[upto - 1].weight as nat
        } else {
            0nat
        })
    }
}

/// Weights of a sequence of entries that are all zero sum to zero.
pub proof fn lemma_zero_weights_total(s: Seq<Point>)
    requires
        forall|i: int| 0 <= i < s.len() ==> (#[trigger] s[i]).weight == 0,
    ensures
        total_weight(s) == 0,
    decreases s.len(),
{
    if s.len() > 0 {
        assert(forall|i: int|
            0 <= i < s.drop_last().len() ==> (#[trigger] s.drop_last()[i]).weight == 0);
        lemma_zero_weights_total(s.drop_last());
    }
}

/// Two distinct entries together weigh at most the total.
pub proof fn lemma_two_weights_le_total(s: Seq<Point>, t: int, j: int)
    requires
        0 <= t < j < s.len(),
        forall|i: int| 0 <= i < s.len() ==> (#[trigger] s[i]).weight >= 0,
    ensures
        s[t].weight + s[j].weight <= total_weight(s),
    decreases s.len(),
{
    if j == s.len() - 1 {
        lemma_weight_at_most_total(s.drop_last(), t);
        assert(s.drop_last()[t] == s[t]);
    } else {
        assert(s.drop_last()[t] == s[t]);
        assert(s.drop_last()[j] == s[j]);
        lemma_two_weights_le_total(s.drop_last(), t, j);
    }
}

/// Element-wise equality of two coordinate vectors.
pub fn coords_eq(a: &Vec<i64>, b: &Vec<i64>) -> (r: bool)
    ensures
        r == (a@ == b@),
{
    if a.len() != b.len() {
        proof {
            assert(a@ != b@);
        }
        return false;
    }
    let mut i: usize = 0;
    while i < a.len()
        invariant
            a@.len() == b@.len(),
            0 <= i <= a@.len(),
            forall|j: int| 0 <= j < i ==> a@[j] == b@[j],
        decreases a@.len() - i,
    {
        if a[i] != b[i] {
            return false;
        }
        i += 1;
    }
    proof {
        assert(a@ =~= b@);
    }
    true
}

/// An entry's weight contributes fully to the weight of its coordinates.
pub proof fn lemma_coord_weight_entry(s: Seq<Point>, i: int)
    requires
        0 <= i < s.len(),
    ensures
        coord_weight(s, s[i].coords@) >= s[i].weight,
    decreases s.len(),
{
    if i == s.len() - 1 {
    } else {
        assert(s.drop_last()[i] == s[i]);
        lemma_coord_weight_entry(s.drop_last(), i);
    }
}

/// With positive weights, there are at most as many entries as total weight.
pub proof fn lemma_entries_le_total(s: Seq<Point>)
    requires
        forall|j: int| 0 <= j < s.len() ==> (#[trigger] s[j]).weight >= 1,
    ensures
        s.len() <= total_weight(s),
    decreases s.len(),
{
    if s.len() > 0 {
        assert(forall|j: int|
            0 <= j < s.drop_last().len() ==> (#[trigger] s.drop_last()[j]).weight >= 1);
        lemma_entries_le_total(s.drop_last());
    }
}

/// The weight of one entry never exceeds the total.
pub proof fn lemma_weight_at_most_total(s: Seq<Point>, i: int)
    requires
        0 <= i < s.len(),
        forall|j: int| 0 <= j < s.len() ==> (#[trigger] s[j]).weight >= 0,
    ensures
        s[i].weight <= total_weight(s),
    decreases s.len(),
{
    if i == s.len() - 1 {
    } else {
        assert(s.drop_last()[i] == s[i]);
        lemma_weight_at_most_total(s.drop_last(), i);
    }
}

/// A prefix weighs at most the whole.
pub proof fn lemma_weight_prefix_bound(s: Seq<Point>, i: int)
    requires
        0 <= i <= s.len(),
    ensures
        total_weight(s.take(i)) <= total_weight(s),
    decreases s.len() - i,
{
    if i == s.len() {
        assert(s.take(i) =~= s);
    } else {
        lemma_entries_ms_take(s, i);
        lemma_weight_prefix_bound(s, i + 1);
    }
}

} // verus!
