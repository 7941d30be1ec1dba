//! A classical reservoir of fixed capacity over a point stream.
//!
//! Until the reservoir fills, every item enters.  From then on, item `i`
//! (counting from one) replaces a uniformly chosen slot with probability
//! `r / i`, and is skipped otherwise.
use vstd::prelude::*;

use crate::rng::gen_range_u64;
use crate::rng::rng_from_entropy;
use crate::tree::rows_of;

verus! {

/// What the reservoir did with an arriving item; a replacement hands the
/// displaced point back.
pub enum ReservoirUpdate {
    Skip,
    Insert,
    Replace(Vec<i64>),
}

/// A uniform sample of at most `r` points from the stream seen so far.
pub struct Reservoir {
    pub r: usize,
    pub i: usize,
    pub buf: Vec<Vec<i64>>,
    pub rng: rand::rngs::StdRng,
}

impl Reservoir {
    pub open spec fn wf(&self) -> bool {
        self.buf@.len() == (if self.i <= self.r {
            self.i as int
        } else {
            self.r as int
        })
    }

    pub fn new(r: usize) -> (res: Self)
        ensures
            res.r == r,
            res.i == 0,
            res.buf@.len() == 0,
            res.wf(),
    {
        Reservoir { r, i: 0, buf: Vec::new(), rng: rng_from_entropy() }
    }

    /// Accepts item `i + 1` of the stream: an insertion while filling;
    /// afterwards either a skip, or the replacement of some slot, whose
    /// previous occupant is returned.
    pub fn insert(&mut self, item: Vec<i64>) -> (u: ReservoirUpdate)
        requires
            old(self).wf(),
            old(self).i < usize::MAX,
        ensures
            final(self).wf(),
            final(self).r == old(self).r,
            final(self).i == old(self).i + 1,
            old(self).buf@.len() < old(self).r ==> u is Insert && rows_of(final(self).buf@)
                =~= rows_of(old(self).buf@).push(item@),
            old(self).buf@.len() >= old(self).r ==> match u {
                ReservoirUpdate::Insert => false,
                ReservoirUpdate::Skip => final(self).buf@ == old(self).buf@,
                ReservoirUpdate::Replace(evicted) => exists|j: int|
                    0 <= j < old(self).r && evicted@ == (#[trigger] old(self).buf@[j])@ && rows_of(
                        final(self).buf@,
                    ) =~= rows_of(old(self).buf@).update(j, item@),
            },
    {
        self.i = self.i + 1;
        if self.buf.len() < self.r {
            self.buf.push(item);
            proof {
                assert(rows_of(self.buf@) =~= rows_of(old(self).buf@).push(item@));
            }
            ReservoirUpdate::Insert
        } else {
            let j64: u64 = gen_range_u64(&mut self.rng, 0, self.i as u64);
            let j: usize = j64 as usize;
            if j < self.r {
                let mut tmp = item;
                let slot = &mut self.buf[j];
                core::mem::swap(&mut tmp, slot);
                proof {
                    assert(rows_of(self.buf@) =~= rows_of(old(self).buf@).update(
                        j as int,
                        old(self).buf@[j as int]@,
                    ).update(j as int, self.buf@[j as int]@));
                    assert(rows_of(self.buf@) =~= rows_of(old(self).buf@).update(
                        j as int,
                        self.buf@[j as int]@,
                    ));
                }
                ReservoirUpdate::Replace(tmp)
            } else {
                ReservoirUpdate::Skip
            }
        }
    }
}

} // verus!
