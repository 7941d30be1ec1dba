//! A weighted reservoir taking one bounded sample from many concurrent
//! streams.
//!
//! Every insertion draws a key; the sample holds the points whose keys are
//! the `n` smallest drawn so far, sorted ascending.  The global cutoff `u`
//! is the largest retained key once the sample is full, and each machine
//! remembers the cutoff it last saw, so machines whose draws all exceed it
//! can skip coordination cheaply.
use vstd::prelude::*;
use vstd::multiset::Multiset;

use crate::rng::gen_range_u64;
use crate::rng::rng_from_entropy;

verus! {

broadcast use vstd::multiset::group_multiset_axioms;

/// The multiset of keys held by the sample.
pub open spec fn keys_ms(s: Seq<(Vec<i64>, u64)>) -> Multiset<u64>
    decreases s.len(),
{
    if s.len() == 0 {
        Multiset::empty()
    } else {
        keys_ms(s.drop_last()).insert(s.last().1)
    }
}

pub proof fn lemma_keys_ms_insert(s: Seq<(Vec<i64>, u64)>, pos: int, e: (Vec<i64>, u64))
    requires
        0 <= pos <= s.len(),
    ensures
        keys_ms(s.insert(pos, e)) =~= keys_ms(s).insert(e.1),
    decreases s.len(),
{
    if pos == s.len() {
        assert(s.insert(pos, e).drop_last() =~= s);
    } else {
        assert(s.insert(pos, e).drop_last() =~= s.drop_last().insert(pos, e));
        assert(s.insert(pos, e).last() == s.last());
        lemma_keys_ms_insert(s.drop_last(), pos, e);
    }
}

/// A bounded weighted reservoir over `machines` concurrent streams.
pub struct ParStreamSampler {
    pub us: Vec<u64>,
    pub u: u64,
    pub sample: Vec<(Vec<i64>, u64)>,
    pub n: usize,
    pub rng: rand::rngs::StdRng,
    pub drawn: Ghost<Multiset<u64>>,
}

impl ParStreamSampler {
    /// The sampler's invariant.  The sample is sorted by key, bounded by
    /// `n`, its keys were all drawn, every retained key is at most the
    /// cutoff `u`, every drawn key not retained is at least `u`, and every
    /// per-machine bound is at least `u`.
    pub open spec fn wf(&self) -> bool {
        &&& self.n >= 1
        &&& self.sample@.len() <= self.n
        &&& forall|i: int, j: int|
            0 <= i < j < self.sample@.len() ==> (#[trigger] self.sample@[i]).1 <= (
            #[trigger] self.sample@[j]).1
        &&& keys_ms(self.sample@).subset_of(self.drawn@)
        &&& forall|i: int| 0 <= i < self.sample@.len() ==> (#[trigger] self.sample@[i]).1 <= self.u
        &&& forall|k: u64|
            self.drawn@.count(k) > keys_ms(self.sample@).count(k) ==> k >= self.u
        &&& forall|i: int| 0 <= i < self.us@.len() ==> (#[trigger] self.us@[i]) >= self.u
        &&& forall|i: int, j: int|
            0 <= i < self.sample@.len() && 0 <= j < self.sample@.len() ==> (
            #[trigger] self.sample@[i]).0@.len() == (#[trigger] self.sample@[j]).0@.len()
    }

    /// An empty sampler for `machines` streams, holding at most `n` points.
    pub fn new(machines: usize, n: usize) -> (r: Self)
        requires
            n >= 1,
        ensures
            r.wf(),
            r.us@.len() == machines,
            r.n == n,
            r.sample@.len() == 0,
            r.drawn@ =~= Multiset::empty(),
    {
        let mut us: Vec<u64> = Vec::new();
        let mut i: usize = 0;
        while i < machines
            invariant
                0 <= i <= machines,
                us@.len() == i,
                forall|j: int| 0 <= j < i ==> (#[trigger] us@[j]) == u64::MAX,
            decreases machines - i,
        {
            us.push(u64::MAX);
            i += 1;
        }
        ParStreamSampler {
            us,
            u: u64::MAX,
            sample: Vec::new(),
            n,
            rng: rng_from_entropy(),
            drawn: Ghost(Multiset::empty()),
        }
    }

    /// Offers one point from machine `m`: a key is drawn, and the point is
    /// retained exactly when the key is among the `n` smallest seen.
    /// Machines whose bound exceeds the draw are updated cheaply.
    pub fn insert(&mut self, m: usize, point: &Vec<i64>)
        requires
            old(self).wf(),
            m < old(self).us@.len(),
            forall|i: int|
                0 <= i < old(self).sample@.len() ==> (#[trigger] old(self).sample@[i]).0@.len()
                    == point@.len(),
        ensures
            final(self).wf(),
            final(self).us@.len() == old(self).us@.len(),
            final(self).n == old(self).n,
            exists|w: u64| final(self).drawn@ =~= old(self).drawn@.insert(w),
            final(self).drawn@.len() == old(self).drawn@.len() + 1,
            final(self).u <= old(self).u,
            forall|i: int|
                0 <= i < old(self).us@.len() && i != m ==> #[trigger] final(self).us@[i] == old(
                    self,
                ).us@[i],
            final(self).us@[m as int] == old(self).us@[m as int] || final(self).us@[m as int]
                == final(self).u,
            forall|i: int|
                0 <= i < final(self).sample@.len() ==> (#[trigger] final(self).sample@[i]).0@.len()
                    == point@.len(),
    {
        let w: u64 = gen_range_u64(&mut self.rng, 0, u64::MAX);
        proof {
            self.drawn@ = self.drawn@.insert(w);
        }
        if w >= self.us[m] {
            proof {
                assert(self.drawn@ =~= old(self).drawn@.insert(w));
                assert(self.us@[m as int] >= self.u);
                assert(keys_ms(self.sample@).subset_of(self.drawn@)) by {
                    assert forall|k2: u64|
                        keys_ms(self.sample@).count(k2) <= self.drawn@.count(k2) by {
                        assert(keys_ms(self.sample@).count(k2) <= old(self).drawn@.count(k2));
                    }
                }

                assert forall|k: u64|
                    self.drawn@.count(k) > keys_ms(self.sample@).count(k) implies k
                    >= self.u by {
                    if k != w {
                        assert(old(self).drawn@.count(k) > keys_ms(self.sample@).count(k));
                    }
                }
            }
            return ;
        }
        if w >= self.u {
            let cap = self.u;
            let slot = &mut self.us[m];
            *slot = cap;
            proof {
                assert(self.drawn@ =~= old(self).drawn@.insert(w));
                assert(keys_ms(self.sample@).subset_of(self.drawn@)) by {
                    assert forall|k2: u64|
                        keys_ms(self.sample@).count(k2) <= self.drawn@.count(k2) by {
                        assert(keys_ms(self.sample@).count(k2) <= old(self).drawn@.count(k2));
                    }
                }
                assert forall|k: u64|
                    self.drawn@.count(k) > keys_ms(self.sample@).count(k) implies k
                    >= self.u by {
                    if k != w {
                        assert(old(self).drawn@.count(k) > keys_ms(self.sample@).count(k));
                    }
                }
            }
            return ;
        }
        let pos = self.sorted_position(w);
        let item = (crate::copy_coords(point), w);
        let ghost pre = self.sample@;
        self.sample.insert(pos, item);
        proof {
            lemma_keys_ms_insert(pre, pos as int, item);
        }
        if self.sample.len() > self.n {
            let ghost full = self.sample@;
            let popped = match self.sample.pop() {
                Option::Some(e) => e,
                Option::None => {
                    proof {
                        assert(false);
                    }
                    (Vec::new(), 0u64)
                },
            };
            proof {
                assert(full.subrange(0, full.len() - 1) =~= full.drop_last());
                assert(keys_ms(full) == keys_ms(self.sample@).insert(popped.1));
            }
            let last_idx = self.sample.len() - 1;
            let new_u = self.sample[last_idx].1;
            self.u = new_u;
            let slot = &mut self.us[m];
            *slot = new_u;
            proof {
                assert forall|k: u64|
                    self.drawn@.count(k) > keys_ms(self.sample@).count(k) implies k >= self.u by {
                    if k == popped.1 {
                        assert(self.sample@[self.sample@.len() - 1].1 <= popped.1);
                    } else if old(self).drawn@.count(k) > keys_ms(pre).count(k) {
                        assert(k >= old(self).u);
                        assert(self.u <= old(self).u);
                    } else {
                        assert(keys_ms(full).count(k) == keys_ms(pre).count(k) + (if k == w {
                            1int
                        } else {
                            0int
                        }));
                        assert(keys_ms(full).count(k) == keys_ms(self.sample@).count(k) + (
                        if k == popped.1 {
                            1int
                        } else {
                            0int
                        }));
                        assert(self.drawn@.count(k) == old(self).drawn@.count(k) + (if k == w {
                            1int
                        } else {
                            0int
                        }));
                        assert(false);
                    }
                }
                assert(keys_ms(self.sample@).subset_of(self.drawn@)) by {
                    assert forall|k2: u64|
                        keys_ms(self.sample@).count(k2) <= self.drawn@.count(k2) by {
                        assert(keys_ms(pre).count(k2) <= old(self).drawn@.count(k2));
                        assert(keys_ms(full).count(k2) == keys_ms(self.sample@).count(k2) + (
                        if k2 == popped.1 {
                            1int
                        } else {
                            0int
                        }));
                        assert(keys_ms(full).count(k2) == keys_ms(pre).count(k2) + (if k2 == w {
                            1int
                        } else {
                            0int
                        }));
                    }
                }
                assert(self.drawn@ =~= old(self).drawn@.insert(w));
            }
        } else {
            let cap = self.u;
            let slot = &mut self.us[m];
            *slot = cap;
            proof {
                assert forall|k: u64|
                    self.drawn@.count(k) > keys_ms(self.sample@).count(k) implies k >= self.u by {
                    assert(old(self).drawn@.count(k) > keys_ms(pre).count(k));
                }
                assert(keys_ms(self.sample@).subset_of(self.drawn@)) by {
                    assert forall|k2: u64|
                        keys_ms(self.sample@).count(k2) <= self.drawn@.count(k2) by {
                        assert(keys_ms(pre).count(k2) <= old(self).drawn@.count(k2));
                        assert(keys_ms(self.sample@).count(k2) == keys_ms(pre).count(k2) + (
                        if k2 == w {
                            1int
                        } else {
                            0int
                        }));
                    }
                }
                assert(self.drawn@ =~= old(self).drawn@.insert(w));
            }
        }
    }

    /// The slot a key sorts into: everything before it is at most the key,
    /// everything from it on is strictly greater.
    fn sorted_position(&self, w: u64) -> (pos: usize)
        requires
            forall|i: int, j: int|
                0 <= i < j < self.sample@.len() ==> (#[trigger] self.sample@[i]).1 <= (
                #[trigger] self.sample@[j]).1,
        ensures
            pos <= self.sample@.len(),
            forall|i: int| 0 <= i < pos ==> (#[trigger] self.sample@[i]).1 <= w,
            forall|i: int| pos <= i < self.sample@.len() ==> (#[trigger] self.sample@[i]).1 > w,
    {
        let mut pos: usize = 0;
        while pos < self.sample.len()
            invariant
                forall|i: int, j: int|
                    0 <= i < j < self.sample@.len() ==> (#[trigger] self.sample@[i]).1 <= (
                    #[trigger] self.sample@[j]).1,
                0 <= pos <= self.sample@.len(),
                forall|i: int| 0 <= i < pos ==> (#[trigger] self.sample@[i]).1 <= w,
            decreases self.sample@.len() - pos,
        {
            if self.sample[pos].1 > w {
                return pos;
            }
            pos += 1;
        }
        pos
    }

    /// The retained points, in ascending key order; all rows share one
    /// dimension, so the result reads as a matrix.
    pub fn query(&self) -> (r: Vec<Vec<i64>>)
        requires
            self.wf(),
        ensures
            r@.len() == self.sample@.len(),
            forall|i: int| 0 <= i < r@.len() ==> (#[trigger] r@[i])@ == self.sample@[i].0@,
            forall|i: int, j: int|
                0 <= i < r@.len() && 0 <= j < r@.len() ==> (#[trigger] r@[i])@.len() == (
                #[trigger] r@[j])@.len(),
    {
        let mut r: Vec<Vec<i64>> = Vec::new();
        let mut i: usize = 0;
        while i < self.sample.len()
            invariant
                0 <= i <= self.sample@.len(),
                r@.len() == i,
                forall|j: int| 0 <= j < i ==> (#[trigger] r@[j])@ == self.sample@[j].0@,
            decreases self.sample@.len() - i,
        {
            let c = crate::copy_coords(&self.sample[i].0);
            r.push(c);
            i += 1;
        }
        r
    }
}

/// The sample is always a set of minimal keys: it never exceeds its bound,
/// and every retained key is at most every drawn key that is not retained
/// (counting multiplicity).
pub proof fn lemma_sample_minimal(s: &ParStreamSampler)
    requires
        s.wf(),
    ensures
        s.sample@.len() <= s.n,
        forall|a: int, k: u64|
            #![trigger s.sample@[a], s.drawn@.count(k)]
            0 <= a < s.sample@.len() && s.drawn@.count(k) > keys_ms(s.sample@).count(k)
                ==> s.sample@[a].1 <= k,
{
}

} // verus!
