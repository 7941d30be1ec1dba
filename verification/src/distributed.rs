//! Building blocks of the two distributed protocols.
//!
//! Both protocols partition the source into per-machine shards carrying
//! global indices, build forests over shards or a global sample, and keep
//! the lowest-scoring candidates.  Score evaluation to a real number stays
//! with the caller; every decision here works over order-preserving keys.
use vstd::prelude::*;

use crate::bounding_box::box_contains;
use crate::config::Config;
use crate::forest::ForestScore;
use crate::forest::RandShiftForest;
use crate::metric::k_smallest;
use crate::metric::lex_lt;
use crate::rng::choose_multiple_indexed;
use crate::rng::gen_range_u64;
use crate::rng::indexed_point_in;
use crate::tree::seq_add;

verus! {

broadcast use vstd::multiset::group_multiset_axioms;

/// Concatenation of the shards, in shard order.
pub open spec fn shards_flat(shards: Seq<Vec<(usize, Vec<i64>)>>) -> Seq<(usize, Vec<i64>)>
    decreases shards.len(),
{
    if shards.len() == 0 {
        Seq::empty()
    } else {
        shards_flat(shards.drop_last()) + shards.last()@
    }
}

/// Splits the source into `n_machines` contiguous shards at sorted random
/// cut points; every point keeps its global index, and the concatenation
/// of the shards is exactly the enumerated source.
pub fn distribute(
    points: &Vec<Vec<i64>>,
    n_machines: usize,
    rng: &mut rand::rngs::StdRng,
) -> (r: Vec<Vec<(usize, Vec<i64>)>>)
    requires
        n_machines >= 1,
    ensures
        r@.len() == n_machines,
        shards_flat(r@).len() == points@.len(),
        forall|i: int|
            0 <= i < points@.len() ==> (#[trigger] shards_flat(r@)[i]).0 == i && shards_flat(
                r@,
            )[i].1@ == points@[i]@,
{
    let n = points.len();
    let mut cuts: Vec<usize> = Vec::new();
    let mut c: usize = 0;
    while c < n_machines - 1
        invariant
            0 <= c <= n_machines - 1,
            cuts@.len() == c,
            forall|j: int| 0 <= j < c ==> (#[trigger] cuts@[j]) <= n,
        decreases n_machines - 1 - c,
    {
        if n == 0 {
            cuts.push(0);
        } else {
            let v = gen_range_u64(rng, 0, n as u64);
            cuts.push(v as usize);
        }
        c += 1;
    }
    sort_cuts(&mut cuts);
    let ghost cuts_seq = cuts@;
    let mut shards: Vec<Vec<(usize, Vec<i64>)>> = Vec::new();
    let mut start: usize = 0;
    let mut k: usize = 0;
    while k < n_machines
        invariant
            n == points@.len(),
            n_machines >= 1,
            cuts@ == cuts_seq,
            cuts@.len() == n_machines - 1,
            0 <= k <= n_machines,
            shards@.len() == k,
            start <= n,
            k == n_machines ==> start == n,
            shards_flat(shards@).len() == start,
            forall|i: int|
                0 <= i < start ==> (#[trigger] shards_flat(shards@)[i]).0 == i && shards_flat(
                    shards@,
                )[i].1@ == points@[i]@,
        decreases n_machines - k,
    {
        let stop: usize = if k == n_machines - 1 {
            n
        } else {
            let cutv = cuts[k];
            if cutv < start {
                start
            } else if cutv > n {
                n
            } else {
                cutv
            }
        };
        let mut shard: Vec<(usize, Vec<i64>)> = Vec::new();
        let mut i: usize = start;
        while i < stop
            invariant
                n == points@.len(),
                start <= i <= stop,
                stop <= n,
                shard@.len() == i - start,
                forall|x: int|
                    0 <= x < shard@.len() ==> (#[trigger] shard@[x]).0 == start + x
                        && shard@[x].1@ == points@[start + x]@,
            decreases stop - i,
        {
            let coords = crate::copy_coords(&points[i]);
            shard.push((i, coords));
            i += 1;
        }
        proof {
            assert(shards_flat(shards@.push(shard)) == shards_flat(shards@) + shard@) by {
                assert(shards@.push(shard).drop_last() =~= shards@);
            }
        }
        shards.push(shard);
        start = stop;
        k += 1;
    }
    shards
}

/// Sorts cut points ascending in place; only the ordering and the value
/// bounds matter, since the cuts are random draws.
fn sort_cuts(cuts: &mut Vec<usize>)
    ensures
        final(cuts)@.len() == old(cuts)@.len(),
        forall|a: int, b: int|
            0 <= a < b < final(cuts)@.len() ==> (#[trigger] final(cuts)@[a])
                <= (#[trigger] final(cuts)@[b]),
{
    let n = cuts.len();
    let mut i: usize = 1;
    while i < n
        invariant
            n == cuts@.len(),
            1 <= i <= n || n == 0,
            forall|a: int, b: int|
                0 <= a < b < i ==> (#[trigger] cuts@[a]) <= (#[trigger] cuts@[b]),
        decreases n - i,
    {
        let mut j: usize = i;
        while j > 0 && cuts[j - 1] > cuts[j]
            invariant
                n == cuts@.len(),
                0 <= j <= i < n,
                forall|a: int, b: int|
                    0 <= a < b <= i && b != j ==> (#[trigger] cuts@[a]) <= (#[trigger] cuts@[b]),
                forall|b: int| j < b <= i ==> cuts@[j as int] <= (#[trigger] cuts@[b]),
            decreases j,
        {
            let a = cuts[j - 1];
            let b = cuts[j];
            cuts.set(j - 1, b);
            cuts.set(j, a);
            j -= 1;
        }
        i += 1;
    }
}

/// `x` is the shifted copy, under `shift`, of some point of the shard.
pub open spec fn shard_shifted_member(
    shard: Seq<(usize, Vec<i64>)>,
    shift: Seq<i64>,
    x: Seq<i64>,
) -> bool {
    exists|j: int| 0 <= j < shard.len() && x == seq_add((#[trigger] shard[j]).1@, shift)
}

/// Builds a shard's local forest: each tree receives its own uniform
/// sample of `sample_size` shard points, drawn without replacement, so a
/// tree holds nothing but shifted copies of shard points.
pub fn build_shard_forest(
    cfg: &Config,
    shard: &Vec<(usize, Vec<i64>)>,
    sample_size: usize,
    rng: &mut rand::rngs::StdRng,
) -> (f: RandShiftForest)
    requires
        cfg.wf(),
        cfg.granularity < usize::MAX,
        forall|j: int| 0 <= j < shard@.len() ==> box_contains(cfg.bb@, ((#[trigger] shard@[j]).1)@),
    ensures
        f.wf(),
        f.bb@ == cfg.bb@,
        f.trees@.len() == cfg.n_trees,
        forall|t: int|
            0 <= t < f.trees@.len() ==> (#[trigger] f.trees@[t]).points().len() == (if sample_size
                <= shard@.len() {
                sample_size as int
            } else {
                shard@.len() as int
            }),
        forall|t: int, x: Seq<i64>|
            #![trigger f.trees@[t].points().contains(x)]
            0 <= t < f.trees@.len() && f.trees@[t].points().contains(x) ==> shard_shifted_member(
                shard@,
                f.trees@[t].shift@,
                x,
            ),
{
    let mut f = RandShiftForest::from_config(cfg);
    let n_trees = f.n_trees();
    let ghost m = (if sample_size <= shard@.len() {
        sample_size as int
    } else {
        shard@.len() as int
    });
    let mut t: usize = 0;
    while t < n_trees
        invariant
            cfg.wf(),
            forall|j: int|
                0 <= j < shard@.len() ==> box_contains(cfg.bb@, ((#[trigger] shard@[j]).1)@),
            f.wf(),
            f.bb@ == cfg.bb@,
            n_trees == f.trees@.len(),
            m == (if sample_size <= shard@.len() {
                sample_size as int
            } else {
                shard@.len() as int
            }),
            m <= shard@.len(),
            0 <= t <= n_trees,
            forall|x: int| 0 <= x < t ==> (#[trigger] f.trees@[x]).points().len() == m,
            forall|x: int| t <= x < n_trees ==> (#[trigger] f.trees@[x]).points().len() == 0,
            forall|tt: int, x: Seq<i64>|
                #![trigger f.trees@[tt].points().contains(x)]
                0 <= tt < n_trees && f.trees@[tt].points().contains(x) ==> shard_shifted_member(
                    shard@,
                    f.trees@[tt].shift@,
                    x,
                ),
        decreases n_trees - t,
    {
        let sampled = choose_multiple_indexed(rng, shard, sample_size);
        let mut e: usize = 0;
        while e < sampled.len()
            invariant
                cfg.wf(),
                forall|j: int|
                    0 <= j < shard@.len() ==> box_contains(cfg.bb@, ((#[trigger] shard@[j]).1)@),
                forall|j: int|
                    0 <= j < sampled@.len() ==> indexed_point_in(shard@, #[trigger] sampled@[j]),
                f.wf(),
                f.bb@ == cfg.bb@,
                n_trees == f.trees@.len(),
                t < n_trees,
                sampled@.len() == m,
                m <= shard@.len(),
                0 <= e <= sampled@.len(),
                forall|x: int| 0 <= x < t ==> (#[trigger] f.trees@[x]).points().len() == m,
                forall|x: int| t < x < n_trees ==> (#[trigger] f.trees@[x]).points().len() == 0,
                f.trees@[t as int].points().len() == e,
                forall|tt: int, x: Seq<i64>|
                    #![trigger f.trees@[tt].points().contains(x)]
                    0 <= tt < n_trees && f.trees@[tt].points().contains(x)
                        ==> shard_shifted_member(shard@, f.trees@[tt].shift@, x),
            decreases sampled@.len() - e,
        {
            proof {
                assert(indexed_point_in(shard@, sampled@[e as int]));
                let j = choose|j: int|
                    0 <= j < shard@.len() && (#[trigger] shard@[j]).0 == sampled@[e as int].0
                        && shard@[j].1@ == sampled@[e as int].1@;
                assert(box_contains(cfg.bb@, (sampled@[e as int].1)@));
                assert(f.trees@[t as int].points().len() < usize::MAX);
            }
            let ghost fpre = f;
            f.insert_tree(t, &sampled[e].1);
            proof {
                assert forall|tt: int, x: Seq<i64>|
                    #![trigger f.trees@[tt].points().contains(x)]
                    0 <= tt < n_trees && f.trees@[tt].points().contains(
                        x,
                    ) implies shard_shifted_member(shard@, f.trees@[tt].shift@, x) by {
                    if tt == t && !fpre.trees@[tt].points().contains(x) {
                        assert(x == fpre.trees@[t as int].shifted(sampled@[e as int].1@));
                        let j = choose|j: int|
                            0 <= j < shard@.len() && (#[trigger] shard@[j]).0 == sampled@[
                                e as int
                            ].0 && shard@[j].1@ == sampled@[e as int].1@;
                        assert(x == seq_add(shard@[j].1@, f.trees@[tt].shift@));
                    } else {
                        assert(fpre.trees@[tt].points().contains(x));
                    }
                }
            }
            e += 1;
        }
        t += 1;
    }
    f
}

/// Scores every point of a shard against a forest, in shard order.
pub fn score_indexed(f: &RandShiftForest, shard: &Vec<(usize, Vec<i64>)>) -> (r: Vec<ForestScore>)
    requires
        f.wf(),
        forall|j: int| 0 <= j < shard@.len() ==> box_contains(f.bb@, ((#[trigger] shard@[j]).1)@),
    ensures
        r@.len() == shard@.len(),
        forall|i: int|
            0 <= i < r@.len() ==> (#[trigger] r@[i]).per_tree@ == f.spec_scores(shard@[i].1@),
{
    let mut r: Vec<ForestScore> = Vec::new();
    let mut i: usize = 0;
    while i < shard.len()
        invariant
            f.wf(),
            forall|j: int|
                0 <= j < shard@.len() ==> box_contains(f.bb@, ((#[trigger] shard@[j]).1)@),
            0 <= i <= shard@.len(),
            r@.len() == i,
            forall|j: int|
                0 <= j < i ==> (#[trigger] r@[j]).per_tree@ == f.spec_scores(shard@[j].1@),
        decreases shard@.len() - i,
    {
        let s = f.score(&shard[i].1);
        r.push(s);
        i += 1;
    }
    r
}

/// Keeps the rows named by a selection of indices, in selection order.
pub fn select_rows(items: &Vec<(usize, Vec<i64>)>, idxs: &Vec<usize>) -> (r: Vec<(usize, Vec<i64>)>)
    requires
        forall|a: int| 0 <= a < idxs@.len() ==> (#[trigger] idxs@[a]) < items@.len(),
    ensures
        r@.len() == idxs@.len(),
        forall|a: int|
            0 <= a < r@.len() ==> (#[trigger] r@[a]).0 == items@[idxs@[a] as int].0 && r@[a].1@
                == items@[idxs@[a] as int].1@,
{
    let mut r: Vec<(usize, Vec<i64>)> = Vec::new();
    let mut a: usize = 0;
    while a < idxs.len()
        invariant
            forall|x: int| 0 <= x < idxs@.len() ==> (#[trigger] idxs@[x]) < items@.len(),
            0 <= a <= idxs@.len(),
            r@.len() == a,
            forall|x: int|
                0 <= x < a ==> (#[trigger] r@[x]).0 == items@[idxs@[x] as int].0 && r@[x].1@
                    == items@[idxs@[x] as int].1@,
        decreases idxs@.len() - a,
    {
        let idx = idxs[a];
        let coords = crate::copy_coords(&items[idx].1);
        r.push((items[idx].0, coords));
        a += 1;
    }
    r
}

/// `v` is the global index of one of the candidates.
pub open spec fn from_candidates(cands: Seq<(usize, Vec<i64>)>, v: usize) -> bool {
    exists|b: int| 0 <= b < cands.len() && v == (#[trigger] cands[b]).0
}

/// The coordinator's final pick: the global indices of the `n1` candidates
/// with the smallest score keys.  It returns exactly `min(n1, candidates)`
/// indices, all pairwise distinct and all drawn from the candidates, so
/// every returned index lies in the range the candidates came from.
pub fn anomaly_indices(cands: &Vec<(usize, Vec<i64>)>, keys: &Vec<u64>, n1: usize) -> (r: Vec<
    usize,
>)
    requires
        keys@.len() == cands@.len(),
        forall|a: int, b: int|
            0 <= a < b < cands@.len() ==> (#[trigger] cands@[a]).0 != (#[trigger] cands@[b]).0,
    ensures
        r@.len() == (if n1 <= cands@.len() {
            n1 as int
        } else {
            cands@.len() as int
        }),
        forall|a: int| 0 <= a < r@.len() ==> from_candidates(cands@, #[trigger] r@[a]),
        forall|a: int, b: int| 0 <= a < b < r@.len() ==> r@[a] != r@[b],
{
    let sel = k_smallest(keys, n1);
    let mut r: Vec<usize> = Vec::new();
    let mut a: usize = 0;
    while a < sel.len()
        invariant
            keys@.len() == cands@.len(),
            forall|x: int, y: int|
                0 <= x < y < cands@.len() ==> (#[trigger] cands@[x]).0 != (#[trigger] cands@[y]).0,
            forall|x: int| 0 <= x < sel@.len() ==> (#[trigger] sel@[x]) < cands@.len(),
            forall|x: int, y: int|
                0 <= x < y < sel@.len() ==> lex_lt(keys@, sel@[x] as int, sel@[y] as int),
            0 <= a <= sel@.len(),
            r@.len() == a,
            forall|x: int| 0 <= x < a ==> (#[trigger] r@[x]) == cands@[sel@[x] as int].0,
        decreases sel@.len() - a,
    {
        let idx = sel[a];
        r.push(cands[idx].0);
        a += 1;
    }
    proof {
        assert forall|x: int| 0 <= x < r@.len() implies from_candidates(
            cands@,
            #[trigger] r@[x],
        ) by {
            assert(r@[x] == (cands@[sel@[x] as int]).0);
        }
        assert forall|x: int, y: int| 0 <= x < y < r@.len() implies r@[x] != r@[y] by {
            assert(lex_lt(keys@, sel@[x] as int, sel@[y] as int));
            assert(sel@[x] != sel@[y]);
            if sel@[x] < sel@[y] {
                assert(cands@[sel@[x] as int].0 != cands@[sel@[y] as int].0);
            } else {
                assert(cands@[sel@[y] as int].0 != cands@[sel@[x] as int].0);
            }
        }
    }
    r
}

/// All shard points share one dimension.
pub open spec fn uniform_shard_dims(shards: Seq<Vec<(usize, Vec<i64>)>>) -> bool {
    forall|m: int, i: int, m2: int, i2: int|
        #![trigger shards[m]@[i], shards[m2]@[i2]]
        0 <= m < shards.len() && 0 <= i < shards[m]@.len() && 0 <= m2 < shards.len() && 0 <= i2
            < shards[m2]@.len() ==> shards[m]@[i].1@.len() == shards[m2]@[i2].1@.len()
}

/// Feeds every shard point, in shard order, into a fresh parallel stream
/// sampler: machine `m` offers the points of shard `m`, and one key is
/// drawn for every single point, so a sampler that was shown nothing
/// cannot result.
pub fn feed_sampler(
    sampler: &mut crate::par_stream_sampler::ParStreamSampler,
    shards: &Vec<Vec<(usize, Vec<i64>)>>,
)
    requires
        old(sampler).wf(),
        old(sampler).us@.len() == shards@.len(),
        old(sampler).sample@.len() == 0,
        uniform_shard_dims(shards@),
    ensures
        final(sampler).wf(),
        final(sampler).us@.len() == old(sampler).us@.len(),
        final(sampler).n == old(sampler).n,
        final(sampler).drawn@.len() == old(sampler).drawn@.len() + shards_flat(shards@).len(),
{
    let ghost all = shards@;
    proof {
        assert(all.take(0) =~= Seq::<Vec<(usize, Vec<i64>)>>::empty());
    }
    let mut m: usize = 0;
    while m < shards.len()
        invariant
            all == shards@,
            uniform_shard_dims(all),
            sampler.wf(),
            sampler.us@.len() == shards@.len(),
            sampler.n == old(sampler).n,
            0 <= m <= shards@.len(),
            sampler.drawn@.len() == old(sampler).drawn@.len() + shards_flat(
                all.take(m as int),
            ).len(),
            forall|x: int, m2: int, i2: int|
                #![trigger sampler.sample@[x], all[m2]@[i2]]
                0 <= x < sampler.sample@.len() && 0 <= m2 < all.len() && 0 <= i2
                    < all[m2]@.len() ==> sampler.sample@[x].0@.len() == all[m2]@[i2].1@.len(),
        decreases shards@.len() - m,
    {
        let shard = &shards[m];
        let mut i: usize = 0;
        while i < shard.len()
            invariant
                all == shards@,
                uniform_shard_dims(all),
                shard@ == all[m as int]@,
                sampler.wf(),
                sampler.us@.len() == shards@.len(),
                sampler.n == old(sampler).n,
                0 <= m < shards@.len(),
                0 <= i <= shard@.len(),
                sampler.drawn@.len() == old(sampler).drawn@.len() + shards_flat(
                    all.take(m as int),
                ).len() + i,
                forall|x: int, m2: int, i2: int|
                    #![trigger sampler.sample@[x], all[m2]@[i2]]
                    0 <= x < sampler.sample@.len() && 0 <= m2 < all.len() && 0 <= i2
                        < all[m2]@.len() ==> sampler.sample@[x].0@.len() == all[m2]@[i2].1@.len(),
            decreases shard@.len() - i,
        {
            proof {
                assert forall|x: int|
                    0 <= x < sampler.sample@.len() implies (#[trigger] sampler.sample@[x]).0@.len()
                    == shard@[i as int].1@.len() by {
                    assert(sampler.sample@[x].0@.len() == all[m as int]@[i as int].1@.len());
                }
            }
            let ghost pre_sample_len = sampler.sample@.len();
            sampler.insert(m, &shard[i].1);
            proof {
                assert forall|x: int, m2: int, i2: int|
                    #![trigger sampler.sample@[x], all[m2]@[i2]]
                    0 <= x < sampler.sample@.len() && 0 <= m2 < all.len() && 0 <= i2
                        < all[m2]@.len() implies sampler.sample@[x].0@.len()
                    == all[m2]@[i2].1@.len() by {
                    assert(sampler.sample@[x].0@.len() == shard@[i as int].1@.len());
                    assert(all[m as int]@[i as int].1@.len() == all[m2]@[i2].1@.len());
                }
            }
            i += 1;
        }
        proof {
            assert(all.take(m as int + 1).drop_last() =~= all.take(m as int));
            assert(all.take(m as int + 1).last() == all[m as int]);
            assert(shards_flat(all.take(m as int + 1)) == shards_flat(all.take(m as int))
                + all[m as int]@);
        }
        m += 1;
    }
    proof {
        assert(all.take(all.len() as int) =~= all);
    }
}

} // verus!
