//! The distributed building blocks and the coordinator driven end to end:
//! partitioning keeps every point once, the final pick is exactly the
//! lowest-scoring candidates, and with one machine and a lossless sketch
//! the coordinator agrees with direct scoring.
use rsf::bounding_box::BoundingBox;
use rsf::config::Config;
use rsf::config::ConfigBuilder;
use rsf::distributed::anomaly_indices;
use rsf::distributed::build_shard_forest;
use rsf::distributed::distribute;
use rsf::distributed::feed_sampler;
use rsf::distributed::score_indexed;
use rsf::distributed::select_rows;
use rsf::forest::ForestScore;
use rsf::forest::RandShiftForest;
use rsf::metric::k_smallest;
use rsf::par_stream_sampler::ParStreamSampler;
use rsf::rng::rng_from_seed;
use rsf::tree::TreeScore;

const GAMMA: f64 = 0.5772156649;

fn c(n: f64) -> f64 {
    2.0 * ((n - 1.0).ln() + GAMMA) - 2.0 * (n - 1.0) / n
}

fn eval_tree(s: &TreeScore) -> f64 {
    if s.tail_weight > 0 {
        s.depth as f64 + c(s.tail_weight as f64)
    } else {
        s.depth as f64
    }
}

fn score_key(s: &ForestScore) -> u64 {
    let mean = s.per_tree.iter().map(eval_tree).sum::<f64>() / s.per_tree.len() as f64;
    // Raw scores are nonnegative, so their bit patterns order like the
    // values themselves.
    mean.to_bits()
}

fn dataset() -> Vec<Vec<i64>> {
    let mut pts = Vec::new();
    for i in 0..30i64 {
        pts.push(vec![(i % 6) * 10, (i % 5) * 10]);
    }
    // Two far-away points: the anomalies.
    pts.push(vec![950, 980]);
    pts.push(vec![990, 930]);
    pts
}

fn base_cfg(n_machines: usize) -> Config {
    ConfigBuilder::default()
        .bounding_box(BoundingBox::new(vec![(0, 1000), (0, 1000)]))
        .n_trees(4)
        .n_points(32)
        .seed(77)
        .sketch_size(1000)
        .n_machines(n_machines)
        .build()
        .unwrap()
}

#[test]
fn distribute_keeps_every_point_once() {
    let pts = dataset();
    let mut rng = rng_from_seed(5);
    let shards = distribute(&pts, 3, &mut rng);
    assert_eq!(shards.len(), 3);
    let mut flat: Vec<(usize, Vec<i64>)> = Vec::new();
    for shard in &shards {
        for item in shard {
            flat.push(item.clone());
        }
    }
    assert_eq!(flat.len(), pts.len());
    for (i, item) in flat.iter().enumerate() {
        assert_eq!(item.0, i);
        assert_eq!(item.1, pts[i]);
    }
}

#[test]
fn shard_forest_holds_the_sample() {
    let cfg = base_cfg(2);
    let pts = dataset();
    let mut rng = rng_from_seed(9);
    let shards = distribute(&pts, 2, &mut rng);
    let f = build_shard_forest(&cfg, &shards[0], 5, &mut rng);
    let m = 5usize.min(shards[0].len());
    assert_eq!(f.n_trees(), 4);
    assert_eq!(f.weight_total(), 4 * m);
}

#[test]
fn anomaly_pick_is_distinct_and_in_range() {
    let cands: Vec<(usize, Vec<i64>)> =
        vec![(4, vec![0]), (9, vec![1]), (2, vec![2]), (7, vec![3])];
    let keys: Vec<u64> = vec![30, 10, 20, 10];
    let picked = anomaly_indices(&cands, &keys, 3);
    assert_eq!(picked.len(), 3);
    // Smallest keys first, ties by candidate position: 9, 7, then 2.
    assert_eq!(picked, vec![9, 7, 2]);
    for i in 0..picked.len() {
        for j in 0..i {
            assert_ne!(picked[i], picked[j]);
        }
        assert!(cands.iter().any(|c| c.0 == picked[i]));
    }
}

/// The one-pass coordinator, driven step by step over the library's
/// verified pieces, with the score evaluation done here in floating point.
fn one_way_coordinator(cfg: &Config, pts: &Vec<Vec<i64>>, n1: usize) -> (RandShiftForest, Vec<usize>) {
    let mut rng = rng_from_seed(123);
    let shards = distribute(pts, cfg.n_machines, &mut rng);
    let sample_size = cfg.n_points / cfg.n_machines;
    let mut merged = RandShiftForest::from_config(cfg);
    let mut candidates: Vec<(usize, Vec<i64>)> = Vec::new();
    for shard in &shards {
        let size = if sample_size > shard.len() { shard.len() } else { sample_size };
        let mut local = build_shard_forest(cfg, shard, size, &mut rng);
        let scores = score_indexed(&local, shard);
        let keys: Vec<u64> = scores.iter().map(score_key).collect();
        let sel = k_smallest(&keys, n1);
        let mut kept = select_rows(shard, &sel);
        local.sketch(cfg.sketch_size);
        merged.extend(local);
        candidates.append(&mut kept);
    }
    let scores = score_indexed(&merged, &candidates);
    let keys: Vec<u64> = scores.iter().map(score_key).collect();
    let picked = anomaly_indices(&candidates, &keys, n1);
    (merged, picked)
}

#[test]
fn one_machine_coordinator_matches_direct_scoring() {
    // One machine, a sample as large as the shard, and a sketch too large
    // to drop anything: the local forest sees every point, so its
    // candidates are exactly the direct pick and the rescoring cannot
    // change a set of exactly n1 candidates.
    let cfg = base_cfg(1);
    let pts = dataset();
    let n1 = 2;

    let mut direct = RandShiftForest::from_config(&cfg);
    direct.batch_insert(&pts);
    let direct_scores = direct.batch_score(&pts);
    let keys: Vec<u64> = direct_scores.iter().map(score_key).collect();
    let mut expected = k_smallest(&keys, n1);
    expected.sort_unstable();

    let cfg2 = Config { n_points: pts.len(), ..base_cfg(1) };
    let (_merged, picked) = one_way_coordinator(&cfg2, &pts, n1);
    let mut got = picked.clone();
    got.sort_unstable();

    // With the same seed both forests draw the same shifts and schedules,
    // and both hold the same points, so the scores and the picks agree.
    assert_eq!(got, expected);
    // The anomalies are the two appended far-away points.
    assert_eq!(got, vec![30, 31]);
}

#[test]
fn two_pass_sampler_protocol_runs() {
    let cfg = base_cfg(2);
    let pts = dataset();
    let n1 = 2;
    let mut rng = rng_from_seed(321);
    let shards = distribute(&pts, cfg.n_machines, &mut rng);

    // Pass one: a bounded global sample feeds the forest.
    let mut sampler = ParStreamSampler::new(cfg.n_machines, cfg.n_points);
    feed_sampler(&mut sampler, &shards);
    let sample = sampler.query();
    assert!(sample.len() <= cfg.n_points);
    // Every offered point drew a key, so a non-empty source leaves a
    // non-empty sample.
    assert!(!sample.is_empty());
    let mut f = RandShiftForest::from_config(&cfg);
    f.batch_insert(&sample);
    f.sketch(cfg.sketch_size);

    // Pass two: local candidates, then a global pick with key ties broken
    // by the earlier global index.
    let mut cand_ids: Vec<usize> = Vec::new();
    let mut cand_keys: Vec<u64> = Vec::new();
    for shard in &shards {
        let scores = score_indexed(&f, shard);
        let keys: Vec<u64> = scores.iter().map(score_key).collect();
        let sel = k_smallest(&keys, n1);
        for &s in &sel {
            cand_ids.push(shard[s].0);
            cand_keys.push(keys[s]);
        }
    }
    let order = rsf::metric::k_smallest_by_id(&cand_keys, &cand_ids, n1);
    let picked: Vec<usize> = order.iter().map(|&o| cand_ids[o]).collect();
    assert_eq!(picked.len(), n1);
    assert!(picked[0] != picked[1]);
    for p in &picked {
        assert!(*p < pts.len());
    }
}
