//! Compares the static split pipeline with the streaming reservoir
//! pipeline over labelled datasets, reporting detection quality per
//! algorithm, as the original benchmark table did.
use classifier_measures::roc_auc;
use rsf::bounding_box::BoundingBox;
use rsf::config::Config;
use rsf::config::ConfigBuilder;
use rsf::metric::k_largest;
use rsf::metric::true_positives;
use rsf::rsf_reservoir::RSFReservoir;
use rsf::rsf_split::RSFSplit;
use rsf::tree::TreeScore;

const GAMMA: f64 = 0.5772156649;

fn c(n: f64) -> f64 {
    2.0 * ((n - 1.0).ln() + GAMMA) - 2.0 * (n - 1.0) / n
}

fn eval_tree(s: &TreeScore) -> f64 {
    if s.tail_weight > 0 {
        s.depth as f64 + c(s.tail_weight as f64)
    } else {
        s.depth as f64
    }
}

/// The probability-like transform of a raw score: two to the minus score
/// over the expected path length at `n_points`; one means anomalous.
fn transform(raw: f64, n_points: usize) -> f64 {
    (2.0f64).powf(-raw / c(n_points as f64))
}

/// A labelled dataset: a tight lattice with a sprinkling of far-away
/// anomalies at the end.
fn make_dataset(n: usize, n_anomalies: usize, spread: i64) -> (Vec<Vec<i64>>, Vec<bool>) {
    let mut pts = Vec::new();
    let mut labels = Vec::new();
    for i in 0..n {
        let i = i as i64;
        pts.push(vec![(i % 13) * spread, (i % 7) * spread]);
        labels.push(false);
    }
    for a in 0..n_anomalies {
        let a = a as i64;
        pts.push(vec![90000 + a * 17, 95000 - a * 23]);
        labels.push(true);
    }
    (pts, labels)
}

fn cfg_for() -> Config {
    ConfigBuilder::default()
        .bounding_box(BoundingBox::new(vec![(0, 100000), (0, 100000)]))
        .n_trees(8)
        .n_points(64)
        .granularity(4)
        .seed(1234)
        .build()
        .unwrap()
}

/// Runs the split pipeline and hands back one transformed score per point
/// after the loading prefix.
fn bench_rsf_split(pts: &Vec<Vec<i64>>, cfg: &Config) -> Vec<f64> {
    let mut pipe = RSFSplit::new(cfg);
    let mut out = Vec::new();
    for p in pts {
        if let Some(s) = pipe.push(p) {
            let raw = s.per_tree.iter().map(eval_tree).sum::<f64>() / s.per_tree.len() as f64;
            out.push(transform(raw, cfg.n_points));
        }
    }
    out
}

/// Runs the reservoir pipeline the same way.
fn bench_rsf_res(pts: &Vec<Vec<i64>>, cfg: &Config) -> Vec<f64> {
    let mut pipe = RSFReservoir::new(cfg, false);
    let mut out = Vec::new();
    for p in pts {
        if let Some(s) = pipe.push(p) {
            let raw = s.per_tree.iter().map(eval_tree).sum::<f64>() / s.per_tree.len() as f64;
            out.push(transform(raw, cfg.n_points));
        }
    }
    out
}

/// Precision at the labelled contamination: how many of the top picks are
/// labelled anomalies, counted by the library.
fn precision_at_n1(labels: &Vec<bool>, preds: &Vec<f64>) -> f64 {
    let offset = labels.len() - preds.len();
    let tail: Vec<bool> = labels[offset..].to_vec();
    let n1 = tail.iter().filter(|&&a| a).count();
    let keys: Vec<u64> = preds.iter().map(|p| p.to_bits()).collect();
    let picks = k_largest(&keys, n1);
    let tp = true_positives(&tail, &picks);
    tp as f64 / n1 as f64
}

fn rocauc(labels: &Vec<bool>, preds: &Vec<f64>) -> f64 {
    let offset = labels.len() - preds.len();
    roc_auc(0..preds.len(), |i| (labels[offset + i], preds[i])).unwrap()
}

fn run(name: &str, pts: &Vec<Vec<i64>>, labels: &Vec<bool>) -> String {
    let cfg = cfg_for();
    let mut out = String::new();
    out.push_str(&format!("--- {name} ---\n"));
    out.push_str("algorithm\trocauc\tprecision\n");
    let split_scores = bench_rsf_split(pts, &cfg);
    let split_auc = rocauc(labels, &split_scores);
    out.push_str(&format!(
        "RSF-split\t{:.2}\t{:.2}\n",
        split_auc,
        precision_at_n1(labels, &split_scores)
    ));
    // The static pipeline must beat chance by a clear margin on a dataset
    // whose anomalies sit far outside the lattice.
    assert!(split_auc > 0.8, "split rocauc {split_auc}");
    let res_scores = bench_rsf_res(pts, &cfg);
    let res_auc = rocauc(labels, &res_scores);
    out.push_str(&format!(
        "RSF-reservoir\t{:.2}\t{:.2}\n",
        res_auc,
        precision_at_n1(labels, &res_scores)
    ));
    assert!(res_auc > 0.5, "reservoir rocauc {res_auc}");
    out
}

#[test]
fn transform_maps_zero_to_one_and_decreases() {
    let n_points = 128;
    assert!((transform(0.0, n_points) - 1.0).abs() < 1e-12);
    let mut prev = transform(0.0, n_points);
    for step in 1..200 {
        let cur = transform(step as f64 * 0.25, n_points);
        assert!(cur < prev);
        prev = cur;
    }
    // Far out on the axis the signal is indistinguishable from zero.
    assert!(transform(1.0e9, n_points) < 1e-12);
}

#[test]
fn cmp_algorithms_toy() {
    let (pts, labels) = make_dataset(400, 8, 40);
    let out = run("toy", &pts, &labels);
    assert_eq!(out.lines().count(), 4);
}

#[test]
fn cmp_algorithms_real() {
    let (pts, labels) = make_dataset(1200, 20, 150);
    let out = run("real", &pts, &labels);
    assert_eq!(out.lines().count(), 4);
}
