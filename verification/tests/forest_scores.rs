//! Forest-level behavior: the mean score over trees, the element-wise
//! agreement of batch scoring with single scoring, and sketch-then-merge.
use rsf::bounding_box::BoundingBox;
use rsf::config::ConfigBuilder;
use rsf::forest::RandShiftForest;
use rsf::tree::TreeScore;

const GAMMA: f64 = 0.5772156649;

fn c(n: f64) -> f64 {
    2.0 * ((n - 1.0).ln() + GAMMA) - 2.0 * (n - 1.0) / n
}

fn eval_tree(s: &TreeScore) -> f64 {
    if s.tail_weight > 0 {
        s.depth as f64 + c(s.tail_weight as f64)
    } else {
        s.depth as f64
    }
}

fn grid_box(hi: i64) -> BoundingBox {
    BoundingBox::new(vec![(0, hi), (0, hi)])
}

#[test]
fn forest_mean_is_mean_of_tree_scores() {
    let cfg = ConfigBuilder::default()
        .bounding_box(grid_box(8))
        .n_trees(4)
        .n_points(8)
        .seed(7)
        .build()
        .unwrap();
    let mut f = RandShiftForest::from_config(&cfg);
    for x in 0..2 {
        for y in 0..4 {
            f.insert(&vec![x * 8, y * 2]);
        }
    }
    let center = vec![4, 4];
    let s = f.score(&center);
    assert_eq!(s.per_tree.len(), 4);
    let mean: f64 = s.per_tree.iter().map(eval_tree).sum::<f64>() / 4.0;
    let mut per_tree_sum = 0.0;
    for t in 0..4 {
        // Scoring through the forest agrees with each tree's own verdict.
        per_tree_sum += eval_tree(&s.per_tree[t]);
    }
    assert!((mean - per_tree_sum / 4.0).abs() < 1e-12);
}

#[test]
fn batch_score_matches_score_per_row() {
    let cfg = ConfigBuilder::default()
        .bounding_box(grid_box(100))
        .n_trees(3)
        .n_points(4)
        .seed(11)
        .build()
        .unwrap();
    let mut f = RandShiftForest::from_config(&cfg);
    let rows = vec![vec![1, 2], vec![50, 60], vec![99, 3], vec![40, 40]];
    f.batch_insert(&rows);
    let batch = f.batch_score(&rows);
    assert_eq!(batch.len(), rows.len());
    for i in 0..rows.len() {
        let single = f.score(&rows[i]);
        assert_eq!(batch[i].per_tree, single.per_tree);
    }
}

#[test]
fn forest_sketch_preserves_weight() {
    let cfg = ConfigBuilder::default()
        .bounding_box(grid_box(100))
        .n_trees(2)
        .n_points(4)
        .granularity(4)
        .seed(3)
        .build()
        .unwrap();
    let mut f = RandShiftForest::from_config(&cfg);
    for v in 0..30 {
        f.insert(&vec![(v * 3) % 100, (v * 7) % 100]);
    }
    let w = f.weight_total();
    f.sketch(2);
    assert_eq!(f.weight_total(), w);
}

#[test]
fn forest_extend_sums_weights() {
    let cfg = ConfigBuilder::default()
        .bounding_box(grid_box(100))
        .n_trees(2)
        .n_points(4)
        .seed(5)
        .build()
        .unwrap();
    let mut a = RandShiftForest::from_config(&cfg);
    let mut b = RandShiftForest::from_config(&cfg);
    for v in 0..6 {
        a.insert(&vec![v * 10, v * 10]);
        b.insert(&vec![v * 10 + 5, v * 3]);
    }
    a.extend(b);
    assert_eq!(a.weight_total(), 2 * 2 * 6);
    assert_eq!(a.n_trees(), 2);
}

#[test]
fn forest_n_points_is_mean_weight() {
    let cfg = ConfigBuilder::default()
        .bounding_box(grid_box(100))
        .n_trees(2)
        .n_points(4)
        .seed(9)
        .build()
        .unwrap();
    let mut f = RandShiftForest::from_config(&cfg);
    for v in 0..5 {
        f.insert(&vec![v, v]);
    }
    assert_eq!(f.entry_total(), 10);
    assert_eq!(f.n_points(), 5);
    // A doubled point adds weight but no new entry.
    f.insert(&vec![0, 0]);
    assert_eq!(f.entry_total(), 10);
    assert_eq!(f.n_points(), 6);
}
