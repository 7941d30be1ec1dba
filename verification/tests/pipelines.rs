//! The streaming pipelines end to end: split, reservoir and window, with
//! the documented emission counts and the anomaly standing out.
use rsf::bounding_box::BoundingBox;
use rsf::config::ConfigBuilder;
use rsf::rsf_reservoir::RSFReservoir;
use rsf::rsf_split::RSFSplit;
use rsf::rsf_window::RSFWindow;
use rsf::tree::TreeScore;

const GAMMA: f64 = 0.5772156649;

fn c(n: f64) -> f64 {
    2.0 * ((n - 1.0).ln() + GAMMA) - 2.0 * (n - 1.0) / n
}

fn eval_tree(s: &TreeScore) -> f64 {
    if s.tail_weight > 0 {
        s.depth as f64 + c(s.tail_weight as f64)
    } else {
        s.depth as f64
    }
}

fn eval_mean(per_tree: &Vec<TreeScore>) -> f64 {
    per_tree.iter().map(eval_tree).sum::<f64>() / per_tree.len() as f64
}

#[test]
fn split_loads_then_scores() {
    let cfg = ConfigBuilder::default()
        .bounding_box(BoundingBox::new(vec![(0, 1000)]))
        .n_trees(2)
        .n_points(10)
        .seed(1)
        .build()
        .unwrap();
    let mut pipe = RSFSplit::new(&cfg);
    let mut scores = 0;
    for i in 0..30 {
        match pipe.push(&vec![(i * 13) % 1000]) {
            Some(s) => {
                scores += 1;
                assert_eq!(s.per_tree.len(), 2);
            }
            None => assert!(i < 10),
        }
    }
    assert_eq!(scores, 20);
    // The forest froze after loading.
    assert_eq!(pipe.f.weight_total(), 2 * 10);
}

#[test]
fn reservoir_emits_after_priming_and_stays_bounded() {
    let cfg = ConfigBuilder::default()
        .bounding_box(BoundingBox::new(vec![(0, 1000)]))
        .n_trees(4)
        .n_points(50)
        .seed(2)
        .build()
        .unwrap();
    let mut pipe = RSFReservoir::new(&cfg, false);
    let mut scores = 0;
    for i in 0..1000i64 {
        if pipe.push(&vec![(i * 37) % 1000]).is_some() {
            scores += 1;
        }
    }
    // The first 50 arrivals prime the reservoir silently.
    assert_eq!(scores, 950);
    // The forest holds at most the reservoir's capacity per tree.
    assert!(pipe.f.n_points() <= 50);
    assert!(pipe.f.weight_total() <= 4 * 50);
}

#[test]
fn reservoir_split_shape_runs_too() {
    let cfg = ConfigBuilder::default()
        .bounding_box(BoundingBox::new(vec![(0, 1000)]))
        .n_trees(3)
        .n_points(20)
        .seed(4)
        .build()
        .unwrap();
    let mut pipe = RSFReservoir::new(&cfg, true);
    let mut scores = 0;
    for i in 0..200i64 {
        if pipe.push(&vec![(i * 11) % 1000]).is_some() {
            scores += 1;
        }
    }
    assert_eq!(scores, 180);
    assert!(pipe.f.weight_total() <= 3 * 20);
}

#[test]
fn window_emits_after_fill_and_flags_the_anomaly() {
    let cfg = ConfigBuilder::default()
        .bounding_box(BoundingBox::new(vec![(0, 1000000)]))
        .n_trees(4)
        .n_points(50)
        .window(200)
        .seed(3)
        .build()
        .unwrap();
    let mut pipe = RSFWindow::new(&cfg, false);
    let mut scores: Vec<f64> = Vec::new();
    for i in 0..1000i64 {
        // A tight periodic cluster with one far-away burst.
        let v = if (600..640).contains(&i) { 900000 } else { (i % 40) * 25 };
        if let Some(s) = pipe.push(&vec![v]) {
            scores.push(eval_mean(&s.per_tree));
        }
    }
    // The window holds the first 200 inputs back.
    assert_eq!(scores.len(), 800);
    // The most isolated point (the smallest raw score) sits in the burst:
    // emitted index 400 corresponds to input 600.
    let mut argmin = 0;
    for i in 1..scores.len() {
        if scores[i] < scores[argmin] {
            argmin = i;
        }
    }
    assert!((395..=445).contains(&argmin), "anomaly found at {argmin}");
}

#[test]
fn window_split_shape_runs_too() {
    let cfg = ConfigBuilder::default()
        .bounding_box(BoundingBox::new(vec![(0, 1000)]))
        .n_trees(2)
        .n_points(10)
        .window(40)
        .seed(6)
        .build()
        .unwrap();
    let mut pipe = RSFWindow::new(&cfg, true);
    let mut scores = 0;
    for i in 0..100i64 {
        if pipe.push(&vec![(i * 7) % 1000]).is_some() {
            scores += 1;
        }
    }
    assert_eq!(scores, 60);
}
