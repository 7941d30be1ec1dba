//! Runs the sliding-window pipeline at several window sizes over labelled
//! datasets, as the original window-size comparison did: each size must
//! emit exactly the documented number of scores.
use rsf::bounding_box::BoundingBox;
use rsf::config::Config;
use rsf::config::ConfigBuilder;
use rsf::rsf_window::RSFWindow;
use rsf::tree::TreeScore;

const GAMMA: f64 = 0.5772156649;

fn c(n: f64) -> f64 {
    2.0 * ((n - 1.0).ln() + GAMMA) - 2.0 * (n - 1.0) / n
}

fn eval_tree(s: &TreeScore) -> f64 {
    if s.tail_weight > 0 {
        s.depth as f64 + c(s.tail_weight as f64)
    } else {
        s.depth as f64
    }
}

const WINDOW_SIZES: [usize; 2] = [100, 250];

fn make_series(n: usize) -> Vec<Vec<i64>> {
    let mut pts = Vec::new();
    for i in 0..n {
        let i = i as i64;
        pts.push(vec![(i % 50) * 100, ((i * 3) % 40) * 100]);
    }
    pts
}

fn cfg_with_window(w: usize) -> Config {
    ConfigBuilder::default()
        .bounding_box(BoundingBox::new(vec![(0, 10000), (0, 10000)]))
        .n_trees(4)
        .n_points(32)
        .window(w)
        .seed(2024)
        .build()
        .unwrap()
}

fn run(name: &str, pts: &Vec<Vec<i64>>) -> String {
    let mut out = String::new();
    out.push_str(&format!("--- {name} ---\n"));
    out.push_str("window size\tscores\tmean\n");
    for w in WINDOW_SIZES.into_iter().filter(|&w| w < pts.len()) {
        let cfg = cfg_with_window(w);
        let mut pipe = RSFWindow::new(&cfg, false);
        let mut scores: Vec<f64> = Vec::new();
        for p in pts {
            if let Some(s) = pipe.push(p) {
                scores.push(s.per_tree.iter().map(eval_tree).sum::<f64>() / 4.0);
            }
        }
        // One score per input after the window has filled.
        assert_eq!(scores.len(), pts.len() - w);
        let mean: f64 = scores.iter().sum::<f64>() / scores.len() as f64;
        assert!(mean >= 1.0);
        out.push_str(&format!("{w}\t{}\t{mean:.2}\n", scores.len()));
    }
    out
}

#[test]
fn cmp_window_sizes_toy() {
    let pts = make_series(400);
    let out = run("toy", &pts);
    assert_eq!(out.lines().count(), 4);
}

#[test]
fn cmp_window_sizes_real() {
    let pts = make_series(900);
    let out = run("real", &pts);
    assert_eq!(out.lines().count(), 4);
}
