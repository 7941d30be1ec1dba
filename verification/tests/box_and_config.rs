//! Bounding boxes and configuration building, including every
//! construction-time error.
use rsf::UNIT;
use rsf::bounding_box::BoundingBox;
use rsf::config::ConfigBuilder;
use rsf::config::ConfigError;

#[test]
fn unit_box_and_containment() {
    let bb = BoundingBox::unit(2);
    assert_eq!(bb.d(), 2);
    assert!(bb.contains(&vec![0, 0]));
    assert!(bb.contains(&vec![UNIT, UNIT]));
    assert!(!bb.contains(&vec![UNIT + 1, 0]));
    // A point of the wrong dimension is rejected, not compared.
    assert!(!bb.contains(&vec![0]));
    assert!(!bb.contains(&vec![0, 0, 0]));
}

#[test]
fn double_range_and_split() {
    let bb = BoundingBox::new(vec![(0, 10), (-4, 6)]);
    let big = BoundingBox::with_double_range(&bb);
    assert_eq!(big.bounds, vec![(0, 20), (-4, 16)]);
    let (left, right) = big.split_at(0);
    assert_eq!(left.bounds, vec![(0, 10), (-4, 16)]);
    assert_eq!(right.bounds, vec![(10, 20), (-4, 16)]);
    // The midpoint belongs to both halves.
    assert!(left.contains_at(&vec![10, 0], 0));
    assert!(right.contains_at(&vec![10, 0], 0));
}

#[test]
fn normalise_maps_onto_unit_range() {
    let bb = BoundingBox::new(vec![(0, 10), (5, 5)]);
    let mut p = vec![5, 5];
    bb.normalise(&mut p);
    assert_eq!(p[0], UNIT / 2);
    // A zero-range dimension is left untouched.
    assert_eq!(p[1], 5);
}

#[test]
fn shingle_repeats_bounds() {
    let mut bb = BoundingBox::new(vec![(0, 1), (2, 3)]);
    bb.shingle(3);
    assert_eq!(bb.d(), 6);
    assert_eq!(bb.bounds, vec![(0, 1), (2, 3), (0, 1), (2, 3), (0, 1), (2, 3)]);
}

#[test]
fn from_points_bounds_everything() {
    let none = BoundingBox::from_points(&vec![]);
    assert!(none.is_none());
    let pts = vec![vec![3, -1], vec![0, 4], vec![2, 2]];
    let bb = BoundingBox::from_points(&pts).unwrap();
    assert_eq!(bb.bounds, vec![(0, 3), (-1, 4)]);
}

#[test]
fn builder_defaults() {
    let cfg = ConfigBuilder::default().bounding_box(BoundingBox::unit(2)).build().unwrap();
    assert_eq!(cfg.n_trees, 64);
    assert_eq!(cfg.n_points, 128);
    assert_eq!(cfg.granularity, 1);
    assert_eq!(cfg.window, 128);
    assert_eq!(cfg.shingle, 1);
    assert_eq!(cfg.sketch_size, 2);
    assert_eq!(cfg.n_machines, 2);
    assert_eq!(cfg.max_depth(), 7);
}

#[test]
fn builder_window_defaults_to_n_points() {
    let cfg = ConfigBuilder::default()
        .bounding_box(BoundingBox::unit(1))
        .n_points(50)
        .build()
        .unwrap();
    assert_eq!(cfg.window, 50);
}

#[test]
fn builder_shingles_the_box() {
    let cfg = ConfigBuilder::default()
        .bounding_box(BoundingBox::unit(2))
        .shingle(3)
        .build()
        .unwrap();
    assert_eq!(cfg.bb.d(), 6);
}

#[test]
fn error_missing_bounding_box() {
    let r = ConfigBuilder::default().build();
    assert_eq!(r.unwrap_err(), ConfigError::MissingBoundingBox);
}

#[test]
fn error_zero_sketch_size() {
    let r = ConfigBuilder::default().bounding_box(BoundingBox::unit(1)).sketch_size(0).build();
    assert_eq!(r.unwrap_err(), ConfigError::ZeroSketchSize);
}

#[test]
fn error_zero_machines() {
    let r = ConfigBuilder::default().bounding_box(BoundingBox::unit(1)).n_machines(0).build();
    assert_eq!(r.unwrap_err(), ConfigError::ZeroMachines);
}

#[test]
fn error_all_zero_ranges() {
    let flat = BoundingBox::new(vec![(3, 3), (7, 7)]);
    let r = ConfigBuilder::default().bounding_box(flat).build();
    assert_eq!(r.unwrap_err(), ConfigError::ZeroRangeBoundingBox);
}

#[test]
fn max_depth_is_ceil_log2() {
    let mk = |n: usize| {
        ConfigBuilder::default()
            .bounding_box(BoundingBox::unit(1))
            .n_points(n)
            .build()
            .unwrap()
            .max_depth()
    };
    assert_eq!(mk(1), 0);
    assert_eq!(mk(2), 1);
    assert_eq!(mk(3), 2);
    assert_eq!(mk(4), 2);
    assert_eq!(mk(5), 3);
    assert_eq!(mk(128), 7);
    assert_eq!(mk(129), 8);
}

#[test]
fn max_points_grows_with_slot() {
    let cfg = ConfigBuilder::default()
        .bounding_box(BoundingBox::unit(1))
        .n_trees(4)
        .granularity(8)
        .build()
        .unwrap();
    assert_eq!(cfg.max_points(0), 1);
    assert_eq!(cfg.max_points(1), 3);
    assert_eq!(cfg.max_points(2), 5);
    assert_eq!(cfg.max_points(3), 7);
}
