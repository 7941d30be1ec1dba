//! The random draws honor their stated bounds: shifts stay within the box
//! ranges and split schedules only name dimensions with room to split.
use rsf::bounding_box::BoundingBox;
use rsf::rng::rng_from_seed;

#[test]
fn shifts_stay_in_range() {
    let bb = BoundingBox::new(vec![(0, 10), (5, 5), (-20, 20)]);
    let mut rng = rng_from_seed(99);
    for _ in 0..50 {
        let s = bb.gen_shift_using(&mut rng);
        assert_eq!(s.len(), 3);
        assert!(s[0] >= 0 && s[0] < 10);
        // A zero-range dimension never shifts.
        assert_eq!(s[1], 0);
        assert!(s[2] >= 0 && s[2] < 40);
    }
}

#[test]
fn shifts_actually_vary() {
    let bb = BoundingBox::new(vec![(0, 1000000)]);
    let mut rng = rng_from_seed(5);
    let mut distinct = std::collections::BTreeSet::new();
    for _ in 0..20 {
        let s = bb.gen_shift_using(&mut rng);
        distinct.insert(s[0]);
    }
    // A draw that ignored the generator would repeat one value.
    assert!(distinct.len() > 1);
}

#[test]
fn splits_avoid_zero_ranges() {
    let bb = BoundingBox::new(vec![(3, 3), (0, 10), (7, 7)]);
    let mut rng = rng_from_seed(4);
    let splits = bb.gen_splits_using(40, &mut rng);
    assert_eq!(splits.len(), 40);
    for s in splits {
        assert_eq!(s, 1);
    }
}

#[test]
fn seeded_generators_are_reproducible() {
    let bb = BoundingBox::new(vec![(0, 1000000)]);
    let mut rng1 = rng_from_seed(7);
    let mut rng2 = rng_from_seed(7);
    assert_eq!(bb.gen_shift_using(&mut rng1), bb.gen_shift_using(&mut rng2));
}
