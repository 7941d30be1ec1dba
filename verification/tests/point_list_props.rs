//! Point-list behavior: merge-by-coordinates, insert/remove identity,
//! partitioning and the bounded sketch.
use rsf::bounding_box::BoundingBox;
use rsf::point_list::PointList;

#[test]
fn insert_merges_equal_coordinates() {
    let mut pl = PointList::new();
    pl.insert(vec![1, 2]);
    pl.insert(vec![1, 2]);
    pl.insert(vec![3, 4]);
    assert_eq!(pl.n_points(), 2);
    assert_eq!(pl.weight(), 3);
}

#[test]
fn insert_then_remove_is_identity() {
    let mut pl = PointList::new();
    pl.insert(vec![1, 2]);
    pl.insert(vec![3, 4]);
    let entries_before = pl.n_points();
    let weight_before = pl.weight();

    pl.insert(vec![5, 6]);
    pl.remove(&vec![5, 6]);
    assert_eq!(pl.n_points(), entries_before);
    assert_eq!(pl.weight(), weight_before);

    // The same holds when the inserted coordinates merge into an existing
    // entry: the weight bump is undone.
    pl.insert(vec![1, 2]);
    pl.remove(&vec![1, 2]);
    assert_eq!(pl.n_points(), entries_before);
    assert_eq!(pl.weight(), weight_before);
}

#[test]
fn remove_missing_is_noop() {
    let mut pl = PointList::new();
    pl.insert(vec![1]);
    pl.remove(&vec![9]);
    assert_eq!(pl.n_points(), 1);
    assert_eq!(pl.weight(), 1);
}

#[test]
fn remove_decrements_before_dropping() {
    let mut pl = PointList::new();
    pl.insert(vec![7]);
    pl.insert(vec![7]);
    pl.remove(&vec![7]);
    // One occurrence is gone but the entry stays.
    assert_eq!(pl.n_points(), 1);
    assert_eq!(pl.weight(), 1);
    pl.remove(&vec![7]);
    assert_eq!(pl.n_points(), 0);
}

#[test]
fn partition_at_splits_by_one_dimension() {
    let mut pl = PointList::new();
    pl.insert(vec![1, 100]);
    pl.insert(vec![5, -100]);
    pl.insert(vec![9, 0]);
    let bb = BoundingBox::new(vec![(0, 5), (-1000, 1000)]);
    let (inside, outside) = pl.partition_at(&bb, 0);
    assert_eq!(inside.n_points(), 2);
    assert_eq!(outside.n_points(), 1);
}

#[test]
fn split_off_uses_full_containment() {
    let mut pl = PointList::new();
    pl.insert(vec![1, 100]);
    pl.insert(vec![1, 5]);
    pl.insert(vec![9, 5]);
    let bb = BoundingBox::new(vec![(0, 5), (0, 10)]);
    let inside = pl.split_off(&bb);
    assert_eq!(inside.n_points(), 1);
    assert_eq!(pl.n_points(), 2);
}

#[test]
fn sketch_folds_excess_weight() {
    let mut pl = PointList::new();
    for v in 0..5 {
        pl.insert(vec![v]);
        pl.insert(vec![v]);
    }
    assert_eq!(pl.n_points(), 5);
    assert_eq!(pl.weight(), 10);
    pl.sketch(2);
    assert_eq!(pl.n_points(), 2);
    assert_eq!(pl.weight(), 10);
    // Entry 0 absorbs entries 2 and 4; entry 1 absorbs entry 3.
    assert_eq!(pl.entries[0].weight, 6);
    assert_eq!(pl.entries[1].weight, 4);
    assert_eq!(pl.entries[0].coords, vec![0]);
    assert_eq!(pl.entries[1].coords, vec![1]);
}

#[test]
fn sketch_with_large_bound_is_noop() {
    let mut pl = PointList::new();
    pl.insert(vec![1]);
    pl.insert(vec![2]);
    pl.sketch(10);
    assert_eq!(pl.n_points(), 2);
    assert_eq!(pl.weight(), 2);
}
