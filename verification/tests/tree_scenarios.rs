//! Single-tree scenarios: one split, contraction on delete, and the
//! bookkeeping of weights under inserts and deletes.
use rsf::bounding_box::BoundingBox;
use rsf::tree::RST;

fn one_dim_tree() -> RST {
    // Box [0, 10] in one dimension; shift fixed at 5; one split level on
    // dimension 0; a leaf splits as soon as it holds one point.
    let bb = BoundingBox::new(vec![(0, 10)]);
    RST::new(bb, vec![5], vec![0], 1, 1)
}

#[test]
fn single_tree_single_split() {
    let mut t = one_dim_tree();
    t.insert(&vec![1]);
    assert!(t.root.children.is_none());
    assert_eq!(t.total_weight(), 1);

    // The second insert overflows the leaf: the root must split once and
    // hold exactly two leaf children with total weight two.
    t.insert(&vec![9]);
    assert_eq!(t.total_weight(), 2);
    match &t.root.children {
        Some(pair) => {
            assert!(pair.left.children.is_none());
            assert!(pair.right.children.is_none());
            assert_eq!(pair.left.points.n_points() + pair.right.points.n_points(), 2);
        }
        None => panic!("root must be internal after the second insert"),
    }

    // Scoring the midpoint descends one level: depth two, no tail.
    let s = t.score(&vec![5]);
    assert_eq!(s.depth, 2);
    assert_eq!(s.tail_weight, 0);
}

#[test]
fn contract_on_delete() {
    let mut t = one_dim_tree();
    t.insert(&vec![1]);
    t.insert(&vec![9]);
    assert!(t.root.children.is_some());

    // Deleting one point brings the children's combined weight back under
    // the limit: the tree must collapse to a single leaf.
    t.remove(&vec![1]);
    assert!(t.root.children.is_none());
    assert_eq!(t.total_weight(), 1);
    let s = t.score(&vec![5]);
    assert_eq!(s.depth, 1);
}

#[test]
fn weight_tracks_inserts_and_deletes() {
    let mut t = one_dim_tree();
    t.insert(&vec![2]);
    t.insert(&vec![2]);
    t.insert(&vec![7]);
    assert_eq!(t.total_weight(), 3);
    // Deleting an absent point is a silent no-op.
    t.remove(&vec![4]);
    assert_eq!(t.total_weight(), 3);
    // A doubled point is removed one occurrence at a time.
    t.remove(&vec![2]);
    assert_eq!(t.total_weight(), 2);
    t.remove(&vec![2]);
    assert_eq!(t.total_weight(), 1);
    t.remove(&vec![2]);
    assert_eq!(t.total_weight(), 1);
}

#[test]
fn score_depth_is_bounded() {
    // Depth limit 3 over [0, 16]; every score depth stays at most
    // max_depth + 1 even when one leaf swallows everything.
    let bb = BoundingBox::new(vec![(0, 16)]);
    let mut t = RST::new(bb, vec![0], vec![0, 0, 0], 3, 1);
    for v in 0..12 {
        t.insert(&vec![v]);
    }
    for v in 0..17 {
        let s = t.score(&vec![v]);
        assert!(s.depth >= 1 && s.depth <= 4);
        if s.tail_weight > 0 {
            assert_eq!(s.depth, 4);
            assert!(s.tail_weight > 1);
        }
    }
}

#[test]
fn sketch_preserves_weight_and_bounds_entries() {
    let bb = BoundingBox::new(vec![(0, 100)]);
    let mut t = RST::new(bb, vec![3], vec![0, 0], 2, 4);
    for v in 0..20 {
        t.insert(&vec![v * 5]);
    }
    let before = t.total_weight();
    t.sketch(2);
    assert_eq!(t.total_weight(), before);
    assert!(t.n_points() <= 2 * 7);
    fn check(node: &rsf::node::Node, k: usize) {
        assert!(node.points.n_points() <= k);
        if let Some(pair) = &node.children {
            check(&pair.left, k);
            check(&pair.right, k);
        }
    }
    check(&t.root, 2);
}

#[test]
fn extend_carries_multiplicity() {
    // Two copies of one point in the other tree arrive as two removable
    // occurrences of its re-shifted copy here.
    let bb = BoundingBox::new(vec![(0, 10)]);
    let mut a = RST::new(bb, vec![2], vec![0, 0], 2, 5);
    let bb2 = BoundingBox::new(vec![(0, 10)]);
    let mut b = RST::new(bb2, vec![7], vec![0, 0], 2, 5);
    b.insert(&vec![3]);
    b.insert(&vec![3]);
    a.extend(b);
    assert_eq!(a.total_weight(), 2);
    a.remove(&vec![3]);
    assert_eq!(a.total_weight(), 1);
    a.remove(&vec![3]);
    assert_eq!(a.total_weight(), 0);
    a.remove(&vec![3]);
    assert_eq!(a.total_weight(), 0);
}

#[test]
fn contraction_leaves_no_collapsible_node() {
    // After a delete, no node on the deleted point's path can still merge.
    let bb = BoundingBox::new(vec![(0, 16)]);
    let mut t = RST::new(bb, vec![0], vec![0, 0], 2, 2);
    for v in [1, 5, 9, 13, 2, 6] {
        t.insert(&vec![v]);
    }
    t.remove(&vec![1]);
    t.remove(&vec![5]);
    t.remove(&vec![9]);
    fn no_merge_on_path(node: &rsf::node::Node, max_points: usize) {
        if node.children.is_some() {
            assert!(!node.can_contract(max_points));
        }
        if let Some(pair) = &node.children {
            no_merge_on_path(&pair.left, max_points);
            no_merge_on_path(&pair.right, max_points);
        }
    }
    // The deletes walked every remaining branch at least once here, so the
    // whole tree must be fully contracted.
    no_merge_on_path(&t.root, 2);
}

#[test]
fn extend_reinserts_other_tree() {
    let bb = BoundingBox::new(vec![(0, 10)]);
    let mut a = RST::new(bb, vec![2], vec![0, 0], 2, 2);
    let bb2 = BoundingBox::new(vec![(0, 10)]);
    let mut b = RST::new(bb2, vec![7], vec![0, 0], 2, 2);
    a.insert(&vec![1]);
    a.insert(&vec![4]);
    b.insert(&vec![9]);
    b.insert(&vec![9]);
    b.insert(&vec![3]);
    a.extend(b);
    assert_eq!(a.total_weight(), 5);
}
