//! Order statistics: smallest and largest selections with deterministic
//! tie-breaking, and the true-positive count behind precision and recall.
use rsf::metric::k_largest;
use rsf::metric::k_smallest;
use rsf::metric::k_smallest_by_id;
use rsf::metric::true_positives;

#[test]
fn k_smallest_exact() {
    let keys: Vec<u64> = vec![50, 10, 40, 10, 30];
    // Ties on the key 10 break toward the smaller index.
    assert_eq!(k_smallest(&keys, 3), vec![1, 3, 4]);
    assert_eq!(k_smallest(&keys, 1), vec![1]);
    assert_eq!(k_smallest(&keys, 0), Vec::<usize>::new());
    // Asking for more than there is yields everything.
    assert_eq!(k_smallest(&keys, 99), vec![1, 3, 4, 2, 0]);
}

#[test]
fn k_largest_exact() {
    let keys: Vec<u64> = vec![50, 10, 40, 50, 30];
    // Ties on the key 50 break toward the smaller index.
    assert_eq!(k_largest(&keys, 2), vec![0, 3]);
    assert_eq!(k_largest(&keys, 4), vec![0, 3, 2, 4]);
}

#[test]
fn k_smallest_by_id_breaks_key_ties_by_id() {
    let keys: Vec<u64> = vec![10, 10, 5, 10];
    let ids: Vec<usize> = vec![30, 20, 99, 10];
    // The key 5 wins outright; among the tied 10s the smaller id wins.
    assert_eq!(k_smallest_by_id(&keys, &ids, 3), vec![2, 3, 1]);
}

#[test]
fn true_positive_count() {
    let y = vec![true, false, true, true, false];
    assert_eq!(true_positives(&y, &vec![0, 1, 2]), 2);
    assert_eq!(true_positives(&y, &vec![1, 4]), 0);
    assert_eq!(true_positives(&y, &vec![]), 0);
    assert_eq!(true_positives(&y, &vec![0, 2, 3]), 3);
}
