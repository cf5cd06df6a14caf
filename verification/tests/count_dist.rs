use kiddo::distance::squared_euclidean;
use kiddo::KdTree;
use std::sync::atomic::{AtomicUsize, Ordering};

const POINT_A: ([i64; 2], usize) = ([0, 0], 0);
const POINT_B: ([i64; 2], usize) = ([1, 1], 1);
const POINT_C: ([i64; 2], usize) = ([2, 2], 2);
const POINT_D: ([i64; 2], usize) = ([3, 3], 3);

#[test]
fn it_works() {
    let capacity_per_node = 2;
    let mut kdtree = KdTree::with_per_node_capacity(capacity_per_node).unwrap();

    let count = AtomicUsize::new(0);
    let new_dist = |a: &[i64; 2], b: &[i64; 2]| {
        count.fetch_add(1, Ordering::SeqCst);
        squared_euclidean(a, b)
    };

    kdtree.add(&POINT_A.0, POINT_A.1).unwrap();
    kdtree.add(&POINT_B.0, POINT_B.1).unwrap();
    kdtree.add(&POINT_C.0, POINT_C.1).unwrap();
    kdtree.add(&POINT_D.0, POINT_D.1).unwrap();

    kdtree.nearest(&POINT_A.0, 0, &new_dist).unwrap();
    assert_eq!(count.swap(0, Ordering::SeqCst), 0);

    kdtree.nearest(&POINT_A.0, 1, &new_dist).unwrap();
    assert_eq!(count.swap(0, Ordering::SeqCst), 2);

    kdtree.nearest(&POINT_A.0, 2, &new_dist).unwrap();
    assert_eq!(count.swap(0, Ordering::SeqCst), 4);

    kdtree.nearest(&POINT_A.0, 3, &new_dist).unwrap();
    assert_eq!(count.swap(0, Ordering::SeqCst), 6);

    kdtree.nearest(&POINT_A.0, 4, &new_dist).unwrap();
    assert_eq!(count.swap(0, Ordering::SeqCst), 6);

    kdtree.nearest(&POINT_A.0, 5, &new_dist).unwrap();
    assert_eq!(count.swap(0, Ordering::SeqCst), 6);

    kdtree.nearest(&POINT_B.0, 4, &new_dist).unwrap();
    assert_eq!(count.swap(0, Ordering::SeqCst), 6);

    kdtree.within(&POINT_A.0, 0, &new_dist).unwrap();
    assert_eq!(count.swap(0, Ordering::SeqCst), 2);

    kdtree.within(&POINT_B.0, 1, &new_dist).unwrap();
    assert_eq!(count.swap(0, Ordering::SeqCst), 3);

    kdtree.within(&POINT_B.0, 2, &new_dist).unwrap();
    assert_eq!(count.swap(0, Ordering::SeqCst), 6);

    let mut iter = kdtree.iter_nearest(&POINT_A.0, &new_dist).unwrap();
    assert_eq!(count.swap(0, Ordering::SeqCst), 0);

    iter.next().unwrap();
    assert_eq!(count.swap(0, Ordering::SeqCst), 2);

    iter.next().unwrap();
    assert_eq!(count.swap(0, Ordering::SeqCst), 2);

    iter.next().unwrap();
    assert_eq!(count.swap(0, Ordering::SeqCst), 2);

    iter.next().unwrap();
    assert_eq!(count.swap(0, Ordering::SeqCst), 0);
}
