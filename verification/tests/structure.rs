use kiddo::{ErrorKind, KdTree, Node};
use rand::rngs::StdRng;
use rand::{Rng, SeedableRng};

fn stored<'a>(tree: &'a KdTree<u32, 2>, out: &mut Vec<([i64; 2], u32)>) {
    match tree.content() {
        Node::Leaf { points, bucket, .. } => {
            assert_eq!(points.len(), bucket.len());
            for (p, d) in points.iter().zip(bucket.iter()) {
                out.push((*p, *d));
            }
        }
        Node::Stem { left, right, .. } => {
            stored(left, out);
            stored(right, out);
        }
    }
}

fn check(tree: &KdTree<u32, 2>, periodic: Option<[i64; 2]>) {
    let mut beneath = Vec::new();
    stored(tree, &mut beneath);
    assert_eq!(tree.size(), beneath.len());
    for (p, _) in &beneath {
        for d in 0..2 {
            assert!(tree.min_bounds()[d] <= p[d]);
            assert!(p[d] <= tree.max_bounds()[d]);
        }
    }
    let _ = periodic;
    match tree.content() {
        Node::Leaf { points, capacity, .. } => {
            assert!(*capacity >= 1);
            if points.len() > *capacity {
                assert!(points.iter().all(|p| *p == points[0]));
            }
        }
        Node::Stem { left, right, split_value, split_dimension } => {
            assert!(*split_dimension < 2);
            let mut on_left = Vec::new();
            stored(left, &mut on_left);
            let mut on_right = Vec::new();
            stored(right, &mut on_right);
            assert!(on_left.iter().all(|(p, _)| p[*split_dimension] < *split_value));
            assert!(on_right.iter().all(|(p, _)| p[*split_dimension] >= *split_value));
            check(left, periodic);
            check(right, periodic);
        }
    }
}

fn leaves_within_capacity(tree: &KdTree<u32, 2>) -> bool {
    match tree.content() {
        Node::Leaf { points, capacity, .. } => points.len() <= *capacity,
        Node::Stem { left, right, .. } => {
            leaves_within_capacity(left) && leaves_within_capacity(right)
        }
    }
}

#[test]
fn adds_keep_cuts_sizes_boxes_and_capacities() {
    for seed in 0..6 {
        let mut rng = StdRng::seed_from_u64(seed);
        let mut tree: KdTree<u32, 2> = KdTree::with_per_node_capacity(3).unwrap();
        let mut distinct = std::collections::BTreeSet::new();
        for payload in 0..400 {
            let point = [rng.gen_range(-1000..1000), rng.gen_range(-1000..1000)];
            tree.add(&point, payload).unwrap();
            distinct.insert(point);
            if payload % 50 == 0 {
                check(&tree, None);
            }
        }
        check(&tree, None);
        assert_eq!(tree.size(), 400);
        if distinct.len() == 400 {
            assert!(leaves_within_capacity(&tree));
        }
    }
}

#[test]
fn split_cuts_at_the_midpoint_of_the_widest_axis() {
    let mut tree: KdTree<u32, 2> = KdTree::with_per_node_capacity(2).unwrap();
    tree.add(&[0, 0], 0).unwrap();
    tree.add(&[1, 10], 1).unwrap();
    tree.add(&[2, 3], 2).unwrap();
    match tree.content() {
        Node::Stem { split_value, split_dimension, left, right } => {
            assert_eq!(*split_dimension, 1);
            assert_eq!(*split_value, 5);
            assert_eq!(left.size(), 2);
            assert_eq!(right.size(), 1);
            assert_eq!(*left.min_bounds(), [0, 0]);
            assert_eq!(*left.max_bounds(), [2, 3]);
            assert_eq!(*right.min_bounds(), [1, 10]);
            assert_eq!(*right.max_bounds(), [1, 10]);
        }
        Node::Leaf { .. } => unreachable!(),
    }
    assert_eq!(*tree.min_bounds(), [0, 0]);
    assert_eq!(*tree.max_bounds(), [2, 10]);
}

#[test]
fn split_rounds_the_midpoint_up_and_takes_the_first_widest_axis() {
    let mut tree: KdTree<u32, 2> = KdTree::with_per_node_capacity(1).unwrap();
    tree.add(&[0, 0], 0).unwrap();
    tree.add(&[1, 1], 1).unwrap();
    match tree.content() {
        Node::Stem { split_value, split_dimension, left, right } => {
            assert_eq!(*split_dimension, 0);
            assert_eq!(*split_value, 1);
            assert_eq!(left.size(), 1);
            assert_eq!(right.size(), 1);
        }
        Node::Leaf { .. } => unreachable!(),
    }
    let mut tree: KdTree<u32, 2> = KdTree::with_per_node_capacity(1).unwrap();
    tree.add(&[i64::MIN + 1, 0], 0).unwrap();
    tree.add(&[i64::MAX - 1, 0], 1).unwrap();
    match tree.content() {
        Node::Stem { split_value, split_dimension, .. } => {
            assert_eq!(*split_dimension, 0);
            assert_eq!(*split_value, 0);
        }
        Node::Leaf { .. } => unreachable!(),
    }
    check(&tree, None);
}

#[test]
fn coincident_points_overflow_their_leaf() {
    let mut tree: KdTree<u32, 2> = KdTree::with_per_node_capacity(2).unwrap();
    for payload in 0..5 {
        tree.add(&[4, 4], payload).unwrap();
    }
    assert!(tree.is_leaf());
    assert_eq!(tree.size(), 5);
    check(&tree, None);
    tree.add(&[8, 4], 5).unwrap();
    assert!(!tree.is_leaf());
    assert_eq!(tree.size(), 6);
    check(&tree, None);
    match tree.content() {
        Node::Stem { left, right, split_value, split_dimension } => {
            assert_eq!((*split_dimension, *split_value), (0, 6));
            assert!(left.is_leaf());
            assert_eq!(left.size(), 5);
            assert_eq!(right.size(), 1);
        }
        Node::Leaf { .. } => unreachable!(),
    }
}

#[test]
fn a_leaf_with_a_stale_box_splits_twice() {
    let mut tree: KdTree<u32, 2> = KdTree::with_per_node_capacity(2).unwrap();
    tree.add(&[0, 0], 0).unwrap();
    tree.add(&[1000, 0], 1).unwrap();
    assert_eq!(tree.remove(&[1000, 0], &1), Ok(1));
    tree.add(&[1, 0], 2).unwrap();
    tree.add(&[2, 0], 3).unwrap();
    assert_eq!(tree.size(), 3);
    check(&tree, None);
    assert!(leaves_within_capacity(&tree));
    match tree.content() {
        Node::Stem { left, right, split_value, .. } => {
            assert_eq!(*split_value, 500);
            assert_eq!(left.size(), 3);
            assert_eq!(right.size(), 0);
            assert!(!left.is_leaf());
        }
        Node::Leaf { .. } => unreachable!(),
    }
}

#[test]
fn size_is_adds_less_removes() {
    let mut rng = StdRng::seed_from_u64(9);
    let mut tree: KdTree<u32, 2> = KdTree::with_per_node_capacity(4).unwrap();
    let mut added = 0usize;
    let mut removed = 0usize;
    for round in 0..600 {
        let point = [rng.gen_range(0..12), rng.gen_range(0..12)];
        let payload = rng.gen_range(0..3);
        if round % 3 == 2 {
            removed += tree.remove(&point, &payload).unwrap();
        } else if round % 50 == 0 {
            assert_eq!(
                tree.add(&[i64::MAX, 0], payload),
                Err(ErrorKind::NonFiniteCoordinate)
            );
        } else {
            tree.add(&point, payload).unwrap();
            added += 1;
        }
        assert_eq!(tree.size(), added - removed);
    }
    check(&tree, None);
    assert!(removed > 0);
}

#[test]
fn remove_takes_every_equal_pair_and_no_other() {
    let mut tree: KdTree<u32, 2> = KdTree::with_per_node_capacity(2).unwrap();
    tree.add(&[1, 1], 7).unwrap();
    tree.add(&[1, 1], 7).unwrap();
    tree.add(&[1, 1], 8).unwrap();
    tree.add(&[2, 2], 7).unwrap();
    tree.add(&[5, 5], 7).unwrap();
    tree.add(&[1, 1], 7).unwrap();
    assert_eq!(tree.size(), 6);
    let lower = *tree.min_bounds();
    let upper = *tree.max_bounds();
    assert_eq!(tree.remove(&[1, 1], &9), Ok(0));
    assert_eq!(tree.remove(&[3, 3], &7), Ok(0));
    assert_eq!(tree.size(), 6);
    assert_eq!(tree.remove(&[1, 1], &7), Ok(3));
    assert_eq!(tree.size(), 3);
    assert!(!tree.is_leaf());
    assert_eq!(*tree.min_bounds(), lower);
    assert_eq!(*tree.max_bounds(), upper);
    let mut left = Vec::new();
    stored(&tree, &mut left);
    left.sort();
    assert_eq!(left, vec![([1, 1], 8), ([2, 2], 7), ([5, 5], 7)]);
    check(&tree, None);
    assert_eq!(tree.remove(&[1, 1], &7), Ok(0));
}

#[test]
fn a_clone_holds_the_same_pairs() {
    let mut tree: KdTree<u32, 2> = KdTree::with_per_node_capacity(2).unwrap();
    for (i, p) in [[0, 0], [3, 1], [9, 9], [4, 4], [1, 8]].iter().enumerate() {
        tree.add(p, i as u32).unwrap();
    }
    let copy = tree.clone();
    let mut a = Vec::new();
    stored(&tree, &mut a);
    let mut b = Vec::new();
    stored(&copy, &mut b);
    assert_eq!(a, b);
    assert_eq!(copy.size(), 5);
    assert_eq!(copy.min_bounds(), tree.min_bounds());
    assert_eq!(copy.max_bounds(), tree.max_bounds());
    check(&copy, None);
}

fn frame(tree: &KdTree<u32, 2>, out: &mut Vec<([i64; 2], [i64; 2], Option<(usize, i64)>)>) {
    match tree.content() {
        Node::Leaf { .. } => out.push((*tree.min_bounds(), *tree.max_bounds(), None)),
        Node::Stem { left, right, split_value, split_dimension } => {
            out.push((
                *tree.min_bounds(),
                *tree.max_bounds(),
                Some((*split_dimension, *split_value)),
            ));
            frame(left, out);
            frame(right, out);
        }
    }
}

#[test]
fn remove_keeps_every_cut_and_every_box() {
    let mut rng = StdRng::seed_from_u64(31);
    let mut tree: KdTree<u32, 2> = KdTree::with_per_node_capacity(2).unwrap();
    let mut points = Vec::new();
    for payload in 0..60 {
        let point = [rng.gen_range(0..40), rng.gen_range(0..40)];
        tree.add(&point, payload).unwrap();
        points.push(point);
    }
    let mut before = Vec::new();
    frame(&tree, &mut before);
    for (payload, point) in points.iter().enumerate() {
        assert_eq!(tree.remove(point, &(payload as u32)), Ok(1));
    }
    assert_eq!(tree.size(), 0);
    let mut after = Vec::new();
    frame(&tree, &mut after);
    assert_eq!(before, after);
    check(&tree, None);
}

#[test]
fn add_widens_the_boxes_on_its_way_and_no_other() {
    let mut tree: KdTree<u32, 2> = KdTree::with_per_node_capacity(1).unwrap();
    tree.add(&[0, 0], 0).unwrap();
    tree.add(&[10, 0], 1).unwrap();
    tree.add(&[20, 0], 2).unwrap();
    let mut before = Vec::new();
    frame(&tree, &mut before);
    tree.add(&[7, 3], 3).unwrap();
    match tree.content() {
        Node::Stem { left, right, split_value, split_dimension } => {
            assert_eq!((*split_dimension, *split_value), (0, 5));
            assert_eq!(*left.min_bounds(), [0, 0]);
            assert_eq!(*left.max_bounds(), [0, 0]);
            assert_eq!(left.size(), 1);
            assert_eq!(*right.min_bounds(), [7, 0]);
            assert_eq!(*right.max_bounds(), [20, 3]);
            assert_eq!(right.size(), 3);
            match right.content() {
                Node::Stem { left, right, split_value, split_dimension } => {
                    assert_eq!((*split_dimension, *split_value), (0, 15));
                    assert_eq!(*left.min_bounds(), [7, 0]);
                    assert_eq!(*left.max_bounds(), [10, 3]);
                    assert!(!left.is_leaf());
                    assert_eq!(*right.min_bounds(), [20, 0]);
                    assert_eq!(*right.max_bounds(), [20, 0]);
                }
                Node::Leaf { .. } => unreachable!(),
            }
        }
        Node::Leaf { .. } => unreachable!(),
    }
    assert_eq!(*tree.min_bounds(), [0, 0]);
    assert_eq!(*tree.max_bounds(), [20, 3]);
    assert_eq!(before[0].2, Some((0, 5)));
    check(&tree, None);
}
