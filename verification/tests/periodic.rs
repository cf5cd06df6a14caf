use kiddo::distance::squared_euclidean;
use kiddo::metric::{distance_to_space, get_distance, period_bound};
use kiddo::periodic::{closest_side_dist2, images_to_check, in_periodic_cell};
use kiddo::{ErrorKind, KdTree};
use rand::rngs::StdRng;
use rand::{Rng, SeedableRng};

fn minimum_image(a: &[i64; 3], b: &[i64; 3], l: &[i64; 3]) -> i64 {
    let mut total = 0;
    for d in 0..3 {
        let gap = (a[d] - b[d]).abs();
        let gap = gap.min(l[d] - gap);
        total += gap * gap;
    }
    total
}

#[test]
fn periodic_nearest_one_is_not_misled_by_an_image() {
    let period = [100, 100, 100];
    let mut tree: KdTree<usize, 3> = KdTree::new_periodic(period);
    tree.add(&[1, 50, 50], 0).unwrap();
    tree.add(&[99, 50, 50], 1).unwrap();
    let found = tree
        .nearest_one_periodic(&[2, 50, 50], &squared_euclidean, &period)
        .unwrap();
    assert_eq!(found, (1, &0));
    let mut plain: KdTree<usize, 3> = KdTree::new();
    plain.add(&[1, 50, 50], 0).unwrap();
    plain.add(&[99, 50, 50], 1).unwrap();
    let found = plain
        .nearest_one_periodic(&[2, 50, 50], &squared_euclidean, &period)
        .unwrap();
    assert_eq!(found, (1, &0));
}

#[test]
fn periodic_nearest_one_crosses_the_corner() {
    let period = [100, 100, 100];
    let mut tree: KdTree<usize, 3> = KdTree::new_periodic(period);
    tree.add(&[50, 50, 50], 0).unwrap();
    tree.add(&[0, 0, 0], 1).unwrap();
    let found = tree
        .nearest_one_periodic(&[99, 99, 99], &squared_euclidean, &period)
        .unwrap();
    assert_eq!(found, (3, &1));
    let mut plain: KdTree<usize, 3> = KdTree::new();
    plain.add(&[50, 50, 50], 0).unwrap();
    plain.add(&[0, 0, 0], 1).unwrap();
    assert_eq!(
        plain.nearest_one(&[99, 99, 99], &squared_euclidean).unwrap(),
        (3 * 49 * 49, &0)
    );
    let found = plain
        .nearest_one_periodic(&[99, 99, 99], &squared_euclidean, &period)
        .unwrap();
    assert_eq!(found, (3, &1));
}

#[test]
fn periodic_queries_agree_with_plain_ones_far_from_the_faces() {
    let period = [100, 100, 100];
    let mut tree: KdTree<usize, 3> = KdTree::new();
    tree.add(&[10, 20, 50], 100).unwrap();
    tree.add(&[20, 30, 60], 101).unwrap();
    let nearest = tree
        .nearest_periodic(&[10, 20, 51], 1, &squared_euclidean, &period)
        .unwrap();
    assert_eq!(nearest, vec![(1, &100)]);
    let one = tree
        .nearest_one_periodic(&[10, 20, 51], &squared_euclidean, &period)
        .unwrap();
    assert_eq!(one, (1, &100));
}

#[test]
fn within_periodic_finds_what_lies_across_a_face() {
    let period = [10, 10, 10];
    let mut tree: KdTree<usize, 3> = KdTree::new();
    tree.add(&[1, 2, 5], 100).unwrap();
    tree.add(&[2, 3, 6], 101).unwrap();
    tree.add(&[9, 2, 5], 102).unwrap();
    let within = tree
        .within_periodic(&[1, 2, 5], 3, &squared_euclidean, &period)
        .unwrap();
    assert_eq!(within, vec![(0, &100), (3, &101)]);
    let within = tree
        .within_periodic(&[1, 2, 5], 4, &squared_euclidean, &period)
        .unwrap();
    assert_eq!(within, vec![(0, &100), (3, &101), (4, &102)]);
    let mut unsorted: Vec<(i64, usize)> = tree
        .within_unsorted_periodic(&[1, 2, 5], 4, &squared_euclidean, &period)
        .unwrap()
        .into_iter()
        .map(|(d, p)| (d, *p))
        .collect();
    assert_eq!(unsorted[..2], [(0, 100), (3, 101)]);
    unsorted.sort();
    assert_eq!(unsorted, vec![(0, 100), (3, 101), (4, 102)]);
    assert_eq!(
        tree.within(&[1, 2, 5], 4, &squared_euclidean).unwrap(),
        vec![(0, &100), (3, &101)]
    );
}

#[test]
fn nearest_periodic_counts_a_pair_once_for_each_image_that_finds_it() {
    let period = [100, 100];
    let mut tree: KdTree<usize, 2> = KdTree::new();
    tree.add(&[59, 0], 1).unwrap();
    tree.add(&[50, 49], 2).unwrap();
    let found = tree
        .nearest_periodic(&[10, 0], 2, &squared_euclidean, &period)
        .unwrap();
    assert_eq!(found, vec![(2401, &1), (2601, &1)]);
    let found = tree
        .nearest_periodic(&[10, 0], 1, &squared_euclidean, &period)
        .unwrap();
    assert_eq!(found, vec![(2401, &1)]);
    let found = tree
        .nearest_periodic(&[10, 0], 0, &squared_euclidean, &period)
        .unwrap();
    assert_eq!(found, vec![]);
}

#[test]
fn periodic_queries_on_an_empty_tree() {
    let period = [10, 10];
    let tree: KdTree<usize, 2> = KdTree::new();
    assert_eq!(
        tree.nearest_one_periodic(&[50, 1], &squared_euclidean, &period).err(),
        Some(ErrorKind::Empty)
    );
    assert_eq!(
        tree.within_periodic(&[50, 1], 5, &squared_euclidean, &period).unwrap(),
        vec![]
    );
    assert_eq!(
        tree.within_unsorted_periodic(&[50, 1], 5, &squared_euclidean, &period).unwrap(),
        vec![]
    );
    assert_eq!(
        tree.nearest_periodic(&[1, 1], 5, &squared_euclidean, &period).unwrap(),
        vec![]
    );
    assert_eq!(
        tree.nearest_periodic(&[50, 1], 5, &squared_euclidean, &period).err(),
        Some(ErrorKind::PeriodicOutOfBounds)
    );
}

#[test]
fn points_outside_the_cell_are_refused() {
    let period = [10, 10];
    let mut tree: KdTree<usize, 2> = KdTree::new_periodic(period);
    assert_eq!(tree.add(&[0, 9], 1), Ok(()));
    for bad in [[10, 0], [0, -1], [3, 10], [-1, -1]] {
        assert_eq!(tree.add(&bad, 2), Err(ErrorKind::PeriodicOutOfBounds));
        assert_eq!(tree.remove(&bad, &1), Err(ErrorKind::PeriodicOutOfBounds));
        assert_eq!(
            tree.nearest(&bad, 1, &squared_euclidean).err(),
            Some(ErrorKind::PeriodicOutOfBounds)
        );
        assert_eq!(
            tree.nearest_one(&bad, &squared_euclidean).err(),
            Some(ErrorKind::PeriodicOutOfBounds)
        );
        assert_eq!(
            tree.within(&bad, 1, &squared_euclidean).err(),
            Some(ErrorKind::PeriodicOutOfBounds)
        );
        assert_eq!(
            tree.best_n_within(&bad, 1, 1, &squared_euclidean).err(),
            Some(ErrorKind::PeriodicOutOfBounds)
        );
        assert!(tree.iter_nearest(&bad, &squared_euclidean).is_err());
    }
    assert_eq!(tree.add(&[i64::MAX, 0], 2), Err(ErrorKind::NonFiniteCoordinate));
    assert_eq!(tree.size(), 1);

    let mut plain: KdTree<usize, 2> = KdTree::new();
    plain.add(&[20, 20], 1).unwrap();
    for bad in [[10, 0], [0, -1], [3, 10]] {
        assert_eq!(
            plain.nearest_periodic(&bad, 1, &squared_euclidean, &period).err(),
            Some(ErrorKind::PeriodicOutOfBounds)
        );
        assert_eq!(
            plain.nearest_one_periodic(&bad, &squared_euclidean, &period).err(),
            Some(ErrorKind::PeriodicOutOfBounds)
        );
        assert_eq!(
            plain.within_periodic(&bad, 1, &squared_euclidean, &period).err(),
            Some(ErrorKind::PeriodicOutOfBounds)
        );
        assert_eq!(
            plain.within_unsorted_periodic(&bad, 1, &squared_euclidean, &period).err(),
            Some(ErrorKind::PeriodicOutOfBounds)
        );
    }
    assert_eq!(
        plain.nearest_periodic(&[i64::MIN, 0], 1, &squared_euclidean, &period).err(),
        Some(ErrorKind::NonFiniteCoordinate)
    );
}

#[test]
fn a_periodic_tree_measures_by_the_minimum_image() {
    let period = [100, 100, 100];
    let mut rng = StdRng::seed_from_u64(5);
    let mut tree: KdTree<usize, 3> = KdTree::periodic_with_per_node_capacity(4, period).unwrap();
    let mut points = Vec::new();
    for payload in 0..150 {
        let p = [rng.gen_range(0..100), rng.gen_range(0..100), rng.gen_range(0..100)];
        tree.add(&p, payload).unwrap();
        points.push(p);
    }
    for _ in 0..10 {
        let q = [rng.gen_range(0..100), rng.gen_range(0..100), rng.gen_range(0..100)];
        let mut expected: Vec<i64> =
            points.iter().map(|p| minimum_image(&q, p, &period)).collect();
        expected.sort();
        let got: Vec<(i64, &usize)> = tree.nearest(&q, tree.size(), &squared_euclidean).unwrap();
        let distances: Vec<i64> = got.iter().map(|x| x.0).collect();
        assert_eq!(distances, expected);
        for (d, payload) in got {
            assert_eq!(minimum_image(&q, &points[*payload], &period), d);
        }
    }
}

#[test]
fn periodic_nearest_one_matches_the_minimum_image_on_a_plain_tree() {
    let period = [100, 100, 100];
    let mut rng = StdRng::seed_from_u64(6);
    let mut tree: KdTree<usize, 3> = KdTree::with_per_node_capacity(4).unwrap();
    let mut points = Vec::new();
    for payload in 0..200 {
        let p = [rng.gen_range(0..100), rng.gen_range(0..100), rng.gen_range(0..100)];
        tree.add(&p, payload).unwrap();
        points.push(p);
    }
    for _ in 0..40 {
        let q = [rng.gen_range(0..100), rng.gen_range(0..100), rng.gen_range(0..100)];
        let expected = points.iter().map(|p| minimum_image(&q, p, &period)).min().unwrap();
        let (d, payload) = tree.nearest_one_periodic(&q, &squared_euclidean, &period).unwrap();
        assert_eq!(d, expected);
        assert_eq!(minimum_image(&q, &points[*payload], &period), d);
    }
}

#[test]
fn images_cross_the_nearer_faces_below_the_cutoff() {
    let period = [100, 100, 100];
    assert_eq!(
        images_to_check(&[2, 50, 50], &period, 5),
        vec![[102, 50, 50]]
    );
    assert_eq!(images_to_check(&[2, 50, 50], &period, 4), Vec::<[i64; 3]>::new());
    assert_eq!(
        images_to_check(&[98, 50, 50], &period, 5),
        vec![[-2, 50, 50]]
    );
    assert_eq!(images_to_check(&[50, 50, 50], &period, 2500), Vec::<[i64; 3]>::new());
    assert_eq!(
        images_to_check(&[50, 50, 50], &period, 2501),
        vec![[-50, 50, 50], [50, -50, 50], [50, 50, -50]]
    );
    assert_eq!(
        images_to_check(&[1, 2], &[10, 10], 6),
        vec![[11, 2], [1, 12], [11, 12]]
    );
    assert_eq!(images_to_check(&[1, 2], &[10, 10], 5), vec![[11, 2], [1, 12]]);
    assert_eq!(
        images_to_check(&[1, 9, 4], &[10, 10, 10], 19),
        vec![
            [11, 9, 4],
            [1, -1, 4],
            [11, -1, 4],
            [1, 9, 14],
            [11, 9, 14],
            [1, -1, 14],
            [11, -1, 14]
        ]
    );
    assert_eq!(images_to_check(&[0], &[i64::MAX], 1), vec![[i64::MAX]]);
    assert_eq!(images_to_check::<0>(&[], &[], 100), Vec::<[i64; 0]>::new());
}

#[test]
fn side_distances_are_squared_and_stop_at_the_largest_scalar() {
    assert_eq!(closest_side_dist2(&[2, 50, 97], &[100, 100, 100]), [4, 2500, 9]);
    assert_eq!(closest_side_dist2(&[0, 9], &[10, 10]), [0, 1]);
    assert_eq!(
        closest_side_dist2(&[4_000_000_000], &[i64::MAX]),
        [i64::MAX]
    );
    assert_eq!(
        closest_side_dist2(&[3_000_000_000], &[i64::MAX]),
        [9_000_000_000_000_000_000]
    );
}

#[test]
fn cell_membership_is_half_open() {
    assert!(in_periodic_cell(&[0, 9], &[10, 10]));
    assert!(!in_periodic_cell(&[0, 10], &[10, 10]));
    assert!(!in_periodic_cell(&[-1, 5], &[10, 10]));
    assert!(!in_periodic_cell(&[5, 5], &[10, 0]));
    assert!(!in_periodic_cell(&[5, 5], &[10, -3]));
    assert!(in_periodic_cell(&[i64::MAX - 1], &[i64::MAX]));
    assert!(!in_periodic_cell(&[i64::MIN], &[i64::MAX]));
    assert!(in_periodic_cell::<0>(&[], &[]));
}

#[test]
fn distance_on_a_periodic_domain_is_the_least_over_the_images() {
    assert_eq!(get_distance(&[1], &[9], &squared_euclidean, None), 64);
    assert_eq!(get_distance(&[1], &[9], &squared_euclidean, Some([10])), 4);
    assert_eq!(get_distance(&[9], &[1], &squared_euclidean, Some([10])), 4);
    assert_eq!(
        get_distance(&[1, 1], &[9, 9], &squared_euclidean, Some([10, 10])),
        8
    );
    assert_eq!(
        get_distance(&[1, 5], &[9, 5], &squared_euclidean, Some([10, 10])),
        4
    );
    assert_eq!(get_distance(&[0], &[5], &squared_euclidean, Some([1])), 1);
    assert_eq!(
        get_distance(&[i64::MAX - 1], &[i64::MAX - 3], &squared_euclidean, Some([i64::MAX])),
        4
    );
    assert_eq!(
        get_distance(&[i64::MAX - 1], &[i64::MAX], &squared_euclidean, Some([5])),
        0
    );
}

#[test]
fn period_bound_adds_the_squares_of_the_sides() {
    assert_eq!(period_bound(&[1, 1, 1]), 3);
    assert_eq!(period_bound(&[3, 4]), 25);
    assert_eq!(period_bound(&[-3, 4]), 25);
    assert_eq!(period_bound(&[4_000_000_000]), i64::MAX);
    assert_eq!(period_bound(&[3_000_000_000, 3_000_000_000]), i64::MAX);
    assert_eq!(period_bound::<0>(&[]), 0);
}

#[test]
fn distance_to_a_box_is_that_to_its_nearest_point() {
    assert_eq!(distance_to_space(&[0, 0], &[1, 1], &[3, 3], &squared_euclidean), 2);
    assert_eq!(distance_to_space(&[2, 2], &[1, 1], &[3, 3], &squared_euclidean), 0);
    assert_eq!(distance_to_space(&[5, 2], &[1, 1], &[3, 3], &squared_euclidean), 4);
    assert_eq!(distance_to_space(&[5, -2], &[1, 1], &[3, 3], &squared_euclidean), 13);
    assert_eq!(
        distance_to_space(&[0, 0], &[i64::MAX, i64::MAX], &[i64::MIN, i64::MIN], &squared_euclidean),
        i64::MAX
    );
}

#[test]
fn a_periodic_tree_passes_over_boxes_by_their_plain_distance() {
    let period = [10];
    let mut tree: KdTree<usize, 1> = KdTree::periodic_with_per_node_capacity(1, period).unwrap();
    tree.add(&[1], 0).unwrap();
    tree.add(&[9], 1).unwrap();
    assert!(!tree.is_leaf());
    assert_eq!(
        tree.nearest(&[0], 2, &squared_euclidean).unwrap(),
        vec![(1, &0), (1, &1)]
    );
    assert_eq!(tree.within(&[0], 4, &squared_euclidean).unwrap(), vec![(1, &0)]);
    assert_eq!(
        tree.within_periodic(&[0], 4, &squared_euclidean, &period).unwrap(),
        vec![(1, &0), (1, &1)]
    );
}

fn random_points(seed: u64, count: usize) -> Vec<[i64; 3]> {
    let mut rng = StdRng::seed_from_u64(seed);
    (0..count)
        .map(|_| [rng.gen_range(0..100), rng.gen_range(0..100), rng.gen_range(0..100)])
        .collect()
}

fn both_trees(points: &[[i64; 3]], period: [i64; 3]) -> Vec<KdTree<usize, 3>> {
    let mut plain: KdTree<usize, 3> = KdTree::with_per_node_capacity(3).unwrap();
    let mut periodic: KdTree<usize, 3> =
        KdTree::periodic_with_per_node_capacity(3, period).unwrap();
    for (payload, p) in points.iter().enumerate() {
        plain.add(p, payload).unwrap();
        periodic.add(p, payload).unwrap();
    }
    vec![plain, periodic]
}

#[test]
fn periodic_nearest_one_finds_the_least_minimum_image_on_either_tree() {
    let period = [100, 100, 100];
    let points = random_points(21, 150);
    for tree in both_trees(&points, period) {
        for q in random_points(22, 40) {
            let expected = points.iter().map(|p| minimum_image(&q, p, &period)).min().unwrap();
            let (d, payload) =
                tree.nearest_one_periodic(&q, &squared_euclidean, &period).unwrap();
            assert_eq!(d, expected);
            assert_eq!(minimum_image(&q, &points[*payload], &period), d);
        }
    }
}

#[test]
fn within_periodic_lists_what_lies_below_the_radius_by_minimum_image() {
    let period = [100, 100, 100];
    let points = random_points(23, 150);
    for tree in both_trees(&points, period) {
        for q in random_points(24, 20) {
            for radius in [50, 400, 1500] {
                let sorted = tree.within_periodic(&q, radius, &squared_euclidean, &period).unwrap();
                let unsorted = tree
                    .within_unsorted_periodic(&q, radius, &squared_euclidean, &period)
                    .unwrap();
                let mut a: Vec<(i64, usize)> = sorted.iter().map(|x| (x.0, *x.1)).collect();
                let mut b: Vec<(i64, usize)> = unsorted.iter().map(|x| (x.0, *x.1)).collect();
                assert!(a.windows(2).all(|w| w[0].0 <= w[1].0));
                a.sort();
                b.sort();
                assert_eq!(a, b);
                for (payload, p) in points.iter().enumerate() {
                    let least = minimum_image(&q, p, &period);
                    if least < radius {
                        assert!(a.contains(&(least, payload)));
                    }
                }
                for (d, payload) in a {
                    assert!(d <= radius);
                    assert!(minimum_image(&q, &points[payload], &period) <= d);
                }
            }
        }
    }
}

#[test]
fn nearest_periodic_leaves_out_nothing_nearer_by_minimum_image() {
    let period = [100, 100, 100];
    let points = random_points(25, 150);
    for tree in both_trees(&points, period) {
        for q in random_points(26, 20) {
            for num in [1usize, 3, 10] {
                let found = tree.nearest_periodic(&q, num, &squared_euclidean, &period).unwrap();
                assert_eq!(found.len(), num);
                assert!(found.windows(2).all(|w| w[0].0 <= w[1].0));
                let listed: Vec<(i64, usize)> = found.iter().map(|x| (x.0, *x.1)).collect();
                let last = listed[num - 1].0;
                for (payload, p) in points.iter().enumerate() {
                    let least = minimum_image(&q, p, &period);
                    if !listed.contains(&(least, payload)) {
                        assert!(last <= least);
                    }
                }
                for (d, payload) in listed {
                    assert!(minimum_image(&q, &points[payload], &period) <= d);
                }
            }
        }
    }
}

#[test]
fn best_n_within_on_a_periodic_tree_lists_what_lies_plainly_within() {
    let period = [100, 100, 100];
    let points = random_points(41, 120);
    let radius = 900;
    for (tree, mode) in both_trees(&points, period).into_iter().zip([None, Some(period)]) {
        for q in random_points(42, 25) {
            let best = tree.best_n_within(&q, radius, points.len(), &squared_euclidean).unwrap();
            for (payload, p) in points.iter().enumerate() {
                let listed = best.iter().filter(|b| **b == payload).count();
                assert!(listed <= 1);
                if squared_euclidean(&q, p) <= radius {
                    assert_eq!(listed, 1);
                }
                if listed == 1 {
                    assert!(get_distance(&q, p, &squared_euclidean, mode) <= radius);
                }
            }
        }
    }
}

#[test]
fn a_walk_on_a_periodic_tree_hands_out_each_pair_once_and_none_plainly_nearer_later() {
    let period = [100, 100, 100];
    let points = random_points(43, 90);
    for (tree, mode) in both_trees(&points, period).into_iter().zip([None, Some(period)]) {
        for q in random_points(44, 10) {
            let mut walk = tree.iter_nearest(&q, &squared_euclidean).unwrap();
            let mut handed: Vec<(i64, usize)> = Vec::new();
            while let Some((d, payload)) = walk.next() {
                assert_eq!(
                    d,
                    get_distance(&q, &points[*payload], &squared_euclidean, mode)
                );
                handed.push((d, *payload));
            }
            assert_eq!(handed.len(), points.len());
            let mut payloads: Vec<usize> = handed.iter().map(|x| x.1).collect();
            payloads.sort();
            assert_eq!(payloads, (0..points.len()).collect::<Vec<usize>>());
            for (at, (d, _)) in handed.iter().enumerate() {
                for (_, later) in handed[at + 1..].iter() {
                    assert!(*d <= squared_euclidean(&q, &points[*later]));
                }
            }
        }
    }
}

#[test]
fn within_periodic_crosses_a_face_only_when_the_face_lies_below_the_radius() {
    let period = [10];
    let mut tree: KdTree<usize, 1> = KdTree::new();
    tree.add(&[0], 0).unwrap();
    assert_eq!(
        tree.within_periodic(&[9], 1, &squared_euclidean, &period).unwrap(),
        vec![]
    );
    assert_eq!(
        tree.within_periodic(&[9], 2, &squared_euclidean, &period).unwrap(),
        vec![(1, &0)]
    );
    assert_eq!(
        tree.within_unsorted_periodic(&[9], 2, &squared_euclidean, &period).unwrap(),
        vec![(1, &0)]
    );
}
