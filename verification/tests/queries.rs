use kiddo::distance::squared_euclidean;
use kiddo::{ErrorKind, KdTree};
use rand::rngs::StdRng;
use rand::{Rng, SeedableRng};

fn sample_tree(seed: u64, count: usize, capacity: usize) -> (KdTree<usize, 3>, Vec<[i64; 3]>) {
    let mut rng = StdRng::seed_from_u64(seed);
    let mut tree = KdTree::with_per_node_capacity(capacity).unwrap();
    let mut points = Vec::new();
    for payload in 0..count {
        let point = [
            rng.gen_range(-50..50),
            rng.gen_range(-50..50),
            rng.gen_range(-50..50),
        ];
        tree.add(&point, payload).unwrap();
        points.push(point);
    }
    (tree, points)
}

fn brute_force(points: &[[i64; 3]], query: &[i64; 3]) -> Vec<(i64, usize)> {
    let mut all: Vec<(i64, usize)> = points
        .iter()
        .enumerate()
        .map(|(payload, p)| (squared_euclidean(query, p), payload))
        .collect();
    all.sort();
    all
}

fn plain(found: Vec<(i64, &usize)>) -> Vec<(i64, usize)> {
    found.into_iter().map(|(d, p)| (d, *p)).collect()
}

#[test]
fn empty_tree_has_no_nearest_one_and_nothing_within() {
    let tree: KdTree<usize, 2> = KdTree::new();
    assert_eq!(
        tree.nearest_one(&[0, 0], &squared_euclidean).err(),
        Some(ErrorKind::Empty)
    );
    assert_eq!(tree.within(&[0, 0], 1, &squared_euclidean).unwrap(), vec![]);
    assert_eq!(
        tree.within_unsorted(&[0, 0], 1, &squared_euclidean).unwrap(),
        vec![]
    );
    assert_eq!(tree.nearest(&[0, 0], 3, &squared_euclidean).unwrap(), vec![]);
    assert_eq!(
        tree.best_n_within(&[0, 0], 1, 3, &squared_euclidean).unwrap(),
        Vec::<usize>::new()
    );
    let mut walk = tree.iter_nearest(&[0, 0], &squared_euclidean).unwrap();
    assert_eq!(walk.next(), None);
}

#[test]
fn empty_tree_answers_before_it_checks_the_point() {
    let tree: KdTree<usize, 2> = KdTree::new();
    let bad = [i64::MAX, 0];
    assert_eq!(
        tree.nearest_one(&bad, &squared_euclidean).err(),
        Some(ErrorKind::Empty)
    );
    assert_eq!(tree.within(&bad, 1, &squared_euclidean).unwrap(), vec![]);
    assert_eq!(
        tree.within_unsorted(&bad, 1, &squared_euclidean).unwrap(),
        vec![]
    );
    assert_eq!(
        tree.best_n_within(&bad, 1, 3, &squared_euclidean).unwrap(),
        Vec::<usize>::new()
    );
    assert_eq!(
        tree.nearest(&bad, 1, &squared_euclidean).err(),
        Some(ErrorKind::NonFiniteCoordinate)
    );
}

#[test]
fn third_add_splits_a_leaf_of_two() {
    let mut tree: KdTree<usize, 2> = KdTree::with_per_node_capacity(2).unwrap();
    tree.add(&[0, 0], 0).unwrap();
    tree.add(&[1, 1], 1).unwrap();
    assert!(tree.is_leaf());
    tree.add(&[2, 2], 2).unwrap();
    assert!(!tree.is_leaf());
    assert_eq!(tree.size(), 3);
    assert_eq!(
        tree.nearest(&[0, 0], 1, &squared_euclidean).unwrap(),
        vec![(0, &0)]
    );
}

#[test]
fn nearest_finds_the_nearer_of_two() {
    let mut tree: KdTree<usize, 3> = KdTree::new();
    tree.add(&[10, 20, 50], 100).unwrap();
    tree.add(&[20, 30, 60], 101).unwrap();
    let nearest = tree.nearest(&[10, 20, 51], 1, &squared_euclidean).unwrap();
    assert_eq!(nearest, vec![(1, &100)]);
    let one = tree.nearest_one(&[10, 20, 51], &squared_euclidean).unwrap();
    assert_eq!(one, (1, &100));
    let both = tree.nearest(&[10, 20, 51], 2, &squared_euclidean).unwrap();
    assert_eq!(both, vec![(1, &100), (100 + 100 + 81, &101)]);
}

#[test]
fn within_takes_the_radius_itself() {
    let mut tree: KdTree<usize, 3> = KdTree::new();
    tree.add(&[1, 2, 5], 100).unwrap();
    tree.add(&[2, 3, 6], 101).unwrap();
    tree.add(&[200, 300, 600], 102).unwrap();
    let within = tree.within(&[1, 2, 5], 10, &squared_euclidean).unwrap();
    assert_eq!(within, vec![(0, &100), (3, &101)]);
    let within = tree.within(&[1, 2, 5], 3, &squared_euclidean).unwrap();
    assert_eq!(within, vec![(0, &100), (3, &101)]);
    let within = tree.within(&[1, 2, 5], 2, &squared_euclidean).unwrap();
    assert_eq!(within, vec![(0, &100)]);
    let mut unsorted = plain(tree.within_unsorted(&[1, 2, 5], 10, &squared_euclidean).unwrap());
    unsorted.sort();
    assert_eq!(unsorted, vec![(0, 100), (3, 101)]);
}

#[test]
fn best_n_within_goes_by_payload() {
    let mut tree: KdTree<usize, 3> = KdTree::new();
    tree.add(&[1, 2, 5], 100).unwrap();
    tree.add(&[2, 3, 6], 1).unwrap();
    tree.add(&[200, 300, 600], 102).unwrap();
    let best = tree.best_n_within(&[1, 2, 5], 10, 1, &squared_euclidean).unwrap();
    assert_eq!(best, vec![1]);
    let mut both = tree.best_n_within(&[1, 2, 5], 10, 2, &squared_euclidean).unwrap();
    both.sort();
    assert_eq!(both, vec![1, 100]);
    let mut more = tree.best_n_within(&[1, 2, 5], 10, 5, &squared_euclidean).unwrap();
    more.sort();
    assert_eq!(more, vec![1, 100]);
    let none = tree.best_n_within(&[1, 2, 5], 10, 0, &squared_euclidean).unwrap();
    assert_eq!(none, Vec::<usize>::new());
    let mut iter = tree.best_n_within_into_iter(&[1, 2, 5], 10, 1, &squared_euclidean);
    assert_eq!(iter.next(), Some(1));
    assert_eq!(iter.next(), None);
}

#[test]
fn best_n_within_matches_brute_force() {
    let (tree, points) = sample_tree(11, 200, 4);
    let query = [3, -7, 12];
    for radius in [0, 50, 400, 2500] {
        for max_qty in [0usize, 1, 5, 300] {
            let mut expected: Vec<usize> = brute_force(&points, &query)
                .into_iter()
                .filter(|(d, _)| *d <= radius)
                .map(|(_, p)| p)
                .collect();
            expected.sort();
            expected.truncate(max_qty);
            let mut got = tree
                .best_n_within(&query, radius, max_qty, &squared_euclidean)
                .unwrap();
            got.sort();
            assert_eq!(got, expected);
        }
    }
}

#[test]
fn non_finite_points_are_refused() {
    let mut tree: KdTree<usize, 2> = KdTree::new();
    tree.add(&[1, 1], 7).unwrap();
    for bad in [[i64::MAX, 0], [0, i64::MIN]] {
        assert_eq!(tree.add(&bad, 1), Err(ErrorKind::NonFiniteCoordinate));
        assert_eq!(tree.size(), 1);
        assert_eq!(tree.remove(&bad, &7), Err(ErrorKind::NonFiniteCoordinate));
        assert_eq!(
            tree.nearest(&bad, 1, &squared_euclidean).err(),
            Some(ErrorKind::NonFiniteCoordinate)
        );
        assert_eq!(
            tree.nearest_one(&bad, &squared_euclidean).err(),
            Some(ErrorKind::NonFiniteCoordinate)
        );
        assert_eq!(
            tree.within(&bad, 1, &squared_euclidean).err(),
            Some(ErrorKind::NonFiniteCoordinate)
        );
        assert_eq!(
            tree.within_unsorted(&bad, 1, &squared_euclidean).err(),
            Some(ErrorKind::NonFiniteCoordinate)
        );
        assert_eq!(
            tree.best_n_within(&bad, 1, 1, &squared_euclidean).err(),
            Some(ErrorKind::NonFiniteCoordinate)
        );
        assert!(tree.iter_nearest(&bad, &squared_euclidean).is_err());
    }
    assert_eq!(tree.add(&[i64::MAX - 1, i64::MIN + 1], 2), Ok(()));
    assert_eq!(tree.size(), 2);
}

#[test]
fn nearest_is_clamped_to_the_size() {
    let (tree, _) = sample_tree(3, 10, 2);
    let query = [0, 0, 0];
    assert_eq!(tree.nearest(&query, 25, &squared_euclidean).unwrap().len(), 10);
    assert_eq!(tree.nearest(&query, 10, &squared_euclidean).unwrap().len(), 10);
    assert_eq!(tree.nearest(&query, 4, &squared_euclidean).unwrap().len(), 4);
    assert_eq!(tree.nearest(&query, 0, &squared_euclidean).unwrap().len(), 0);
}

#[test]
fn nearest_of_all_is_the_sorted_list() {
    for seed in 0..5 {
        let (tree, points) = sample_tree(seed, 120, 3);
        let query = [1, 2, 3];
        let expected = brute_force(&points, &query);
        let got = plain(tree.nearest(&query, tree.size(), &squared_euclidean).unwrap());
        let distances: Vec<i64> = got.iter().map(|x| x.0).collect();
        let expected_distances: Vec<i64> = expected.iter().map(|x| x.0).collect();
        assert_eq!(distances, expected_distances);
        let mut sorted = got.clone();
        sorted.sort();
        assert_eq!(sorted, expected);
    }
}

#[test]
fn nearest_takes_the_head_of_the_sorted_list() {
    for seed in 0..5 {
        let (tree, points) = sample_tree(100 + seed, 150, 4);
        let query = [-20, 30, 5];
        let expected = brute_force(&points, &query);
        for num in [1usize, 2, 7, 40] {
            let got = plain(tree.nearest(&query, num, &squared_euclidean).unwrap());
            let distances: Vec<i64> = got.iter().map(|x| x.0).collect();
            let expected_distances: Vec<i64> = expected[..num].iter().map(|x| x.0).collect();
            assert_eq!(distances, expected_distances);
            for (d, payload) in got {
                assert_eq!(squared_euclidean(&query, &points[payload]), d);
            }
        }
        let one = tree.nearest_one(&query, &squared_euclidean).unwrap();
        assert_eq!(one.0, expected[0].0);
        assert_eq!(squared_euclidean(&query, &points[*one.1]), one.0);
    }
}

#[test]
fn within_is_the_filtered_sorted_list() {
    for seed in 0..5 {
        let (tree, points) = sample_tree(200 + seed, 150, 4);
        let query = [10, -10, 0];
        for radius in [-1, 0, 30, 500, 100000] {
            let expected: Vec<(i64, usize)> = brute_force(&points, &query)
                .into_iter()
                .filter(|(d, _)| *d <= radius)
                .collect();
            let got = plain(tree.within(&query, radius, &squared_euclidean).unwrap());
            let distances: Vec<i64> = got.iter().map(|x| x.0).collect();
            let expected_distances: Vec<i64> = expected.iter().map(|x| x.0).collect();
            assert_eq!(distances, expected_distances);
            let mut sorted = got.clone();
            sorted.sort();
            assert_eq!(sorted, expected);
            let mut unsorted =
                plain(tree.within_unsorted(&query, radius, &squared_euclidean).unwrap());
            unsorted.sort();
            assert_eq!(unsorted, expected);
        }
    }
}

#[test]
fn results_never_decrease_in_distance() {
    let (tree, _) = sample_tree(42, 300, 5);
    let query = [7, 7, 7];
    let nearest = tree.nearest(&query, 60, &squared_euclidean).unwrap();
    assert!(nearest.windows(2).all(|w| w[0].0 <= w[1].0));
    let within = tree.within(&query, 900, &squared_euclidean).unwrap();
    assert!(within.windows(2).all(|w| w[0].0 <= w[1].0));
    assert!(!within.is_empty());
}

#[test]
fn walk_yields_what_nearest_of_all_returns() {
    let (tree, points) = sample_tree(77, 90, 3);
    let query = [0, 5, -5];
    let metric = squared_euclidean::<3>;
    let mut walk = tree.iter_nearest(&query, &metric).unwrap();
    let mut walked = Vec::new();
    while let Some((d, payload)) = walk.next() {
        walked.push((d, *payload));
    }
    assert_eq!(walk.next(), None);
    let nearest = plain(tree.nearest(&query, tree.size(), &squared_euclidean).unwrap());
    let walked_distances: Vec<i64> = walked.iter().map(|x| x.0).collect();
    let nearest_distances: Vec<i64> = nearest.iter().map(|x| x.0).collect();
    assert_eq!(walked_distances, nearest_distances);
    let mut a = walked.clone();
    a.sort();
    assert_eq!(a, brute_force(&points, &query));
}

#[test]
fn walk_begins_with_the_nearest() {
    let mut tree: KdTree<usize, 3> = KdTree::new();
    tree.add(&[10, 20, 50], 100).unwrap();
    tree.add(&[20, 30, 60], 101).unwrap();
    let query = [10, 20, 51];
    let metric = squared_euclidean::<3>;
    let mut walk = tree.iter_nearest(&query, &metric).unwrap();
    assert_eq!(walk.next(), Some((1, &100)));
    assert_eq!(walk.next(), Some((281, &101)));
    assert_eq!(walk.next(), None);
}

#[test]
fn squared_euclidean_adds_the_squares() {
    assert_eq!(squared_euclidean(&[0, 0], &[3, 4]), 25);
    assert_eq!(squared_euclidean(&[-1, 2, 5], &[1, 2, 4]), 5);
    assert_eq!(squared_euclidean(&[7], &[7]), 0);
    assert_eq!(squared_euclidean::<0>(&[], &[]), 0);
}

#[test]
fn squared_euclidean_stops_at_the_largest_scalar() {
    assert_eq!(squared_euclidean(&[i64::MAX], &[i64::MIN]), i64::MAX);
    assert_eq!(squared_euclidean(&[4_000_000_000], &[0]), i64::MAX);
    assert_eq!(
        squared_euclidean(&[3_000_000_000, 3_000_000_000], &[0, 0]),
        i64::MAX
    );
    assert_eq!(
        squared_euclidean(&[3_000_000_000, 1], &[0, 0]),
        9_000_000_000_000_000_001
    );
    assert_eq!(squared_euclidean(&[-5, i64::MIN], &[-5, i64::MIN + 2]), 4);
}
