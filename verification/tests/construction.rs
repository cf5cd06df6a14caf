use kiddo::{ErrorKind, KdTree, Node};

fn random_point() -> ([i64; 2], i32) {
    let (pos, data) = rand::random::<([i32; 2], i32)>();
    ([pos[0] as i64, pos[1] as i64], data)
}

#[test]
fn it_has_default_capacity() {
    let tree: KdTree<i32, 2> = KdTree::new();
    match tree.content() {
        Node::Leaf { capacity, .. } => {
            assert_eq!(*capacity, 2_usize.pow(4));
        }
        Node::Stem { .. } => unreachable!(),
    }
}

#[test]
fn it_can_be_cloned() {
    let mut tree: KdTree<i32, 2> = KdTree::new();
    let (pos, data) = random_point();
    tree.add(&pos, data).unwrap();
    let mut cloned_tree = tree.clone();
    cloned_tree.add(&pos, data).unwrap();
    assert_eq!(tree.size(), 1);
    assert_eq!(cloned_tree.size(), 2);
}

#[test]
fn it_holds_on_to_its_capacity_before_splitting() {
    let mut tree: KdTree<i32, 2> = KdTree::new();
    let capacity = 2_usize.pow(4);
    for i in 0..capacity {
        let (mut pos, data) = random_point();
        pos[0] = pos[0] * 64 + i as i64;
        tree.add(&pos, data).unwrap();
    }
    assert_eq!(tree.size(), capacity);
    assert!(tree.is_leaf());
    {
        let (mut pos, data) = random_point();
        pos[0] = pos[0] * 64 + capacity as i64;
        tree.add(&pos, data).unwrap();
    }
    assert_eq!(tree.size(), capacity + 1);
    assert!(!tree.is_leaf());
}

#[test]
fn new_tree_is_an_empty_leaf_with_void_bounds() {
    let tree: KdTree<u8, 3> = KdTree::new();
    assert_eq!(tree.size(), 0);
    assert!(tree.is_leaf());
    assert_eq!(*tree.min_bounds(), [i64::MAX; 3]);
    assert_eq!(*tree.max_bounds(), [i64::MIN; 3]);
}

#[test]
fn new_periodic_tree_has_default_capacity() {
    let tree: KdTree<u8, 3> = KdTree::new_periodic([5, 5, 5]);
    assert_eq!(tree.size(), 0);
    match tree.content() {
        Node::Leaf { capacity, points, bucket } => {
            assert_eq!(*capacity, 16);
            assert!(points.is_empty());
            assert!(bucket.is_empty());
        }
        Node::Stem { .. } => unreachable!(),
    }
}

#[test]
fn zero_capacity_is_refused() {
    assert_eq!(
        KdTree::<u8, 2>::with_per_node_capacity(0).err(),
        Some(ErrorKind::ZeroCapacity)
    );
    assert_eq!(
        KdTree::<u8, 2>::with_capacity(0).err(),
        Some(ErrorKind::ZeroCapacity)
    );
    assert_eq!(
        KdTree::<u8, 2>::periodic_with_per_node_capacity(0, [4, 4]).err(),
        Some(ErrorKind::ZeroCapacity)
    );
}

#[test]
fn chosen_capacity_is_kept() {
    let tree = KdTree::<u8, 2>::with_per_node_capacity(30).unwrap();
    match tree.content() {
        Node::Leaf { capacity, .. } => assert_eq!(*capacity, 30),
        Node::Stem { .. } => unreachable!(),
    }
    let tree = KdTree::<u8, 2>::with_capacity(7).unwrap();
    match tree.content() {
        Node::Leaf { capacity, .. } => assert_eq!(*capacity, 7),
        Node::Stem { .. } => unreachable!(),
    }
    let tree = KdTree::<u8, 2>::periodic_with_per_node_capacity(3, [6, 6]).unwrap();
    match tree.content() {
        Node::Leaf { capacity, .. } => assert_eq!(*capacity, 3),
        Node::Stem { .. } => unreachable!(),
    }
}

#[test]
fn error_messages_name_the_error() {
    assert_eq!(
        ErrorKind::PeriodicOutOfBounds.message(),
        "KdTree error: out-of-bounds when using periodic boundary conditions"
    );
    assert_eq!(
        ErrorKind::NonFiniteCoordinate.message(),
        "KdTree error: non-finite coordinate"
    );
    assert_eq!(ErrorKind::ZeroCapacity.message(), "KdTree error: zero capacity");
    assert_eq!(
        ErrorKind::Empty.message(),
        "KdTree error: invalid operation on empty tree"
    );
}
