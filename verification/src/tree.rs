//! The tree itself: its nodes, what it holds, when it is well formed, and
//! how it is built.

use crate::errors::ErrorKind;
use crate::scalar::{infinity, is_finite, neg_infinity, spec_is_finite, INFINITY, NEG_INFINITY};
use vstd::prelude::*;

verus! {

/// A k-d tree over points of `K` integer coordinates, each stored with a
/// payload of type `T`. A tree is also the type of each of its subtrees.
#[derive(Debug)]
pub struct KdTree<T, const K: usize> {
    pub(crate) size: usize,
    pub(crate) min_bounds: [i64; K],
    pub(crate) max_bounds: [i64; K],
    pub(crate) content: Node<T, K>,
    pub(crate) periodic: Option<[i64; K]>,
}

/// What a tree holds: a bucket of points, or two subtrees and the plane
/// that parts them.
#[derive(Debug)]
pub enum Node<T, const K: usize> {
    Stem {
        left: Box<KdTree<T, K>>,
        right: Box<KdTree<T, K>>,
        split_value: i64,
        split_dimension: usize,
    },
    Leaf { points: Vec<[i64; K]>, bucket: Vec<T>, capacity: usize },
}

/// Whether `p` lies in the box between `lo` and `hi`, on every axis.
pub open spec fn in_box<const K: usize>(p: [i64; K], lo: [i64; K], hi: [i64; K]) -> bool {
    forall|d: int| 0 <= d < K ==> lo@[d] <= #[trigger] p@[d] <= hi@[d]
}

/// Whether every coordinate of `p` is finite.
pub open spec fn all_finite<const K: usize>(p: [i64; K]) -> bool {
    forall|d: int| 0 <= d < K ==> spec_is_finite(#[trigger] p@[d])
}

/// Whether `p` lies in the periodic cell of side lengths `periodic`:
/// `0 <= p[d] < periodic[d]` on every axis.
pub open spec fn in_cell<const K: usize>(p: [i64; K], periodic: [i64; K]) -> bool {
    forall|d: int| 0 <= d < K ==> 0 <= #[trigger] p@[d] < periodic@[d]
}

/// The verdict on a point that is handed to a tree with the given period:
/// a coordinate that is not finite is refused first, then a point outside
/// the periodic cell.
pub open spec fn spec_check_point<const K: usize>(
    point: [i64; K],
    periodic: Option<[i64; K]>,
) -> Result<(), ErrorKind> {
    if !all_finite(point) {
        Err(ErrorKind::NonFiniteCoordinate)
    } else if periodic is Some && !in_cell(point, periodic.unwrap()) {
        Err(ErrorKind::PeriodicOutOfBounds)
    } else {
        Ok(())
    }
}

impl<T, const K: usize> KdTree<T, K> {
    /// The pairs of point and payload that the tree holds: those of a leaf
    /// in the order of its bucket, those of a stem left subtree first.
    pub open(crate) spec fn entries(self) -> Seq<([i64; K], T)>
        decreases self,
    {
        match self.content {
            Node::Leaf { points, bucket, capacity } => Seq::new(
                points@.len(),
                |i: int| (points@[i], bucket@[i]),
            ),
            Node::Stem { left, right, split_value, split_dimension } => left.entries()
                + right.entries(),
        }
    }

    /// The number of pairs that the tree records.
    pub open(crate) spec fn spec_size(self) -> usize {
        self.size
    }

    /// Whether the tree is a single bucket.
    pub open(crate) spec fn spec_is_leaf(self) -> bool {
        self.content is Leaf
    }

    /// The lower corner of the tree's bounding box.
    pub open(crate) spec fn spec_min_bounds(self) -> [i64; K] {
        self.min_bounds
    }

    /// The upper corner of the tree's bounding box.
    pub open(crate) spec fn spec_max_bounds(self) -> [i64; K] {
        self.max_bounds
    }

    /// The period of the domain, if the tree is periodic.
    pub open(crate) spec fn spec_periodic(self) -> Option<[i64; K]> {
        self.periodic
    }

    /// What the tree holds at its root.
    pub open(crate) spec fn spec_content(self) -> Node<T, K> {
        self.content
    }

    /// The number of points that a leaf of the tree may hold before it
    /// is split.
    pub open(crate) spec fn spec_capacity(self) -> usize
        decreases self,
    {
        match self.content {
            Node::Leaf { capacity, .. } => capacity,
            Node::Stem { left, .. } => left.spec_capacity(),
        }
    }

    /// Whether the bounding box contains every point of the tree.
    pub open(crate) spec fn bounds_hold(self) -> bool {
        forall|i: int|
            0 <= i < self.entries().len() ==> in_box(
                (#[trigger] self.entries()[i]).0,
                self.min_bounds,
                self.max_bounds,
            )
    }

    /// Whether every point of a periodic tree lies in the cell of the
    /// tree's period. Of a tree without a period nothing is asked.
    pub open(crate) spec fn cell_holds(self) -> bool {
        self.periodic matches Some(l) ==> forall|i: int|
            0 <= i < self.entries().len() ==> in_cell((#[trigger] self.entries()[i]).0, l)
    }

    /// Whether the tree may take the point: it lies in the cell of the
    /// tree's period, if the tree has one.
    pub open(crate) spec fn admits(self, point: [i64; K]) -> bool {
        self.periodic matches Some(l) ==> in_cell(point, l)
    }

    /// Whether the bounding box has no extent: on no axis does its upper
    /// bound exceed its lower bound.
    pub open(crate) spec fn degenerate(self) -> bool {
        forall|d: int| 0 <= d < K ==> #[trigger] self.max_bounds@[d] <= self.min_bounds@[d]
    }

    /// Whether the root, if it is a leaf, respects its capacity: it holds no
    /// more points than that, unless its bounding box has no extent (all its
    /// points then coincide, and no plane can part them).
    pub open(crate) spec fn within_capacity(self) -> bool {
        match self.content {
            Node::Leaf { points, bucket, capacity } => points@.len() <= capacity
                || self.degenerate(),
            Node::Stem { .. } => true,
        }
    }

    /// All of well-formedness but the capacity of the root: the size is the
    /// number of pairs held, the bounding box contains every point, each
    /// point of a periodic tree lies in the cell of its period, a leaf
    /// pairs each point with a payload and has room for at least one, and a
    /// stem cuts along an axis of the space, with only points below the cut
    /// on its left and only points at or above it on its right, between two
    /// well-formed subtrees that share the tree's period and have leaves of
    /// one capacity.
    pub open(crate) spec fn wf_but_capacity(self) -> bool
        decreases self,
    {
        &&& self.size == self.entries().len()
        &&& self.bounds_hold()
        &&& self.cell_holds()
        &&& match self.content {
            Node::Leaf { points, bucket, capacity } => {
                &&& points@.len() == bucket@.len()
                &&& capacity >= 1
            },
            Node::Stem { left, right, split_value, split_dimension } => {
                &&& split_dimension < K
                &&& left.wf_but_capacity()
                &&& left.within_capacity()
                &&& right.wf_but_capacity()
                &&& right.within_capacity()
                &&& left.periodic == self.periodic
                &&& right.periodic == self.periodic
                &&& left.spec_capacity() == right.spec_capacity()
                &&& forall|i: int|
                    0 <= i < left.entries().len() ==> (#[trigger] left.entries()[i]).0@[split_dimension as int]
                        < split_value
                &&& forall|i: int|
                    0 <= i < right.entries().len() ==> (#[trigger] right.entries()[i]).0@[split_dimension as int]
                        >= split_value
            },
        }
    }

    /// The tree is well formed: its size is the number of pairs it holds,
    /// its bounding box contains every point, and every node beneath it is
    /// sound and every leaf within its capacity.
    pub open(crate) spec fn wf(self) -> bool {
        &&& self.wf_but_capacity()
        &&& self.within_capacity()
    }

    /// The number of nodes of the tree: of leaves and stems together.
    pub open(crate) spec fn nodes(self) -> nat
        decreases self,
    {
        match self.content {
            Node::Leaf { .. } => 1,
            Node::Stem { left, right, .. } => 1 + left.nodes() + right.nodes(),
        }
    }

    /// Whether `t` is this tree or one of the trees beneath it.
    pub open(crate) spec fn has_subtree(self, t: KdTree<T, K>) -> bool
        decreases self,
    {
        self == t || match self.content {
            Node::Leaf { .. } => false,
            Node::Stem { left, right, .. } => left.has_subtree(t) || right.has_subtree(t),
        }
    }

    /// A well-formed tree records as its size the number of pairs it holds,
    /// and its bounding box contains each of their points.
    pub proof fn lemma_size_and_bounds(self)
        requires
            self.wf_but_capacity(),
        ensures
            self.spec_size() == self.entries().len(),
            self.bounds_hold(),
            self.cell_holds(),
    {
    }

    /// Creates an empty tree whose leaves hold up to 16 points.
    pub fn new() -> (r: Self)
        ensures
            r.wf(),
            r.entries() =~= Seq::empty(),
            r.spec_size() == 0,
            r.spec_is_leaf(),
            r.spec_periodic() is None,
            r.spec_capacity() == 16,
    {
        match Self::with_per_node_capacity(16) {
            Ok(tree) => tree,
            Err(_) => Self::empty_leaf(16, None),
        }
    }

    /// Creates an empty periodic tree whose leaves hold up to 16 points.
    pub fn new_periodic(periodic: [i64; K]) -> (r: Self)
        ensures
            r.wf(),
            r.entries() =~= Seq::empty(),
            r.spec_size() == 0,
            r.spec_is_leaf(),
            r.spec_periodic() == Some(periodic),
            r.spec_capacity() == 16,
    {
        match Self::periodic_with_per_node_capacity(16, periodic) {
            Ok(tree) => tree,
            Err(_) => Self::empty_leaf(16, Some(periodic)),
        }
    }

    /// An empty leaf of the given capacity and period, with a bounding box
    /// that contains nothing.
    pub(crate) fn empty_leaf(capacity: usize, periodic: Option<[i64; K]>) -> (r: Self)
        requires
            capacity >= 1,
        ensures
            r.wf(),
            r.tight(),
            r.entries() =~= Seq::empty(),
            r.size == 0,
            r.periodic == periodic,
            r.content is Leaf,
            r.spec_capacity() == capacity,
            forall|d: int| 0 <= d < K ==> r.min_bounds@[d] == INFINITY,
            forall|d: int| 0 <= d < K ==> r.max_bounds@[d] == NEG_INFINITY,
    {
        let top: i64 = infinity();
        let bottom: i64 = neg_infinity();
        let tree = KdTree {
            size: 0,
            min_bounds: [top; K],
            max_bounds: [bottom; K],
            content: Node::Leaf { points: Vec::new(), bucket: Vec::new(), capacity },
            periodic,
        };
        assert forall|d: int| 0 <= d < K implies #[trigger] tree.void_on(d) by {}
        tree
    }

    /// Creates an empty tree whose leaves hold up to `capacity` points.
    /// A capacity of zero is refused.
    pub fn with_per_node_capacity(capacity: usize) -> (r: Result<Self, ErrorKind>)
        ensures
            capacity == 0 <==> r is Err,
            r is Err ==> r == Err::<Self, ErrorKind>(ErrorKind::ZeroCapacity),
            r matches Ok(tree) ==> {
                &&& tree.wf()
                &&& tree.entries() =~= Seq::empty()
                &&& tree.spec_size() == 0
                &&& tree.spec_is_leaf()
                &&& tree.spec_periodic() is None
                &&& tree.spec_capacity() == capacity
                &&& forall|d: int| 0 <= d < K ==> tree.spec_min_bounds()@[d] == INFINITY
                &&& forall|d: int| 0 <= d < K ==> tree.spec_max_bounds()@[d] == NEG_INFINITY
            },
    {
        if capacity == 0 {
            return Err(ErrorKind::ZeroCapacity);
        }
        Ok(Self::empty_leaf(capacity, None))
    }

    /// Creates an empty periodic tree, on a domain of side lengths
    /// `periodic`, whose leaves hold up to `capacity` points. A capacity of
    /// zero is refused.
    pub fn periodic_with_per_node_capacity(capacity: usize, periodic: [i64; K]) -> (r: Result<
        Self,
        ErrorKind,
    >)
        ensures
            capacity == 0 <==> r is Err,
            r is Err ==> r == Err::<Self, ErrorKind>(ErrorKind::ZeroCapacity),
            r matches Ok(tree) ==> {
                &&& tree.wf()
                &&& tree.entries() =~= Seq::empty()
                &&& tree.spec_size() == 0
                &&& tree.spec_is_leaf()
                &&& tree.spec_periodic() == Some(periodic)
                &&& tree.spec_capacity() == capacity
                &&& forall|d: int| 0 <= d < K ==> tree.spec_min_bounds()@[d] == INFINITY
                &&& forall|d: int| 0 <= d < K ==> tree.spec_max_bounds()@[d] == NEG_INFINITY
            },
    {
        if capacity == 0 {
            return Err(ErrorKind::ZeroCapacity);
        }
        Ok(Self::empty_leaf(capacity, Some(periodic)))
    }

    /// Creates an empty tree whose leaves hold up to `capacity` points: the
    /// older name of `with_per_node_capacity`.
    pub fn with_capacity(capacity: usize) -> (r: Result<Self, ErrorKind>)
        ensures
            capacity == 0 <==> r is Err,
            r is Err ==> r == Err::<Self, ErrorKind>(ErrorKind::ZeroCapacity),
            r matches Ok(tree) ==> {
                &&& tree.wf()
                &&& tree.entries() =~= Seq::empty()
                &&& tree.spec_size() == 0
                &&& tree.spec_is_leaf()
                &&& tree.spec_periodic() is None
                &&& tree.spec_capacity() == capacity
                &&& forall|d: int| 0 <= d < K ==> tree.spec_min_bounds()@[d] == INFINITY
                &&& forall|d: int| 0 <= d < K ==> tree.spec_max_bounds()@[d] == NEG_INFINITY
            },
    {
        Self::with_per_node_capacity(capacity)
    }

    /// The number of pairs that the tree holds.
    pub fn size(&self) -> (r: usize)
        ensures
            r == self.spec_size(),
            self.wf() ==> r == self.entries().len(),
    {
        self.size
    }

    /// Whether the tree is a single bucket, not yet split.
    pub fn is_leaf(&self) -> (r: bool)
        ensures
            r == self.spec_is_leaf(),
    {
        match &self.content {
            Node::Leaf { .. } => true,
            Node::Stem { .. } => false,
        }
    }

    /// What the tree holds at its root.
    pub fn content(&self) -> (r: &Node<T, K>)
        ensures
            *r == self.spec_content(),
    {
        &self.content
    }

    /// The lower corner of the bounding box of the points ever added.
    pub fn min_bounds(&self) -> (r: &[i64; K])
        ensures
            *r == self.spec_min_bounds(),
    {
        &self.min_bounds
    }

    /// The upper corner of the bounding box of the points ever added.
    pub fn max_bounds(&self) -> (r: &[i64; K])
        ensures
            *r == self.spec_max_bounds(),
    {
        &self.max_bounds
    }

    /// Whether some point of the tree lies on the lower bound of axis `d`.
    pub open(crate) spec fn touches_lower(self, d: int) -> bool {
        exists|i: int|
            0 <= i < self.entries().len() && (#[trigger] self.entries()[i]).0@[d]
                == self.min_bounds@[d]
    }

    /// Whether some point of the tree lies on the upper bound of axis `d`.
    pub open(crate) spec fn touches_upper(self, d: int) -> bool {
        exists|i: int|
            0 <= i < self.entries().len() && (#[trigger] self.entries()[i]).0@[d]
                == self.max_bounds@[d]
    }

    /// Whether the bounding box of an empty tree contains nothing on axis
    /// `d`.
    pub open(crate) spec fn void_on(self, d: int) -> bool {
        self.min_bounds@[d] == INFINITY && self.max_bounds@[d] == NEG_INFINITY
    }

    /// Whether the bounding box is no wider than the points need: that of
    /// an empty tree contains nothing, and a tree that has points has, on
    /// each axis, one at the lower bound and one at the upper bound.
    pub open(crate) spec fn tight(self) -> bool {
        &&& self.entries().len() == 0 ==> forall|d: int| 0 <= d < K ==> #[trigger] self.void_on(d)
        &&& self.entries().len() > 0 ==> forall|d: int|
            #![trigger self.touches_lower(d)]
            #![trigger self.touches_upper(d)]
            0 <= d < K ==> self.touches_lower(d) && self.touches_upper(d)
    }

    /// Checks a point that is about to be stored or searched for: each
    /// coordinate finite and, in a periodic tree, inside the cell.
    pub(crate) fn check_point(&self, point: &[i64; K]) -> (r: Result<(), ErrorKind>)
        ensures
            r == spec_check_point(*point, self.periodic),
    {
        let mut d: usize = 0;
        while d < K
            invariant
                0 <= d <= K,
                forall|j: int| 0 <= j < d ==> spec_is_finite(#[trigger] point@[j]),
            decreases K - d,
        {
            if !is_finite(point[d]) {
                return Err(ErrorKind::NonFiniteCoordinate);
            }
            d += 1;
        }
        match &self.periodic {
            None => Ok(()),
            Some(periodic) => {
                let mut d: usize = 0;
                while d < K
                    invariant
                        0 <= d <= K,
                        all_finite(*point),
                        self.periodic == Some(*periodic),
                        forall|j: int| 0 <= j < d ==> 0 <= #[trigger] point@[j] < periodic@[j],
                    decreases K - d,
                {
                    if point[d] < 0 || point[d] >= periodic[d] {
                        assert(!(0 <= point@[d as int] < periodic@[d as int]));
                        return Err(ErrorKind::PeriodicOutOfBounds);
                    }
                    d += 1;
                }
                Ok(())
            },
        }
    }

    /// Whether a point belongs under the left subtree of this stem: its
    /// coordinate on the split axis lies below the split value.
    pub(crate) fn belongs_in_left(&self, point: &[i64; K]) -> (r: bool)
        requires
            self.content matches Node::Stem { split_dimension, .. } && split_dimension < K,
        ensures
            self.content matches Node::Stem { split_dimension, split_value, .. } && r == (
            point@[split_dimension as int] < split_value),
    {
        match &self.content {
            Node::Stem { split_dimension, split_value, .. } => point[*split_dimension]
                < *split_value,
            Node::Leaf { .. } => false,
        }
    }

    /// Widens the bounding box so that it contains `point`.
    pub(crate) fn extend(&mut self, point: &[i64; K])
        ensures
            final(self).size == old(self).size,
            final(self).content == old(self).content,
            final(self).periodic == old(self).periodic,
            forall|d: int|
                0 <= d < K ==> #[trigger] final(self).min_bounds@[d] == (if point@[d] < old(
                    self,
                ).min_bounds@[d] {
                    point@[d]
                } else {
                    old(self).min_bounds@[d]
                }),
            forall|d: int|
                0 <= d < K ==> #[trigger] final(self).max_bounds@[d] == (if point@[d] > old(
                    self,
                ).max_bounds@[d] {
                    point@[d]
                } else {
                    old(self).max_bounds@[d]
                }),
    {
        let mut d: usize = 0;
        while d < K
            invariant
                0 <= d <= K,
                self.size == old(self).size,
                self.content == old(self).content,
                self.periodic == old(self).periodic,
                forall|j: int|
                    0 <= j < d ==> #[trigger] self.min_bounds@[j] == (if point@[j] < old(
                        self,
                    ).min_bounds@[j] {
                        point@[j]
                    } else {
                        old(self).min_bounds@[j]
                    }),
                forall|j: int|
                    0 <= j < d ==> #[trigger] self.max_bounds@[j] == (if point@[j] > old(
                        self,
                    ).max_bounds@[j] {
                        point@[j]
                    } else {
                        old(self).max_bounds@[j]
                    }),
                forall|j: int| d <= j < K ==> #[trigger] self.min_bounds@[j] == old(self).min_bounds@[j],
                forall|j: int| d <= j < K ==> #[trigger] self.max_bounds@[j] == old(self).max_bounds@[j],
            decreases K - d,
        {
            if point[d] < self.min_bounds[d] {
                self.min_bounds[d] = point[d];
            }
            if point[d] > self.max_bounds[d] {
                self.max_bounds[d] = point[d];
            }
            d += 1;
        }
    }
}

/// Whether `copy` holds the pairs of `items` place by place: the same
/// points, each with a clone of its payload.
pub open spec fn copied_from<T: Clone, const K: usize>(
    items: Seq<([i64; K], T)>,
    copy: Seq<([i64; K], T)>,
) -> bool {
    &&& copy.len() == items.len()
    &&& forall|i: int|
        0 <= i < items.len() ==> (#[trigger] copy[i]).0 == items[i].0 && cloned::<T>(
            items[i].1,
            copy[i].1,
        )
}

impl<T: Clone, const K: usize> KdTree<T, K> {
    /// A tree of the same shape that holds the same points, each with a
    /// clone of its payload.
    pub fn duplicate(&self) -> (r: Self)
        ensures
            self.wf_but_capacity() ==> copied_from(self.entries(), r.entries()),
            r.spec_size() == self.spec_size(),
            r.spec_min_bounds() == self.spec_min_bounds(),
            r.spec_max_bounds() == self.spec_max_bounds(),
            r.spec_periodic() == self.spec_periodic(),
            r.spec_is_leaf() == self.spec_is_leaf(),
            r.spec_capacity() == self.spec_capacity(),
            self.wf_but_capacity() ==> r.wf_but_capacity(),
            self.wf() ==> r.wf(),
        decreases self,
    {
        let content = match &self.content {
            Node::Leaf { points, bucket, capacity } => {
                let mut copies: Vec<[i64; K]> = Vec::new();
                let mut i: usize = 0;
                while i < points.len()
                    invariant
                        0 <= i <= points@.len(),
                        copies@ == points@.take(i as int),
                    decreases points@.len() - i,
                {
                    copies.push(points[i]);
                    assert(points@.take(i + 1) =~= points@.take(i as int).push(points@[i as int]));
                    i += 1;
                }
                assert(points@.take(points@.len() as int) =~= points@);
                Node::Leaf { points: copies, bucket: bucket.clone(), capacity: *capacity }
            },
            Node::Stem { left, right, split_value, split_dimension } => {
                let left_copy = left.duplicate();
                let right_copy = right.duplicate();
                Node::Stem {
                    left: Box::new(left_copy),
                    right: Box::new(right_copy),
                    split_value: *split_value,
                    split_dimension: *split_dimension,
                }
            },
        };
        let copy = KdTree {
            size: self.size,
            min_bounds: self.min_bounds,
            max_bounds: self.max_bounds,
            content,
            periodic: self.periodic,
        };
        proof {
            if self.wf_but_capacity() {
                if self.content is Stem {
                    let left = self.content->Stem_left;
                    let right = self.content->Stem_right;
                    let left_copy = copy.content->Stem_left;
                    let right_copy = copy.content->Stem_right;
                    assert forall|i: int| 0 <= i < self.entries().len() implies (
                    #[trigger] copy.entries()[i]).0 == self.entries()[i].0 && cloned::<T>(
                        self.entries()[i].1,
                        copy.entries()[i].1,
                    ) by {
                        if i < left.entries().len() {
                            assert(copy.entries()[i] == left_copy.entries()[i]);
                            assert(self.entries()[i] == left.entries()[i]);
                        } else {
                            let j = i - left.entries().len();
                            assert(copy.entries()[i] == right_copy.entries()[j]);
                            assert(self.entries()[i] == right.entries()[j]);
                        }
                    }
                } else {
                    let bucket = self.content->Leaf_bucket;
                    let bucket_copy = copy.content->Leaf_bucket;
                    assert forall|i: int| 0 <= i < self.entries().len() implies (
                    #[trigger] copy.entries()[i]).0 == self.entries()[i].0 && cloned::<T>(
                        self.entries()[i].1,
                        copy.entries()[i].1,
                    ) by {
                        assert(cloned::<T>(bucket[i], bucket_copy[i]));
                    }
                }
                assert(copied_from(self.entries(), copy.entries()));
                if self.periodic is Some {
                    assert forall|i: int| 0 <= i < copy.entries().len() implies in_cell(
                        (#[trigger] copy.entries()[i]).0,
                        self.periodic.unwrap(),
                    ) by {
                        assert(in_cell(self.entries()[i].0, self.periodic.unwrap()));
                    }
                }
                assert forall|i: int| 0 <= i < copy.entries().len() implies in_box(
                    (#[trigger] copy.entries()[i]).0,
                    copy.min_bounds,
                    copy.max_bounds,
                ) by {
                    assert(in_box(self.entries()[i].0, self.min_bounds, self.max_bounds));
                }
                if self.content is Stem {
                    let left = self.content->Stem_left;
                    let right = self.content->Stem_right;
                    let split_value = self.content->Stem_split_value;
                    let split_dimension = self.content->Stem_split_dimension;
                    let left_copy = copy.content->Stem_left;
                    let right_copy = copy.content->Stem_right;
                    assert forall|i: int| 0 <= i < left_copy.entries().len() implies (
                    #[trigger] left_copy.entries()[i]).0@[split_dimension as int]
                        < split_value by {
                        assert(left.entries()[i].0@[split_dimension as int] < split_value);
                    }
                    assert forall|i: int| 0 <= i < right_copy.entries().len() implies (
                    #[trigger] right_copy.entries()[i]).0@[split_dimension as int]
                        >= split_value by {
                        assert(right.entries()[i].0@[split_dimension as int] >= split_value);
                    }
                }
            }
        }
        copy
    }
}

impl<T: Clone, const K: usize> Clone for KdTree<T, K> {
    /// A tree of the same shape that holds the same points, each with a
    /// clone of its payload.
    fn clone(&self) -> (r: Self)
        ensures
            self.wf() ==> copied_from(self.entries(), r.entries()),
            r.spec_size() == self.spec_size(),
            r.spec_min_bounds() == self.spec_min_bounds(),
            r.spec_max_bounds() == self.spec_max_bounds(),
            r.spec_periodic() == self.spec_periodic(),
            r.spec_is_leaf() == self.spec_is_leaf(),
            r.spec_capacity() == self.spec_capacity(),
            self.wf() ==> r.wf(),
    {
        self.duplicate()
    }
}

} // verus!
