//! The ways in which an operation on the tree can fail.

use vstd::prelude::*;

verus! {

/// Why an operation was refused.
#[derive(Debug, PartialEq, Eq, Clone, Copy)]
pub enum ErrorKind {
    /// In a periodic tree, a coordinate outside `0 <= x < L` on its axis.
    PeriodicOutOfBounds,
    /// A coordinate that is one of the two infinities.
    NonFiniteCoordinate,
    /// A capacity of zero points per leaf.
    ZeroCapacity,
    /// A query that needs a stored point, on a tree that holds none.
    Empty,
}

impl ErrorKind {
    /// The text that describes this error in spec terms.
    pub open spec fn spec_message(self) -> Seq<char> {
        match self {
            ErrorKind::PeriodicOutOfBounds =>
                "KdTree error: out-of-bounds when using periodic boundary conditions"@,
            ErrorKind::NonFiniteCoordinate => "KdTree error: non-finite coordinate"@,
            ErrorKind::ZeroCapacity => "KdTree error: zero capacity"@,
            ErrorKind::Empty => "KdTree error: invalid operation on empty tree"@,
        }
    }

    /// The text that describes this error.
    pub fn message(&self) -> (r: &'static str)
        ensures
            r@ == self.spec_message(),
    {
        match self {
            ErrorKind::PeriodicOutOfBounds =>
                "KdTree error: out-of-bounds when using periodic boundary conditions",
            ErrorKind::NonFiniteCoordinate => "KdTree error: non-finite coordinate",
            ErrorKind::ZeroCapacity => "KdTree error: zero capacity",
            ErrorKind::Empty => "KdTree error: invalid operation on empty tree",
        }
    }
}

} // verus!
