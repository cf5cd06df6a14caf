//! A bucketed k-d tree over points of integer coordinates, each stored with
//! a payload: nearest-neighbour, radius and best-payload queries, on an
//! unbounded domain or on a periodic one.
//!
//! A coordinate and a distance are scalars: 64-bit integers, of which the
//! least stands for negative infinity and the greatest for positive
//! infinity. Arithmetic on scalars saturates at the two.
//!
//! A query takes the metric as a function value. Its contract speaks of the
//! distances through any function `m` that says what the metric returns
//! (`metric::models`): for the squared Euclidean distance that is
//! `distance::squared_euclidean_model`.

pub mod best;
pub mod distance;
pub mod errors;
pub mod iter;
pub mod laws;
pub mod lemmas;
pub mod metric;
pub mod mutate;
pub mod nearest;
pub mod nearest_one;
pub mod payload;
pub mod periodic;
pub mod scalar;
pub mod search;
pub mod tree;
pub mod wrapping;

pub use errors::ErrorKind;
pub use iter::NearestIter;
pub use metric::get_distance;
pub use tree::{KdTree, Node};
