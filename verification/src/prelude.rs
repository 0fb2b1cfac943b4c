//! The names that most users of the crate need.

use vstd::prelude::*;

pub use crate::geometry::Edge;
pub use crate::geometry::Position;
pub use crate::geometry::Vertex;

verus! {

/// Adjacency structure: for the identity of each vertex, its incident edges
/// in order. Parallel edges count with multiplicity.
pub type AdjList = std::collections::BTreeMap<usize, Vec<Edge>>;

} // verus!
