//! Geometric primitives: points in space, vertices and edges with identity.

pub mod edge;
pub mod vertex;

pub use edge::Edge;
pub use vertex::{Position, Vertex};
