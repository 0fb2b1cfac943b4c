//! Route inspection on graphs whose vertices are points in space.
//!
//! The crate answers the Chinese Postman question for connected, undirected
//! multigraphs: it makes every vertex degree even by duplicating edges and then
//! extracts a closed walk that traverses every edge exactly once.

pub mod geometry;
pub mod id;
pub mod postman;
pub mod prelude;
