//! Degree parity of vertices and edges.

use crate::geometry::{Edge, Vertex};
use crate::postman::model::{is_odd, joins_odd, rows};
use crate::prelude::AdjList;
use vstd::prelude::*;

verus! {

/// Whether the number of edges incident to `vertex` is odd. A vertex that the
/// structure does not mention has degree zero.
pub fn vertex_is_odd(vertex: &Vertex, map: &AdjList) -> (r: bool)
    ensures
        r == is_odd(rows(map), vertex.id()),
{
    let k: usize = vertex.id();
    match map.get(&k) {
        Some(v) => v.len() % 2 == 1,
        None => false,
    }
}

/// Whether both endpoints of `edge` have odd degree. This says nothing of how
/// often the edge itself occurs: it is the condition under which one more
/// edge between the two endpoints makes both of them even.
pub fn edge_is_odd(edge: &Edge, map: &AdjList) -> (r: bool)
    ensures
        r == joins_odd(rows(map), *edge),
{
    let (a, b) = edge.vertices();
    vertex_is_odd(a, map) && vertex_is_odd(b, map)
}

} // verus!
