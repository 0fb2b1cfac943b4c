//! The mathematical model of an adjacency structure: rows of incident edges,
//! degrees, well-formedness and reachability.

use crate::geometry::{Edge, Vertex};
use crate::prelude::AdjList;
use vstd::prelude::*;

verus! {

/// A graph as the library reasons about it: for the identity of each vertex
/// that has a row, the edges of the row in order.
pub type Graph = Map<usize, Seq<Edge>>;

/// The rows of an adjacency structure, each as a sequence.
pub open spec fn rows(map: &AdjList) -> Graph {
    view_rows(map@)
}

/// The rows of a map as sequences.
pub open spec fn view_rows(m: Map<usize, Vec<Edge>>) -> Graph {
    Map::new(|k: usize| m.contains_key(k), |k: usize| m[k]@)
}

/// The incident edges of the vertex with identity `v`; empty for a vertex that
/// the structure does not mention.
pub open spec fn row(g: Graph, v: usize) -> Seq<Edge> {
    if g.contains_key(v) {
        g[v]
    } else {
        Seq::empty()
    }
}

/// The number of incident edges, parallel edges counted with multiplicity.
pub open spec fn degree(g: Graph, v: usize) -> nat {
    row(g, v).len()
}

/// The vertex has an odd number of incident edges.
pub open spec fn is_odd(g: Graph, v: usize) -> bool {
    degree(g, v) % 2 == 1
}

/// Both endpoints of `e` have odd degree, so one more edge between them makes
/// both even.
pub open spec fn joins_odd(g: Graph, e: Edge) -> bool {
    is_odd(g, e.ends().0.id()) && is_odd(g, e.ends().1.id())
}

/// No vertex has odd degree.
pub open spec fn all_even(g: Graph) -> bool {
    forall|v: usize| !is_odd(g, v)
}

/// The structure holds no edge at all.
pub open spec fn no_edges(g: Graph) -> bool {
    forall|v: usize| degree(g, v) == 0
}

/// No two listed vertices share an identity.
pub open spec fn distinct_ids(verts: Seq<Vertex>) -> bool {
    forall|i: int, j: int| 0 <= i < j < verts.len() ==> verts[i].id() != verts[j].id()
}

/// The vertex list holds a vertex with identity `v`.
pub open spec fn listed(verts: Seq<Vertex>, v: usize) -> bool {
    exists|i: int| 0 <= i < verts.len() && (#[trigger] verts[i]).id() == v
}

/// The sequence holds an edge with identity `id`.
pub open spec fn holds(s: Seq<Edge>, id: usize) -> bool {
    exists|j: int| 0 <= j < s.len() && (#[trigger] s[j]).id() == id
}

/// No two edges of the sequence share an identity.
pub open spec fn distinct_edges(s: Seq<Edge>) -> bool {
    forall|i: int, j: int| 0 <= i < j < s.len() ==> s[i].id() != s[j].id()
}

/// The two edges have the same endpoints in the same order.
pub open spec fn same_ends(a: Edge, b: Edge) -> bool {
    a.ends().0.id() == b.ends().0.id() && a.ends().1.id() == b.ends().1.id()
}

/// The edge `e`, found in the row of `k`, ends at `k` at exactly one side and
/// is registered in the row of its other endpoint as well.
pub open spec fn edge_sound(g: Graph, k: usize, e: Edge) -> bool {
    e.touches(k) && holds(row(g, e.across(k).id()), e.id())
}

/// Every edge in the row of `k` ends at `k` on exactly one side and is
/// registered with its other endpoint too, and none occurs twice in the row.
pub open spec fn row_sound(g: Graph, k: usize) -> bool {
    &&& forall|i: int| 0 <= i < row(g, k).len() ==> edge_sound(g, k, #[trigger] row(g, k)[i])
    &&& distinct_edges(row(g, k))
}

/// Wherever an identity occurs in the structure, it stands for the same pair
/// of endpoints.
pub open spec fn identities_agree(g: Graph) -> bool {
    forall|k1: usize, i1: int, k2: usize, i2: int|
        0 <= i1 < row(g, k1).len() && 0 <= i2 < row(g, k2).len() && (#[trigger] row(g, k1)[i1]).id()
            == (#[trigger] row(g, k2)[i2]).id() ==> same_ends(row(g, k1)[i1], row(g, k2)[i2])
}

/// The vertex list and the rows describe an undirected multigraph without
/// self-loops: listed identities are distinct, every row belongs to a listed
/// vertex, every edge of a row ends at the row's vertex and is registered
/// exactly once with each of its two endpoints, and an identity always names
/// the same edge.
pub open spec fn well_formed(verts: Seq<Vertex>, g: Graph) -> bool {
    &&& distinct_ids(verts)
    &&& forall|k: usize| g.contains_key(k) ==> listed(verts, k)
    &&& forall|k: usize| row_sound(g, k)
    &&& identities_agree(g)
}

/// The edge joins the vertices with identities `a` and `b`.
pub open spec fn joins(e: Edge, a: usize, b: usize) -> bool {
    e.touches(a) && e.across(a).id() == b
}

/// Some edge in the row of `a`, other than the skipped ones, leads to `b`.
pub open spec fn adjacent(g: Graph, skip: Set<usize>, a: usize, b: usize) -> bool {
    exists|i: int|
        0 <= i < row(g, a).len() && joins(#[trigger] row(g, a)[i], a, b) && !skip.contains(
            row(g, a)[i].id(),
        )
}

/// A sequence of vertex identities, each adjacent to the next.
pub open spec fn is_walk(g: Graph, skip: Set<usize>, p: Seq<usize>) -> bool {
    p.len() > 0 && forall|i: int|
        0 <= i < p.len() - 1 ==> adjacent(g, skip, #[trigger] p[i], p[i + 1])
}

/// A walk that avoids the skipped edges leads from `a` to `b`.
pub open spec fn reachable(g: Graph, skip: Set<usize>, a: usize, b: usize) -> bool {
    exists|p: Seq<usize>| #[trigger] is_walk(g, skip, p) && p[0] == a && p.last() == b
}

/// Every listed vertex can be reached from the first one without the skipped
/// edges. A graph without vertices is connected.
pub open spec fn connected(verts: Seq<Vertex>, g: Graph, skip: Set<usize>) -> bool {
    forall|i: int|
        0 <= i < verts.len() ==> reachable(g, skip, verts[0].id(), (#[trigger] verts[i]).id())
}

/// The edge value `e` stands in some row of the structure.
pub open spec fn occurs(g: Graph, e: Edge) -> bool {
    exists|k: usize, i: int| 0 <= i < row(g, k).len() && #[trigger] row(g, k)[i] == e
}

/// Some row of the structure holds an edge with identity `id`.
pub open spec fn knows(g: Graph, id: usize) -> bool {
    exists|k: usize, i: int| 0 <= i < row(g, k).len() && (#[trigger] row(g, k)[i]).id() == id
}

/// The structure with `d` appended to the rows of both of its endpoints.
pub open spec fn register(g: Graph, d: Edge) -> Graph {
    let a = d.ends().0.id();
    let b = d.ends().1.id();
    let g1 = g.insert(a, row(g, a).push(d));
    g1.insert(b, row(g1, b).push(d))
}

/// The structure with the edges of `ds` registered one after the other.
pub open spec fn register_all(g: Graph, ds: Seq<Edge>) -> Graph
    decreases ds.len(),
{
    if ds.len() == 0 {
        g
    } else {
        register(register_all(g, ds.drop_last()), ds.last())
    }
}

/// `ds` holds, position by position, an edge with the endpoints of the edge
/// that `es` holds there.
pub open spec fn copies(ds: Seq<Edge>, es: Seq<Edge>) -> bool {
    ds.len() == es.len() && forall|j: int| 0 <= j < ds.len() ==> (#[trigger] ds[j]).ends() == es[j].ends()
}

/// How many edges of the sequence have their identity in `marks`.
pub open spec fn marked(s: Seq<Edge>, marks: Set<usize>) -> nat
    decreases s.len(),
{
    if s.len() == 0 {
        0
    } else {
        marked(s.drop_last(), marks) + if marks.contains(s.last().id()) {
            1nat
        } else {
            0nat
        }
    }
}

/// How many ends of the edges of `ds` lie at the vertex with identity `k`.
pub open spec fn weight(ds: Seq<Edge>, k: usize) -> nat
    decreases ds.len(),
{
    if ds.len() == 0 {
        0
    } else {
        weight(ds.drop_last(), k) + if ds.last().touches(k) {
            1nat
        } else {
            0nat
        }
    }
}

/// The identities of the edges of a sequence.
pub open spec fn ids_of(s: Seq<Edge>) -> Set<usize> {
    Set::new(|x: usize| holds(s, x))
}

/// The identities of the listed vertices.
pub open spec fn id_set(verts: Seq<Vertex>) -> Set<usize> {
    Set::new(|k: usize| listed(verts, k))
}

/// The edge value `e` stands in the row of `k`.
pub open spec fn in_row(g: Graph, k: usize, e: Edge) -> bool {
    exists|j: int| 0 <= j < row(g, k).len() && #[trigger] row(g, k)[j] == e
}

} // verus!
