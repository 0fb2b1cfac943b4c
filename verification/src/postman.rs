//! Route inspection, also known as the Chinese Postman problem: a closed walk
//! over a connected multigraph that traverses every edge, found by making all
//! degrees even and extracting an Eulerian circuit.

pub mod circuit;
pub mod connectivity;
pub mod degree;
pub mod eulerize;
pub mod lemmas;
pub mod model;
pub mod plan;
pub mod validate;

pub use circuit::{find_path, Route};
pub use connectivity::graph_is_connected;
pub use degree::{edge_is_odd, vertex_is_odd};
pub use eulerize::{duplicate_odd_edges, Eulerized};
pub use validate::is_well_formed;

use crate::geometry::{Edge, Vertex};
use crate::id::IDGenerator;
use crate::postman::circuit::{circuit_of, is_euler_circuit};
use crate::postman::eulerize::{
    eulerization, lemma_eulerization_adds_edges, lemma_eulerization_keeps_connectivity,
    newly_issued,
};
use crate::postman::model::{
    connected, copies, degree, holds, knows, no_edges, row, rows, well_formed,
};
use crate::postman::plan::{duplication_plan, edge_count};
use crate::prelude::AdjList;
use vstd::prelude::*;

verus! {

/// Why no route could be produced. Every failure is deterministic: the same
/// input fails in the same way again.
#[derive(Debug, Copy, Clone, PartialEq, Eq, Structural)]
pub enum PostmanError {
    /// Some vertex cannot be reached from the start of the walk, so no closed
    /// walk covers the graph.
    DisconnectedGraph,
    /// A vertex of odd degree was handed to the circuit builder.
    OddVertex,
    /// The vertex list and the adjacency structure do not describe a
    /// multigraph: see [`model::well_formed`].
    MalformedAdjacency,
}

/// A closed walk over a graph together with the Eulerization that it covers.
pub struct Tour {
    /// The closed walk: it uses every edge of `eulerized.map` exactly once.
    pub route: Route,
    /// The graph with the duplicated edges, and whether every edge had to be
    /// duplicated.
    pub eulerized: Eulerized,
}

/// Solves the route inspection problem: a closed walk that traverses every
/// edge of the graph at least once.
///
/// The graph is Eulerized first, by duplicating edges with identities from
/// `gen`, and the walk is an Eulerian circuit of the Eulerized graph: it
/// traverses every edge of `map` and every duplicate exactly once. The walk
/// starts and ends at the first listed vertex. A graph without edges has the
/// empty walk. The circuit builder is never handed an odd vertex, so
/// `OddVertex` is not among the failures.
///
/// `gen` must have issued the identities of the edges of `map`, which it has
/// if the edges were made with it, and must be able to issue one identity for
/// each duplicate.
pub fn path<G: IDGenerator>(vertices: Vec<Vertex>, map: AdjList, gen: &mut G) -> (r: Result<
    Tour,
    PostmanError,
>)
    requires
        forall|id: usize| knows(rows(&map), id) ==> old(gen).issued().contains(id),
        old(gen).remaining() >= duplication_plan(vertices@, rows(&map)).len(),
    ensures
        match r {
            Ok(tour) => {
                &&& well_formed(vertices@, rows(&map))
                &&& no_edges(rows(&map)) || connected(vertices@, rows(&map), Set::empty())
                &&& eulerization(
                    vertices@,
                    rows(&map),
                    tour.eulerized.added@,
                    tour.eulerized.fallback,
                    rows(&tour.eulerized.map),
                )
                &&& newly_issued(old(gen).issued(), tour.eulerized.added@, final(gen).issued())
                &&& is_euler_circuit(
                    vertices@,
                    rows(&tour.eulerized.map),
                    tour.route.vertices@,
                    tour.route.edges@,
                )
                &&& forall|id: usize| knows(rows(&map), id) ==> holds(tour.route.edges@, id)
                &&& tour.route.edges@.len() == edge_count(vertices@, rows(&map))
                    + tour.eulerized.added@.len()
            },
            Err(PostmanError::MalformedAdjacency) => {
                &&& !well_formed(vertices@, rows(&map))
                &&& *final(gen) == *old(gen)
            },
            Err(PostmanError::DisconnectedGraph) => {
                &&& well_formed(vertices@, rows(&map))
                &&& !no_edges(rows(&map))
                &&& !connected(vertices@, rows(&map), Set::empty())
                &&& exists|added: Seq<Edge>| #[trigger]
                    newly_issued(old(gen).issued(), added, final(gen).issued()) && copies(
                        added,
                        duplication_plan(vertices@, rows(&map)),
                    )
            },
            Err(PostmanError::OddVertex) => false,
        },
        well_formed(vertices@, rows(&map)) ==> final(gen).remaining() == old(gen).remaining()
            - duplication_plan(vertices@, rows(&map)).len(),
{
    let eulerized = match duplicate_odd_edges(&vertices, &map, gen) {
        Ok(e) => e,
        Err(e) => {
            return Err(e);
        },
    };
    proof {
        lemma_eulerization_keeps_connectivity(
            vertices@,
            rows(&map),
            eulerized.added@,
            eulerized.fallback,
            rows(&eulerized.map),
        );
        lemma_eulerization_adds_edges(
            vertices@,
            rows(&map),
            eulerized.added@,
            eulerized.fallback,
            rows(&eulerized.map),
        );
    }
    match circuit_of(&vertices, &eulerized.map) {
        Ok(route) => {
            proof {
                let g0 = rows(&map);
                let g1 = rows(&eulerized.map);
                assert forall|id: usize| knows(g0, id) implies holds(route.edges@, id) by {
                    let (k, i) = choose|k: usize, i: int|
                        0 <= i < row(g0, k).len() && (#[trigger] row(g0, k)[i]).id() == id;
                    assert(row(g0, k).is_prefix_of(row(g1, k)));
                    assert(row(g1, k)[i].id() == id);
                    assert(knows(g1, id));
                    assert(degree(g1, k) > 0);
                }
            }
            Ok(Tour { route, eulerized })
        },
        Err(e) => {
            assert(newly_issued(old(gen).issued(), eulerized.added@, gen.issued()));
            Err(e)
        },
    }
}

} // verus!
