//! Edges: a pair of endpoints together with an identity.

use crate::geometry::vertex::Vertex;
use crate::id::IDGenerator;
use std::cmp::Ordering;
use vstd::prelude::*;
use vstd::std_specs::cmp::{PartialEqSpecImpl, PartialOrdSpecImpl};

verus! {

/// An edge between two vertices. Two edges are the same edge exactly when
/// their identities agree, so parallel edges between the same endpoints can
/// coexist.
#[derive(Debug, Copy, Clone)]
pub struct Edge {
    vertices: (Vertex, Vertex),
    id: usize,
}

impl Edge {
    /// The identity of the edge.
    pub closed spec fn spec_id(&self) -> usize {
        self.id
    }

    /// The two endpoints, in the order in which the edge was given them.
    pub closed spec fn ends(&self) -> (Vertex, Vertex) {
        self.vertices
    }

    /// Whether the vertex with identity `v` is exactly one of the two endpoints.
    pub open spec fn touches(&self, v: usize) -> bool {
        (self.ends().0.spec_id() == v) != (self.ends().1.spec_id() == v)
    }

    /// The endpoint across from the vertex with identity `v`.
    pub open spec fn across(&self, v: usize) -> Vertex {
        if self.ends().0.spec_id() == v {
            self.ends().1
        } else {
            self.ends().0
        }
    }

    /// An edge between `vertices` with the next identity of `gen`.
    pub fn new<G: IDGenerator>(vertices: (Vertex, Vertex), gen: &mut G) -> (e: Self)
        requires
            old(gen).remaining() > 0,
        ensures
            e.ends() == vertices,
            !old(gen).issued().contains(e.spec_id()),
            final(gen).issued() == old(gen).issued().insert(e.spec_id()),
            final(gen).remaining() == old(gen).remaining() - 1,
    {
        Self { vertices, id: gen.get_id() }
    }

    /// The two endpoints, in the order in which the edge was given them.
    pub fn vertices(&self) -> (r: (&Vertex, &Vertex))
        ensures
            *r.0 == self.ends().0,
            *r.1 == self.ends().1,
    {
        (&self.vertices.0, &self.vertices.1)
    }

    /// The identity of the edge.
    #[verifier::when_used_as_spec(spec_id)]
    pub fn id(&self) -> (r: usize)
        ensures
            r == self.spec_id(),
    {
        self.id
    }

    /// The order of two edges, which is the order of their identities.
    pub fn cmp(&self, other: &Self) -> (r: Ordering)
        ensures
            match r {
                Ordering::Less => self.spec_id() < other.spec_id(),
                Ordering::Equal => self.spec_id() == other.spec_id(),
                Ordering::Greater => self.spec_id() > other.spec_id(),
            },
    {
        if self.id < other.id {
            Ordering::Less
        } else if self.id == other.id {
            Ordering::Equal
        } else {
            Ordering::Greater
        }
    }

    /// The endpoint that is not `vertex`. `None` when `vertex` is neither
    /// endpoint, and also when it is both, which only a self-loop allows.
    pub fn other_vertex(&self, vertex: Vertex) -> (r: Option<Vertex>)
        ensures
            r == if self.touches(vertex.spec_id()) {
                Some(self.across(vertex.spec_id()))
            } else {
                None::<Vertex>
            },
    {
        let first = self.vertices.0.id() == vertex.id();
        let second = self.vertices.1.id() == vertex.id();
        if first && !second {
            Some(self.vertices.1)
        } else if second && !first {
            Some(self.vertices.0)
        } else {
            None
        }
    }
}

impl PartialEq for Edge {
    fn eq(&self, other: &Edge) -> (r: bool) {
        self.id == other.id
    }
}

impl PartialEqSpecImpl for Edge {
    open spec fn obeys_eq_spec() -> bool {
        true
    }

    open spec fn eq_spec(&self, other: &Edge) -> bool {
        self.spec_id() == other.spec_id()
    }
}

impl Eq for Edge {

}

impl PartialOrd for Edge {
    fn partial_cmp(&self, other: &Edge) -> (r: Option<Ordering>) {
        if self.id < other.id {
            Some(Ordering::Less)
        } else if self.id == other.id {
            Some(Ordering::Equal)
        } else {
            Some(Ordering::Greater)
        }
    }
}

impl PartialOrdSpecImpl for Edge {
    open spec fn obeys_partial_cmp_spec() -> bool {
        true
    }

    open spec fn partial_cmp_spec(&self, other: &Edge) -> Option<Ordering> {
        if self.spec_id() < other.spec_id() {
            Some(Ordering::Less)
        } else if self.spec_id() == other.spec_id() {
            Some(Ordering::Equal)
        } else {
            Some(Ordering::Greater)
        }
    }
}

} // verus!
