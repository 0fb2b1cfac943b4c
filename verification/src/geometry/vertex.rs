//! Vertices: a point in space together with an identity.

use crate::id::{IDGenerator, SequentialGenerator};
use std::cmp::Ordering;
use vstd::prelude::*;
use vstd::std_specs::cmp::{PartialEqSpecImpl, PartialOrdSpecImpl};

verus! {

/// Three coordinates, each carried as the bit pattern of an IEEE 754 binary64
/// number. The library moves positions around and never interprets them, so
/// two positions are equal when their bit patterns are, which is finer than
/// equality of the numbers.
#[derive(Debug, Copy, Clone, PartialEq, Eq, Structural)]
pub struct Position {
    pub x: u64,
    pub y: u64,
    pub z: u64,
}

/// A point in space with an identity. Two vertices are the same graph node
/// exactly when their identities agree, wherever they lie.
#[derive(Debug, Copy, Clone)]
pub struct Vertex {
    value: Position,
    id: usize,
}

impl Vertex {
    /// The identity of the vertex.
    pub closed spec fn spec_id(&self) -> usize {
        self.id
    }

    /// The position of the vertex.
    pub closed spec fn spec_value(&self) -> Position {
        self.value
    }

    /// A vertex at `value` with the next identity of `gen`.
    pub fn new(value: Position, gen: &mut SequentialGenerator) -> (v: Self)
        requires
            old(gen).remaining() > 0,
        ensures
            v.spec_value() == value,
            v.spec_id() == old(gen).peek(),
            final(gen).peek() == old(gen).peek() + 1,
    {
        Self { value, id: gen.get_id() }
    }

    /// Mutable access to the position. The identity cannot be changed.
    pub fn mut_value(&mut self) -> (r: &mut Position)
        ensures
            *r == old(self).spec_value(),
            final(self).spec_value() == *final(r),
            final(self).spec_id() == old(self).spec_id(),
    {
        &mut self.value
    }

    /// The position of the vertex.
    pub fn value(&self) -> (r: &Position)
        ensures
            *r == self.spec_value(),
    {
        &self.value
    }

    /// The identity of the vertex.
    #[verifier::when_used_as_spec(spec_id)]
    pub fn id(&self) -> (r: usize)
        ensures
            r == self.spec_id(),
    {
        self.id
    }

    /// The order of two vertices, which is the order of their identities.
    pub fn cmp(&self, other: &Self) -> (r: Ordering)
        ensures
            match r {
                Ordering::Less => self.spec_id() < other.spec_id(),
                Ordering::Equal => self.spec_id() == other.spec_id(),
                Ordering::Greater => self.spec_id() > other.spec_id(),
            },
    {
        if self.id < other.id {
            Ordering::Less
        } else if self.id == other.id {
            Ordering::Equal
        } else {
            Ordering::Greater
        }
    }
}

impl PartialEq for Vertex {
    fn eq(&self, other: &Vertex) -> (r: bool) {
        self.id == other.id
    }
}

impl PartialEqSpecImpl for Vertex {
    open spec fn obeys_eq_spec() -> bool {
        true
    }

    open spec fn eq_spec(&self, other: &Vertex) -> bool {
        self.spec_id() == other.spec_id()
    }
}

impl Eq for Vertex {

}

impl PartialOrd for Vertex {
    fn partial_cmp(&self, other: &Vertex) -> (r: Option<Ordering>) {
        if self.id < other.id {
            Some(Ordering::Less)
        } else if self.id == other.id {
            Some(Ordering::Equal)
        } else {
            Some(Ordering::Greater)
        }
    }
}

impl PartialOrdSpecImpl for Vertex {
    open spec fn obeys_partial_cmp_spec() -> bool {
        true
    }

    open spec fn partial_cmp_spec(&self, other: &Vertex) -> Option<Ordering> {
        if self.spec_id() < other.spec_id() {
            Some(Ordering::Less)
        } else if self.spec_id() == other.spec_id() {
            Some(Ordering::Equal)
        } else {
            Some(Ordering::Greater)
        }
    }
}

} // verus!
