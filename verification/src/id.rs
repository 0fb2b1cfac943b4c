//! Identity issuance.

use vstd::prelude::*;

verus! {

/// A source of identities that never hands out the same integer twice.
///
/// A generator that is to be used from verified code says which identities it
/// has issued and how many it can still issue. The two have bodies here only
/// so that a generator written without proofs need not name them.
pub trait IDGenerator {
    /// The type of the identities.
    type ID;

    /// The identities handed out so far.
    open spec fn issued(&self) -> Set<usize> {
        Set::empty()
    }

    /// How many more identities the generator is able to hand out.
    open spec fn remaining(&self) -> nat {
        0
    }

    /// Hands out an identity that this generator has never produced before.
    fn get_id(&mut self) -> (id: usize)
        requires
            old(self).remaining() > 0,
        ensures
            !old(self).issued().contains(id),
            final(self).issued() == old(self).issued().insert(id),
            final(self).remaining() == old(self).remaining() - 1,
    ;
}

/// Hands out `0, 1, 2, ...` in order.
///
/// The generator is neither `Copy` nor `Clone`, so a counter cannot be forked
/// into two that would repeat each other's identities.
#[derive(Debug)]
pub struct SequentialGenerator {
    counter: usize,
}

impl SequentialGenerator {
    /// The identity that the next call of `get_id` returns.
    pub closed spec fn spec_peek(&self) -> usize {
        self.counter
    }

    /// The identity that the next call of `get_id` returns. Every identity
    /// below it has been issued, and no other.
    #[verifier::when_used_as_spec(spec_peek)]
    pub fn peek(&self) -> (r: usize)
        ensures
            r == self.spec_peek(),
    {
        self.counter
    }

    /// A generator that starts at zero.
    pub fn new() -> (g: Self)
        ensures
            g.peek() == 0,
    {
        Self { counter: 0 }
    }
}

impl Default for SequentialGenerator {
    fn default() -> (g: Self)
        ensures
            g.peek() == 0,
    {
        SequentialGenerator::new()
    }
}

impl IDGenerator for SequentialGenerator {
    type ID = usize;

    open spec fn issued(&self) -> Set<usize> {
        Set::new(|i: usize| i < self.peek())
    }

    open spec fn remaining(&self) -> nat {
        (usize::MAX - self.peek()) as nat
    }

    fn get_id(&mut self) -> (id: usize)
        ensures
            id == old(self).peek(),
            final(self).peek() == old(self).peek() + 1,
    {
        let id = self.counter;
        self.counter = self.counter + 1;
        proof {
            assert(self.issued() =~= old(self).issued().insert(id));
        }
        id
    }
}

} // verus!
