//! Identifiers and their allocator.

use vstd::prelude::*;

verus! {

/// An opaque handle. Two entities of one run never share an identifier; the
/// numeric order of identifiers carries no meaning beyond breaking ties.
#[derive(Debug, Copy, Clone, PartialEq, Eq, Hash, Structural)]
pub struct Id(pub u64);

/// Issues identifiers in increasing order, starting at zero.
#[derive(Debug, Clone, PartialEq, Eq)]
pub struct IdGen {
    pub next: u64,
}

impl IdGen {
    /// An identifier is fresh for this allocator when it has not been issued yet.
    pub open spec fn is_fresh(&self, id: Id) -> bool {
        id.0 >= self.next
    }

    /// An allocator that has issued nothing.
    pub fn new() -> (id_gen: Self)
        ensures
            id_gen.next == 0,
    {
        Self { next: 0 }
    }

    /// Issues the next identifier.
    pub fn gen(&mut self) -> (id: Id)
        requires
            old(self).next < u64::MAX,
        ensures
            id.0 == old(self).next,
            final(self).next == old(self).next + 1,
    {
        let id = Id(self.next);
        self.next += 1;
        id
    }
}

} // verus!
