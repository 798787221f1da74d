//! Allocation of node identifiers.
//!
//! Identifiers are unique, monotonically increasing, and never reused. One
//! allocator serves a whole process: the node arena owns it, so every node
//! created through the arena, in whatever scene graph, gets a fresh id.

use vstd::prelude::*;

verus! {

/// Issues unique, monotonically increasing identifiers.
pub struct IdAllocator {
    next: usize,
}

impl IdAllocator {
    /// The next identifier that will be issued; every identifier issued so
    /// far is strictly below it.
    pub closed spec fn next_spec(&self) -> nat {
        self.next as nat
    }

    pub fn new() -> (r: IdAllocator)
        ensures
            r.next_spec() == 0,
    {
        IdAllocator { next: 0 }
    }

    /// Returns a fresh identifier strictly greater than every previously
    /// issued one in this process; never reuses a value.
    pub fn next_id(&mut self) -> (id: usize)
        requires
            old(self).next_spec() < usize::MAX,
        ensures
            id == old(self).next_spec(),
            final(self).next_spec() == old(self).next_spec() + 1,
    {
        let id: usize = self.next;
        self.next = self.next + 1;
        id
    }
}

} // verus!
