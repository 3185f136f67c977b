//! The identifier allocator: one persisted counter per record type with
//! generated identifiers, issuing strictly increasing numbers.

use vstd::prelude::*;

verus! {

/// A counter issuing strictly increasing numeric identifiers, starting above
/// zero. An identifier is consumed the instant it is issued, whether or not
/// a record is ever saved under it.
pub struct IdAllocator {
    last: u64,
}

impl IdAllocator {
    /// The identifier issued last; identifiers up to and including it are
    /// consumed.
    pub closed spec fn last_issued(self) -> u64 {
        self.last
    }

    /// A fresh allocator; the first identifier it issues is one.
    pub fn new() -> (a: IdAllocator)
        ensures
            a.last_issued() == 0,
    {
        IdAllocator { last: 0 }
    }

    /// Issue the next identifier: one more than the last, never reused.
    pub fn next_id(&mut self) -> (id: u64)
        requires
            old(self).last_issued() < u64::MAX,
        ensures
            id == old(self).last_issued() + 1,
            final(self).last_issued() == id,
    {
        self.last = self.last + 1;
        self.last
    }
}

} // verus!
