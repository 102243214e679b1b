//! Allocation of connection identifiers.
use vstd::prelude::*;

verus! {

/// Hands out identifiers 1, 2, 3, ... until the counter is exhausted.
pub struct IdGenerator {
    x: u64,
}

impl IdGenerator {
    /// The last identifier handed out, 0 before the first.
    pub closed spec fn last(&self) -> u64 {
        self.x
    }

    pub fn new() -> (r: IdGenerator)
        ensures
            r.last() == 0,
    {
        IdGenerator { x: 0 }
    }

    /// The next identifier, or `None` once every `u64` has been used.
    pub fn generate(&mut self) -> (r: Option<u64>)
        ensures
            old(self).last() < u64::MAX ==> r == Some((old(self).last() + 1) as u64)
                && final(self).last() == old(self).last() + 1,
            old(self).last() == u64::MAX ==> r is None && final(self).last() == old(self).last(),
    {
        if self.x < u64::MAX {
            self.x = self.x + 1;
            Some(self.x)
        } else {
            None
        }
    }
}

} // verus!
