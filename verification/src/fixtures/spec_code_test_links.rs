//! Fixture source: a store that counts its upserts.
use vstd::prelude::*;

verus! {

/// Implements: FR-001-AC-1
pub struct Store {
    pub count: u32,
}

impl Store {
    /// Counts one more upsert.
    pub fn upsert(&mut self)
        requires
            old(self).count < u32::MAX,
        ensures
            final(self).count == old(self).count + 1,
    {
        self.count += 1;
    }
}

} // verus!
