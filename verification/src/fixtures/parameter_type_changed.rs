//! Fixture source: a method whose parameter type changed.
use vstd::prelude::*;

verus! {

/// A unit record type.
pub struct Store;

impl Store {
    /// The low 32 bits of `id`.
    pub fn compute(&self, id: u64) -> (r: u32)
        ensures
            r == id % 0x1_0000_0000,
    {
        proof {
            assert(id as u32 == id % 0x1_0000_0000) by (bit_vector);
        }
        id as u32
    }
}

} // verus!
