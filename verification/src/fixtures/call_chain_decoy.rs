//! Fixture source: a decoy call chain independent of the entry chain.
use vstd::prelude::*;

verus! {

/// A unit record type.
pub struct Decoy;

impl Decoy {
    /// Always two.
    pub fn compute(&self) -> (r: u32)
        ensures
            r == 2,
    {
        2
    }
}

/// The decoy chain's entry: two.
pub fn decoy_entry() -> (r: u32)
    ensures
        r == 2,
{
    let decoy = Decoy;
    decoy.compute()
}

} // verus!
