//! Fixture source: a recursive method and a recursive free function.
use vstd::prelude::*;

verus! {

/// A unit record type.
pub struct Store;

impl Store {
    /// Counts `n` down to zero.
    pub fn recurse(&self, n: u32) -> (r: u32)
        ensures
            r == 0,
        decreases n,
    {
        if n == 0 {
            0
        } else {
            self.recurse(n - 1)
        }
    }
}

/// Counts `n` down to zero.
pub fn plain_recursion(n: u32) -> (r: u32)
    ensures
        r == 0,
    decreases n,
{
    if n == 0 {
        0
    } else {
        plain_recursion(n - 1)
    }
}

} // verus!
