//! Fixture source: the first of two files that declare the same handler.
use vstd::prelude::*;

verus! {

/// A unit record type.
pub struct Handler;

impl Handler {
    /// Does nothing.
    pub fn handle(&self) {
    }
}

/// Builds a handler and calls it.
pub fn alpha_driver() {
    let h = Handler;
    h.handle();
}

} // verus!
