//! Fixture source: a driver in another file with a store of the same name.
use vstd::prelude::*;

verus! {

/// A unit record type.
pub struct Store;

impl Store {
    /// Does nothing.
    pub fn flush(&self) {
    }
}

/// Flushes a store.
pub fn outside_driver(store: &Store) {
    store.flush();
}

} // verus!
