//! Fixture source: a driver whose store is declared in the same file.
use vstd::prelude::*;

verus! {

/// A unit record type.
pub struct Store;

impl Store {
    /// Does nothing.
    pub fn flush(&self) {
    }
}

/// Flushes a store.
pub fn local_driver(store: &Store) {
    store.flush();
}

} // verus!
