//! Fixture source: declarations moved down by a comment above them.
use vstd::prelude::*;

verus! {

/// A unit record type.
pub struct Store;

impl Store {
    /// Does nothing.
    pub fn upsert(&self) {
    }
}

/// Calls `upsert`.
pub fn drive(store: &Store) {
    store.upsert();
}

} // verus!
