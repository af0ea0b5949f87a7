//! Fixture source: call sites that fold into one edge.
use vstd::prelude::*;

verus! {

/// A unit record type.
pub struct Store;

impl Store {
    /// Does nothing.
    pub fn upsert(&self) {
    }
}

/// Calls `upsert` once.
pub fn first(store: &Store) {
    store.upsert();
}

/// Calls `upsert` twice.
pub fn second(store: &Store) {
    store.upsert();
    store.upsert();
}

} // verus!
