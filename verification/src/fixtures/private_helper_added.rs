//! Fixture source: a private helper added beside unchanged declarations.
use vstd::prelude::*;

verus! {

/// A unit record type.
pub struct Store;

impl Store {
    /// Does nothing.
    pub fn upsert(&self) {
    }
}

/// Calls `upsert`.
pub fn drive(store: &Store) {
    store.upsert();
}

/// A helper nothing calls.
fn private_helper() {
}

} // verus!
