//! Fixture source: a receiver bound from a function's return type.
use vstd::prelude::*;

verus! {

/// A unit record type.
pub struct Store;

impl Store {
    /// Does nothing.
    pub fn upsert(&self) {
    }
}

/// Makes a store.
pub fn make() -> Store {
    Store
}

/// Calls `upsert` on a store made by `make`.
pub fn drive() {
    let store = make();
    store.upsert();
}

} // verus!
