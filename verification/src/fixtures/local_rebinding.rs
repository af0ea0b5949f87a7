//! Fixture source: two types with the same method, each reached through its own parameter.
use vstd::prelude::*;

verus! {

/// A unit record type.
pub struct Store;

impl Store {
    /// Does nothing.
    pub fn upsert(&self) {
    }
}

/// A unit record type.
pub struct Cache;

impl Cache {
    /// Does nothing.
    pub fn upsert(&self) {
    }
}

/// Calls `Store::upsert`.
pub fn narrow(handle: &Store) {
    handle.upsert();
}

/// Calls `Cache::upsert`.
pub fn other(handle: &Cache) {
    handle.upsert();
}

} // verus!
