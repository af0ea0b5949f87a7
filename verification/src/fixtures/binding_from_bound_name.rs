//! Fixture source: a receiver bound through a chain of names.
use vstd::prelude::*;

verus! {

/// A unit record type.
pub struct Store;

impl Store {
    /// Does nothing.
    pub fn upsert(&self) {
    }
}

/// Calls `upsert` through two rebindings.
pub fn drive(first: &Store) {
    let second = first;
    let third = second;
    third.upsert();
}

} // verus!
