//! Fixture source: a trait implemented by a store.
use vstd::prelude::*;

verus! {

/// Something that can be saved.
pub trait Persist {
    fn save(&self);
}

/// A unit record type.
pub struct Store;

impl Persist for Store {
    fn save(&self) {
    }
}

} // verus!
