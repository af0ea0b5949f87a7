//! Fixture source: an inherent and a trait method of one name on one type.
use vstd::prelude::*;

verus! {

/// Something that can be saved.
pub trait Persist {
    fn save(&self);
}

/// A unit record type.
pub struct Store;

impl Store {
    /// Does nothing.
    pub fn save(&self) {
    }
}

impl Persist for Store {
    fn save(&self) {
        Store::save(self);
    }
}

} // verus!
