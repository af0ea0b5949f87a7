//! Fixture source: an inherent method beside a trait of the same name.
use vstd::prelude::*;

verus! {

/// Something that can be saved.
pub trait Persist {
    fn save(&self);
}

/// A unit record type.
pub struct Store;

impl Store {
    /// Does nothing.
    pub fn save(&self) {
    }
}

} // verus!
