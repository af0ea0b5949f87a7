//! Fixture source: the export surface of a store.
use vstd::prelude::*;

verus! {

/// Something that can be saved.
pub trait Persist {
    fn save(&self) -> u32;
}

/// A unit record type.
pub struct Store;

impl Store {
    /// Gives `id` back.
    pub fn exported(&self, id: u32) -> (r: u32)
        ensures
            r == id,
    {
        id
    }

    /// Visible within the crate.
    pub(crate) fn crate_visible(&self) {
    }

    /// Visible within the module.
    fn private_helper(&self) {
    }
}

impl Persist for Store {
    /// Saves nothing and reports zero.
    fn save(&self) -> (r: u32)
        ensures
            r == 0,
    {
        0
    }
}

} // verus!
