//! Fixture source: generic declarations.
use vstd::prelude::*;

verus! {

/// Something that can be saved.
pub trait Persist {
    fn save(&self);
}

/// A runner over some inner value.
pub struct Runner<T> {
    pub inner: T,
}

impl<T: Persist> Runner<T> {
    /// Does nothing.
    pub fn run(&self) {
    }
}

/// A unit record type.
pub struct Store;

impl Persist for Store {
    fn save(&self) {
    }
}

} // verus!
