//! Fixture source: one of each common declaration form.
use vstd::prelude::*;

verus! {

/// A record with a counter.
pub struct Store {
    pub count: u32,
}

/// A two-state switch.
pub enum Mode {
    On,
    Off,
}

/// Something that can be saved.
pub trait Persist {
    fn save(&self);
}

/// A handle is a plain number.
pub type Handle = u32;

impl Store {
    /// Leaves the record as it is.
    pub fn upsert(&self) {
    }
}

/// A free function that does nothing.
pub fn free_function() {
}

} // verus!
