//! Fixture source: a call through a generic receiver.
use vstd::prelude::*;

verus! {

/// Something that can be saved.
pub trait Persist {
    fn save(&self);
}

/// A unit record type.
pub struct Disk;

impl Persist for Disk {
    fn save(&self) {
    }
}

/// A unit record type.
pub struct Memory;

impl Persist for Memory {
    fn save(&self) {
    }
}

/// Saves any sink.
pub fn run<T: Persist>(sink: &T) {
    sink.save();
}

} // verus!
