//! Fixture source: the visibility forms Rust can declare.
use vstd::prelude::*;

verus! {

/// Something with one trait item.
pub trait Persist {
    fn trait_item(&self);
}

/// A unit record type.
pub struct Store;

impl Persist for Store {
    fn trait_item(&self) {
    }
}

} // verus!
