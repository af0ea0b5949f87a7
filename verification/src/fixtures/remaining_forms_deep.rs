//! Fixture source: a function two modules deep.
use vstd::prelude::*;

verus! {

/// A function declared two modules deep.
pub fn deep() {
}

} // verus!
