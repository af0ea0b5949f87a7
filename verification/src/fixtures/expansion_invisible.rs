//! Fixture source: a function written out literally.
use vstd::prelude::*;

verus! {

/// Does nothing.
pub fn written_literally() {
}

} // verus!
