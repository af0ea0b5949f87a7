//! Fixture source: the module nested in the declaration forms.
use vstd::prelude::*;

verus! {

/// A function declared in a nested module.
pub fn nested() {
}

} // verus!
