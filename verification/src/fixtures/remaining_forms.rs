//! Fixture source: the declaration forms that remain (nested functions, deep modules).
use vstd::prelude::*;

verus! {

/// A function that declares a nested function.
pub fn host() {
    nested_in_host();
}

/// The function nested in `host`.
fn nested_in_host() {
}

} // verus!
