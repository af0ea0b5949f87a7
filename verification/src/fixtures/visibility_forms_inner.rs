//! Fixture source: functions of each visibility in a nested module.
use vstd::prelude::*;

verus! {

/// Visible to the parent module.
pub(super) fn super_visible() {
}

/// Visible within the crate.
pub(crate) fn crate_visible() {
}

/// Visible everywhere.
pub fn fully_public() {
}

/// Visible within this module.
fn module_private() {
}

} // verus!
