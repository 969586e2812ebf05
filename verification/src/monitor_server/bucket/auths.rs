//! Authentication records (not collected yet).
use vstd::prelude::*;

verus! {

/// Collects authentication records; there are none to collect yet.
pub fn fetch() {
}

} // verus!
