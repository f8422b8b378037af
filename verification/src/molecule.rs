//! Errors of the molecule text formats.  Reading the formats themselves
//! is host work; the host hands this library plain point data.

use vstd::prelude::*;
use vstd::string::StringExecFns;

verus! {

/// Returned when a molecule text format is not recognized.
#[derive(Debug)]
pub struct UnsupportedFormat {
    pub format: String,
}

impl UnsupportedFormat {
    /// The human-readable description of the error.
    pub fn message(&self) -> (m: String)
        ensures
            m@ == "Unsupported format "@ + self.format@,
    {
        let mut m = String::from_str("Unsupported format ");
        m.append(self.format.as_str());
        m
    }
}

} // verus!
