//! The failures that the namespace layer itself reports.

use vstd::prelude::*;

verus! {

/// Why the layer refused a call.
#[derive(Debug, Clone, Copy, PartialEq, Eq, Structural)]
pub enum ErrorKind {
    /// The tag asked for is a byte-prefix of a registered tag, or a
    /// registered tag is a byte-prefix of it.
    TagConflict,
    /// The label is longer than the four-byte length in front of it can say.
    ContractViolation,
}

} // verus!
