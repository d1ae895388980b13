//! The errors that splitting and combining report.
use vstd::prelude::*;

verus! {

/// Why a split or a combine was refused.
#[derive(Debug, Clone, Copy, PartialEq, Eq, Structural)]
pub enum ShamirError {
    /// The threshold is outside `2..=255`, the share count is below the threshold
    /// or above 255, or the secret is empty.
    InvalidParameters,
    /// Fewer than two shares were given.
    InsufficientShares,
    /// A share is shorter than two bytes, or its x-coordinate is zero.
    MalformedShare,
    /// The shares differ in length.
    InconsistentShareLength,
    /// Two shares carry the same x-coordinate.
    DuplicateShare,
}

} // verus!
