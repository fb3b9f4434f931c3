use vstd::prelude::*;

verus! {

/// Why a conversion was refused.
#[derive(Debug, Clone, Copy, PartialEq, Eq, Structural)]
pub enum ConvertError {
    /// The bit depth lies outside `1..=8`.
    InvalidBitDepth,
    /// There are no bytes to find a most frequent value in.
    EmptyInput,
    /// A run of the most frequent value is longer than a 16-bit counter holds.
    RunTooLong,
}

} // verus!
