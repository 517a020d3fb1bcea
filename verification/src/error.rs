//! Error taxonomy for block and stream coding.

use vstd::prelude::*;

verus! {

/// Errors reported by the codec.
///
/// `Corrupt` covers every format violation: bad varints, out-of-range
/// offsets, length mismatches and unknown chunk types. `TooLarge` is
/// reserved for blocks whose decoded size exceeds the 32-bit ceiling.
#[derive(Debug, Clone, PartialEq, Eq)]
pub enum Error {
    /// The input data is corrupt.
    Corrupt,
    /// The decoded block is too large.
    TooLarge,
    /// The input format is unsupported.
    Unsupported,
    /// CRC mismatch (streams only).
    CrcMismatch,
    /// Caller-supplied buffer too small.
    BufferTooSmall,
    /// Semantic misuse of the API.
    InvalidInput(&'static str),
}

} // verus!
