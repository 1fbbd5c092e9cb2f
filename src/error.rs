//! Errors reported by the codec.
use vstd::prelude::*;

verus! {

/// Why an encode or decode request was refused.
#[derive(Debug, Clone, Copy, PartialEq, Eq, Structural)]
pub enum CodecError {
    /// The token-field bit widths do not describe a usable indicator.
    InvalidConfig,
    /// There is nothing to encode: a frequency table needs an entry.
    EmptyInput,
    /// The stream is too long for the 32-bit frequency fields of the header.
    InputTooLarge,
    /// The compressed data is malformed: a length, a code or an offset
    /// points outside what the data holds.
    Corrupt,
}

} // verus!
