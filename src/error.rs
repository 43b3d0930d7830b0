//! What can go wrong in sealing and opening.
use vstd::prelude::*;

verus! {

/// Why sealing or opening a diary failed.
#[derive(Debug, Clone, Copy, PartialEq, Eq, Structural)]
pub enum CipherError {
    /// The key could not be derived from the password (it is too long).
    KeyDerivation,
    /// A chunk did not verify: wrong password, or altered or reordered data.
    Authentication,
    /// The container is malformed: shorter than its header, or its final
    /// chunk is too short to hold a tag.
    Format,
    /// The stream needs more chunks than the 32-bit counter can number.
    StreamTooLong,
}

} // verus!
