//! The ways in which decoding a frame can fail.

use vstd::prelude::*;

verus! {

/// Why a payload could not be decoded.
#[derive(Debug, Clone, PartialEq, Eq)]
pub enum DecodeError {
    /// The matrix declares no frame with this identifier.
    FrameNotFound { id: String },
    /// The payload length differs from the length the frame declares.
    LengthMismatch { id: String, expected: i32, actual: usize },
    /// The named signal reaches past the end of the payload.
    PayloadTooShort { signal: String },
    /// The named signal is wider than the 32 bits a value can hold.
    UnsupportedBitWidth { signal: String, bit_length: i32 },
}

} // verus!
