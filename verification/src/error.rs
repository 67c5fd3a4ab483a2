pub use crate::header::DecodeHeaderError;

use vstd::prelude::*;

verus! {

/// Why a chunk stream failed to decode. These are the only two failure
/// kinds: the tag ranges cover every byte value, so no "invalid opcode"
/// case exists.
#[derive(Clone, Copy, Debug, PartialEq, Eq, Structural)]
pub enum DecodeChunksError {
    /// The byte source ran out while an opcode or its trailing bytes were
    /// still expected.
    UnexpectedInputEnd,
    /// The end-of-stream marker was missing or did not match the fixed
    /// 8-byte literal.
    BadEnding,
}

/// Why a whole image failed to decode.
#[derive(Clone, Copy, Debug, PartialEq, Eq)]
pub enum DecodeImageError {
    /// The input is too short to hold the 14-byte header.
    InvalidLength(usize),
    SizeMismatch,
    Header(DecodeHeaderError),
    Chunks(DecodeChunksError),
    InvalidDiffOp,
}

impl From<DecodeHeaderError> for DecodeImageError {
    fn from(v: DecodeHeaderError) -> (r: Self) {
        DecodeImageError::Header(v)
    }
}

impl vstd::std_specs::convert::FromSpecImpl<DecodeHeaderError> for DecodeImageError {
    open spec fn obeys_from_spec() -> bool {
        true
    }

    open spec fn from_spec(v: DecodeHeaderError) -> Self {
        DecodeImageError::Header(v)
    }
}

impl From<DecodeChunksError> for DecodeImageError {
    fn from(e: DecodeChunksError) -> (r: Self) {
        DecodeImageError::Chunks(e)
    }
}

impl vstd::std_specs::convert::FromSpecImpl<DecodeChunksError> for DecodeImageError {
    open spec fn obeys_from_spec() -> bool {
        true
    }

    open spec fn from_spec(e: DecodeChunksError) -> Self {
        DecodeImageError::Chunks(e)
    }
}

} // verus!
