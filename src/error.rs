//! Errors reported by the decoder.
use vstd::prelude::*;

verus! {

/// Failure of the byte source.
#[derive(Debug, Clone, Copy, PartialEq, Eq, Structural)]
pub enum IoError {
    /// The input ended before the data that was being read.
    UnexpectedEof,
}

/// Why a decode failed.
#[derive(Debug, Clone, Copy, PartialEq, Eq, Structural)]
pub enum DecodeError {
    /// Input source failure or unexpected end of input.
    Io(IoError),
    /// A marker was expected and the bytes found are not one.
    InvalidMarker,
    /// The stream uses a coding process this decoder does not handle.
    UnsupportedProfile,
    /// A segment's length or contents are inconsistent.
    MalformedSegment,
    /// No code of a Huffman table matches the bits read, or the table is not defined.
    InvalidHuffmanCode,
    /// A block's coefficients run past its 64 positions, or do not fit.
    InvalidCoefficient,
}

impl From<IoError> for DecodeError {
    fn from(error: IoError) -> (r: Self)
        ensures
            r == DecodeError::Io(error),
    {
        DecodeError::Io(error)
    }
}

impl vstd::std_specs::convert::FromSpecImpl<IoError> for DecodeError {
    open spec fn obeys_from_spec() -> bool {
        true
    }

    open spec fn from_spec(error: IoError) -> DecodeError {
        DecodeError::Io(error)
    }
}

/// The error for input that ends too early.
pub open spec fn eof() -> DecodeError {
    DecodeError::Io(IoError::UnexpectedEof)
}

} // verus!
