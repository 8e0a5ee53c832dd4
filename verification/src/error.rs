//! Typed failures of encoding and decoding.

use vstd::prelude::*;

verus! {

/// Every failure the codec can report. All failures come back as values,
/// never as partial output with a hidden fault flag.
#[derive(Clone, Copy, Debug, PartialEq, Eq, Structural)]
pub enum Error {
    /// The stream does not start with the magic bytes.
    InvalidMagic,
    /// A channel count other than 3 or 4 (in a header or requested).
    InvalidChannels { channels: u8 },
    /// Zero width or height, or `width * height` beyond the fixed maximum.
    InvalidImageDimensions { width: u32, height: u32 },
    /// The source byte length does not divide into whole pixels of 3 or 4
    /// channels for the given dimensions.
    InvalidImageLength { size: usize, width: u32, height: u32 },
    /// A caller-provided buffer smaller than the exact required size.
    OutputBufferTooSmall { size: usize, required: usize },
    /// The stream ends mid-opcode or before the trailing padding.
    UnexpectedBufferEnd,
    /// The trailing padding bytes mismatch.
    InvalidPadding,
}

impl Error {
    /// A short name of the error kind, for callers that print failures.
    pub fn describe(&self) -> (s: &'static str)
    {
        match self {
            Error::InvalidMagic => "invalid magic bytes",
            Error::InvalidChannels { .. } => "invalid channel count",
            Error::InvalidImageDimensions { .. } => "invalid image dimensions",
            Error::InvalidImageLength { .. } => "invalid image byte length",
            Error::OutputBufferTooSmall { .. } => "output buffer too small",
            Error::UnexpectedBufferEnd => "unexpected end of stream",
            Error::InvalidPadding => "invalid trailing padding",
        }
    }
}

} // verus!
