//! Why encoding or decoding an image failed.
use vstd::prelude::*;

verus! {

/// The reasons an image cannot be encoded or a file cannot be decoded.
#[derive(Clone, Copy, Debug, PartialEq, Eq, Structural)]
pub enum CtexError {
    /// The image's pixel count is not a power of two.
    NotPowerOfTwo,
    /// The image holds more than the colours the format can index.
    TooManyColors,
    /// The image is not square.
    NotSquare,
    /// The image's side is not a multiple of the sector size.
    BadWidth,
    /// The file ends inside the header or the colour table.
    Truncated,
    /// The header names an unknown version or compression.
    InvalidFlags,
    /// The compressed offsets could not be decompressed.
    DecompressFailed,
    /// The offsets do not fill whole sectors, or the colour table is empty.
    InvalidLayout,
    /// An offset points past the end of the colour table.
    OffsetOutOfRange,
    /// The compressor reported a failure.
    CompressFailed,
}

} // verus!
