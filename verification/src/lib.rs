//! CTEX: a palette image format laid out for SIMD decoding.
//!
//! An image of `w` pixels is split into sectors of 64 pixels. Each pixel is
//! stored as a one-byte index into a colour table (the "lut"); inside a
//! sector the indices are interleaved so that a SIMD register loaded with the
//! sector can be split into four groups of sixteen consecutive pixels by
//! masking and shifting.
use vstd::prelude::*;

pub mod flags;
pub mod layout;
pub mod legacy;
pub mod encode;
pub mod encoding;
pub mod container;
pub mod decode;
pub mod error;
pub mod roundtrip;
pub mod words;
mod ext;

verus! {

/// Number of pixels (and offset bytes) in one sector.
pub const SECTOR_SIZE: usize = 64;

} // verus!
