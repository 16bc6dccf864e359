//! Reading CTEX files back into pixels.
use vstd::prelude::*;
use crate::decode::{decode_checked, decoded, layout_ok, offsets_in_range};
use crate::error::CtexError;
use crate::ext::{bytes_view, lz4_block_decompressed, lz4_decompress, lz4_decompress_len_ok};
use crate::flags::{Compression, Flags};
use crate::words::{bytes_to_words, le_words, words_le_bytes, words_to_bytes};

verus! {

/// The header, colour table and stored offsets of the file `b`, or why it
/// cannot be read.
pub open spec fn spec_parse(b: Seq<u8>) -> Result<(Flags, Seq<u32>, Seq<u8>), CtexError> {
    if b.len() < 8 {
        Err(CtexError::Truncated)
    } else {
        match Flags::spec_from_bytes(b) {
            None => Err(CtexError::InvalidFlags),
            Some(f) => {
                let end = 8 + 4 * f.lutw_0;
                if b.len() < end {
                    Err(CtexError::Truncated)
                } else {
                    Ok((f, le_words(b.subrange(8, end)), b.subrange(end, b.len() as int)))
                }
            },
        }
    }
}

/// The offsets that `stored` holds under the header `f`, the LZ4 kind being
/// the block format with the square of the offsets width as output size.
pub open spec fn spec_unpack_block(f: Flags, stored: Seq<u8>) -> Option<Seq<u8>> {
    match f.comp_0 {
        Compression::Uncompressed => Some(stored),
        Compression::Lz4 => {
            let size = f.offw_0 * f.offw_0;
            if lz4_decompress_len_ok(stored.len() as int, size) {
                lz4_block_decompressed(stored, size as nat)
            } else {
                None
            }
        },
    }
}

/// The pixels that a table and (possibly missing) offsets decode to.
pub open spec fn spec_finish(lut: Seq<u32>, data: Option<Seq<u8>>) -> Result<Seq<u32>, CtexError> {
    match data {
        None => Err(CtexError::DecompressFailed),
        Some(d) => if !layout_ok(lut, d) {
            Err(CtexError::InvalidLayout)
        } else if !offsets_in_range(lut, d) {
            Err(CtexError::OffsetOutOfRange)
        } else {
            Ok(decoded(lut, d))
        },
    }
}

/// The pixels of the file `b`, or why it cannot be decoded.
pub open spec fn spec_decode_pixels(b: Seq<u8>) -> Result<Seq<u32>, CtexError> {
    match spec_parse(b) {
        Err(e) => Err(e),
        Ok((f, lut, stored)) => spec_finish(lut, spec_unpack_block(f, stored)),
    }
}

/// Splits the file `buff` into its header, colour table and stored offsets.
pub fn parse(buff: &[u8]) -> (r: Result<(Flags, Vec<u32>, &[u8]), CtexError>)
    ensures
        match r {
            Ok((f, lut, stored)) => spec_parse(buff@) == Ok::<
                (Flags, Seq<u32>, Seq<u8>),
                CtexError,
            >((f, lut@, stored@)),
            Err(e) => spec_parse(buff@) == Err::<(Flags, Seq<u32>, Seq<u8>), CtexError>(e),
        },
{
    if buff.len() < 8 {
        return Err(CtexError::Truncated);
    }
    let flags = match Flags::from_le_bytes(buff) {
        Some(f) => f,
        None => {
            return Err(CtexError::InvalidFlags);
        },
    };
    let end = 8 + 4 * flags.lut_len();
    if buff.len() < end {
        return Err(CtexError::Truncated);
    }
    let lut = bytes_to_words(&buff[8..end]);
    let stored = &buff[end..buff.len()];
    Ok((flags, lut, stored))
}

/// Decompresses the stored offsets as an LZ4 block whose size is the square of
/// the offsets width.
fn unpack_block(flags: Flags, stored: &[u8]) -> (r: Option<Vec<u8>>)
    requires
        flags.comp_0 == Compression::Lz4,
    ensures
        bytes_view(r) == spec_unpack_block(flags, stored@),
{
    let size = flags.offsets_len();
    let n = stored.len();
    if size <= (isize::MAX as usize) && size <= usize::MAX - 32 && n <= (usize::MAX - 32 - size)
        / 256 {
        proof {
            assert(lz4_decompress_len_ok(n as int, size as int)) by (nonlinear_arith)
                requires
                    n <= (usize::MAX - 32 - size) / 256,
                    size <= usize::MAX - 32,
                    size <= isize::MAX,
            ;
        }
        lz4_decompress(stored, size)
    } else {
        proof {
            assert(!lz4_decompress_len_ok(n as int, size as int)) by (nonlinear_arith)
                requires
                    !(size <= isize::MAX && size <= usize::MAX - 32 && n <= (usize::MAX - 32
                        - size) / 256),
            ;
        }
        None
    }
}

/// Decodes the pixels of a CTEX file whose compressed offsets are an LZ4
/// block.
pub fn decode_pixels(buff: &[u8]) -> (r: Result<Vec<u32>, CtexError>)
    ensures
        match r {
            Ok(px) => spec_decode_pixels(buff@) == Ok::<Seq<u32>, CtexError>(px@),
            Err(e) => spec_decode_pixels(buff@) == Err::<Seq<u32>, CtexError>(e),
        },
{
    let (flags, lut, stored) = parse(buff)?;
    match flags.compression() {
        Compression::Uncompressed => decode_checked(lut.as_slice(), stored),
        Compression::Lz4 => match unpack_block(flags, stored) {
            Some(data) => decode_checked(lut.as_slice(), data.as_slice()),
            None => Err(CtexError::DecompressFailed),
        },
    }
}

/// Decodes a CTEX file whose compressed offsets are an LZ4 block into the
/// pixels' bytes (each pixel a little-endian 32-bit word).
pub fn decode_bytes(buff: &[u8]) -> (r: Result<Vec<u8>, CtexError>)
    ensures
        match r {
            Ok(b) => spec_decode_pixels(buff@) matches Ok(px) && b@ == words_le_bytes(px),
            Err(e) => spec_decode_pixels(buff@) == Err::<Seq<u32>, CtexError>(e),
        },
{
    let px = decode_pixels(buff)?;
    Ok(words_to_bytes(px.as_slice()))
}

} // verus!
