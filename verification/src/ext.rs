//! Calls into outside crates, each behind a contract taken from that crate's
//! documentation and source.
use num_integer::Roots;
use std::io::Write;
use vstd::prelude::*;

verus! {

/// `s` is the integer square root of `n`, rounded down.
pub open spec fn is_floor_sqrt(s: int, n: int) -> bool {
    0 <= s && s * s <= n < (s + 1) * (s + 1)
}

/// `num_integer::Roots::sqrt` on `usize`: the truncated principal square root,
/// documented as the `r` with `r * r <= n < (r + 1) * (r + 1)` for
/// non-negative `n`; the unsigned version has no panicking branch.
#[verifier::external_body]
pub(crate) fn integer_sqrt(n: usize) -> (r: usize)
    ensures
        is_floor_sqrt(r as int, n as int),
{
    n.sqrt()
}

/// The bytes an optional buffer holds.
pub open spec fn bytes_view(o: Option<Vec<u8>>) -> Option<Seq<u8>> {
    match o {
        Some(v) => Some(v@),
        None => None,
    }
}

/// What `lz4_flex::block::compress` returns for `input`: an LZ4 block
/// without a size prefix.
pub uninterp spec fn lz4_block_compressed(input: Seq<u8>) -> Seq<u8>;

/// What `lz4_flex::block::decompress` returns for `input` and the output size
/// `size` it is given; `None` stands for its `DecompressError`.
pub uninterp spec fn lz4_block_decompressed(input: Seq<u8>, size: nat) -> Option<Seq<u8>>;

/// What a `flate2` `GzEncoder` at the default level, writing `input` into a
/// `Vec` and finished, yields.
pub uninterp spec fn gzip_compressed(input: Seq<u8>) -> Seq<u8>;

/// The input lengths `lz4_flex::block::compress` takes without overflowing
/// its output bound `16 + 4 + len * 110 / 100` (computed in `u64`) or the
/// size of the buffer it allocates.
pub open spec fn lz4_compress_len_ok(len: int) -> bool {
    &&& len * 110 <= u64::MAX
    &&& 20 + (len * 110) / 100 <= isize::MAX
}

/// The inputs `lz4_flex::block::decompress` takes without an integer overflow
/// in its length arithmetic (a length read from the input is at most 255 per
/// input byte) or in allocating its `size`-byte output.
pub open spec fn lz4_decompress_len_ok(len: int, size: int) -> bool {
    &&& len * 256 + size + 32 <= usize::MAX
    &&& size <= isize::MAX
}

/// `lz4_flex::block::compress`: the block-format compression of `input`. Its
/// output is a prefix of a buffer of `get_maximum_output_size(len)` bytes,
/// and, as the crate documents for the block format, decompressing it with an
/// output size at least the input's length gives the input back.
#[verifier::external_body]
pub(crate) fn lz4_compress(input: &[u8]) -> (out: Vec<u8>)
    requires
        lz4_compress_len_ok(input@.len() as int),
    ensures
        out@ == lz4_block_compressed(input@),
        out@.len() <= 20 + (input@.len() * 110) / 100,
        forall|size: nat|
            size >= input@.len() && lz4_decompress_len_ok(out@.len() as int, size as int)
                ==> #[trigger] lz4_block_decompressed(out@, size) == Some(input@),
{
    lz4_flex::block::compress(input)
}

/// `lz4_flex::block::decompress`: decompresses an LZ4 block into a buffer of
/// `size` bytes, returning the bytes written; with the crate's default
/// (checked, safe) decoder every malformed input or too small `size` is an
/// error, not a panic. The output never exceeds `size` bytes.
#[verifier::external_body]
pub(crate) fn lz4_decompress(input: &[u8], size: usize) -> (out: Option<Vec<u8>>)
    requires
        lz4_decompress_len_ok(input@.len() as int, size as int),
    ensures
        bytes_view(out) == lz4_block_decompressed(input@, size as nat),
{
    lz4_flex::block::decompress(input, size).ok()
}

/// `flate2::write::GzEncoder` at `flate2::Compression::default()`, writing
/// `input` into a `Vec` and finishing: the gzip stream of `input` (a header
/// with no time stamp and a fixed system byte, so a function of the input).
/// Writing into a `Vec` never fails, so neither call returns an error.
#[verifier::external_body]
pub(crate) fn gzip_compress(input: &[u8]) -> (out: Vec<u8>)
    ensures
        out@ == gzip_compressed(input@),
{
    let mut encoder = flate2::write::GzEncoder::new(Vec::new(), flate2::Compression::default());
    encoder.write_all(input).expect("writing into a Vec does not fail");
    encoder.finish().expect("writing into a Vec does not fail")
}

} // verus!
