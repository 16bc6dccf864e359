//! Encoding an image into the bytes of a CTEX file.
use vstd::prelude::*;
use crate::container::{spec_decode_pixels, spec_unpack_block};
use crate::encode::{
    encode_palette, encoded_offsets, floor_sqrt, is_pow2, is_power_of_two, lemma_encodes_unique,
    lemma_floor_sqrt_unique, palette, sector_order, set_sizes, sized_flags,
};
use crate::error::CtexError;
use crate::ext::{
    is_floor_sqrt, lz4_block_compressed, lz4_block_decompressed, lz4_compress,
    lz4_compress_len_ok, lz4_decompress_len_ok,
};
use crate::flags::{Compression, Flags};
use crate::decode::{decodable, decoded};
use crate::encode::{lemma_encoded_offsets, lemma_palette, lemma_sized_flags};
use crate::roundtrip::{
    file_roundtrips, lemma_decode_encode, lemma_file_decodes, lemma_pow2_sectors,
    lemma_uncompressed_file_roundtrip,
};
use crate::words::{bytes_to_words, extend_with_words, le_words, words_le_bytes};

verus! {

/// An encoded image: its header, colour table and stored offsets.
pub struct Image {
    pub flags: Flags,
    pub lut: Vec<u32>,
    pub offsets: Vec<u8>,
}

/// The bytes of a CTEX file: the 8 header bytes, the colour table as
/// little-endian words, then the stored offsets.
pub open spec fn file_bytes(flags: Flags, lut: Seq<u32>, offsets: Seq<u8>) -> Seq<u8> {
    flags.spec_bytes() + words_le_bytes(lut) + offsets
}

/// The offsets as stored under compression `c`.
pub open spec fn stored_offsets(c: Compression, raw: Seq<u8>) -> Seq<u8> {
    match c {
        Compression::Uncompressed => raw,
        Compression::Lz4 => lz4_block_compressed(raw),
    }
}

/// The offsets lengths this encoder hands to the compressor.
pub open spec fn compressible_len(n: int) -> bool {
    n <= isize::MAX / 2 && n <= u64::MAX / 110
}

/// The header, colour table and stored offsets of `img` encoded with `flags`,
/// or why it cannot be encoded.
pub open spec fn spec_encode_image(img: Seq<u32>, flags: Flags) -> Result<
    (Flags, Seq<u32>, Seq<u8>),
    CtexError,
> {
    let lut = palette(sector_order(img));
    let raw = encoded_offsets(img);
    if !is_pow2(img.len()) {
        Err(CtexError::NotPowerOfTwo)
    } else if lut.len() > 256 {
        Err(CtexError::TooManyColors)
    } else if flags.comp_0 == Compression::Lz4 && !compressible_len(raw.len() as int) {
        Err(CtexError::CompressFailed)
    } else {
        Ok(
            (
                sized_flags(flags, lut.len() as int, floor_sqrt(img.len() as int)),
                lut,
                stored_offsets(flags.comp_0, raw),
            ),
        )
    }
}

/// The file that `buff` (pixels as little-endian words) encodes to under
/// `flags`, or why it cannot be encoded.
pub open spec fn spec_encode(buff: Seq<u8>, flags: Flags) -> Result<Seq<u8>, CtexError> {
    match spec_encode_image(le_words(buff), flags) {
        Ok((f, lut, offsets)) => Ok(file_bytes(f, lut, offsets)),
        Err(e) => Err(e),
    }
}

impl Image {
    /// The bytes of this image's file.
    pub fn to_bytes(&self) -> (b: Vec<u8>)
        ensures
            b@ == file_bytes(self.flags, self.lut@, self.offsets@),
    {
        let mut b = self.flags.to_bytes();
        extend_with_words(&mut b, self.lut.as_slice());
        let mut i: usize = 0;
        let ghost start = b@;
        while i < self.offsets.len()
            invariant
                i <= self.offsets@.len(),
                b@ == start + self.offsets@.take(i as int),
            decreases self.offsets@.len() - i,
        {
            b.push(self.offsets[i]);
            assert(b@ =~= start + self.offsets@.take(i + 1));
            i = i + 1;
        }
        assert(self.offsets@.take(self.offsets@.len() as int) =~= self.offsets@);
        b
    }
}

/// With a square image the offsets width is the side, so the LZ4 output size
/// the decoder uses is the offsets length, and the compressed offsets unpack.
proof fn lemma_lz4_unpacks(img: Seq<u32>, flags: Flags, f: Flags, raw: Seq<u8>, packed: Seq<u8>)
    requires
        file_roundtrips(img, flags),
        flags.comp_0 == Compression::Lz4,
        f == sized_flags(flags, palette(sector_order(img)).len() as int, floor_sqrt(img.len() as int)),
        raw.len() == sector_order(img).len(),
        packed.len() <= 20 + (raw.len() * 110) / 100,
        forall|size: nat|
            size >= raw.len() && lz4_decompress_len_ok(packed.len() as int, size as int)
                ==> #[trigger] lz4_block_decompressed(packed, size) == Some(raw),
    ensures
        spec_unpack_block(f, packed) == Some(raw),
{
    let w = img.len() as int;
    lemma_pow2_sectors(img.len());
    assert((w / 64) * 64 == w) by (nonlinear_arith)
        requires
            w % 64 == 0,
    ;
    assert(raw.len() == w);
    let s = choose|s: int| 0 <= s < 65536 && #[trigger] (s * s) == w;
    assert(is_floor_sqrt(s, w)) by (nonlinear_arith)
        requires
            0 <= s,
            s * s == w,
    ;
    lemma_floor_sqrt_unique(s, w);
    assert(f.offw_0 == s);
    let size = f.offw_0 * f.offw_0;
    assert(size == w);
    assert(lz4_decompress_len_ok(packed.len() as int, size)) by (nonlinear_arith)
        requires
            packed.len() <= 20 + (w * 110) / 100,
            size == w,
            w * 512 + 8192 <= isize::MAX,
            isize::MAX <= usize::MAX,
    ;
    assert(lz4_block_decompressed(packed, size as nat) == Some(raw));
}

/// Encoding succeeds on every image whose pixel count is a power of two and
/// whose visited pixels hold at most 256 colours, with or without LZ4 (for LZ4,
/// on any image small enough for the compressor's length arithmetic).
pub proof fn lemma_encode_image_succeeds(img: Seq<u32>, flags: Flags)
    requires
        is_pow2(img.len()),
        palette(sector_order(img)).len() <= 256,
        flags.comp_0 == Compression::Lz4 ==> img.len() * 512 + 8192 <= isize::MAX,
    ensures
        spec_encode_image(img, flags) is Ok,
{
    let n = img.len() as int;
    let m = encoded_offsets(img).len() as int;
    assert(m <= n) by (nonlinear_arith)
        requires
            m == (n / 64) * 64,
            0 <= n,
    ;
    if flags.comp_0 == Compression::Lz4 {
        assert(compressible_len(m)) by (nonlinear_arith)
            requires
                0 <= m <= n,
                n * 512 + 8192 <= isize::MAX,
                isize::MAX <= u64::MAX,
        ;
    }
}

/// What a successful encoding holds: the pixel count is a power of two; the
/// table lists each visited colour exactly once and nothing else; the header
/// keeps the caller's version, compression and reserved bytes, counts the
/// table and gives the side as the rounded-down square root of the pixel
/// count; and the stored offsets are, raw or LZ4-compressed as the flags ask,
/// offsets that decode with the table to the image.
pub proof fn lemma_encode_image_result(
    img: Seq<u32>,
    flags: Flags,
    f: Flags,
    lut: Seq<u32>,
    stored: Seq<u8>,
)
    requires
        spec_encode_image(img, flags) == Ok::<(Flags, Seq<u32>, Seq<u8>), CtexError>(
            (f, lut, stored),
        ),
    ensures
        is_pow2(img.len()),
        lut.no_duplicates(),
        lut.len() <= 256,
        forall|c: u32| lut.contains(c) <==> sector_order(img).contains(c),
        f.vers_0 == flags.vers_0,
        f.comp_0 == flags.comp_0,
        f.resv_0 == flags.resv_0,
        lut.len() <= 255 ==> f.lutw_0 == lut.len(),
        img.len() < 0x1_0000_0000 ==> is_floor_sqrt(f.offw_0 as int, img.len() as int),
        img.len() >= 64 ==> exists|o: Seq<u8>|
            #![trigger decoded(lut, o)]
            {
                &&& decodable(lut, o)
                &&& decoded(lut, o) == img
                &&& flags.comp_0 == Compression::Uncompressed ==> stored == o
                &&& flags.comp_0 == Compression::Lz4 ==> stored == lz4_block_compressed(o)
            },
{
    let o = encoded_offsets(img);
    assert(is_pow2(img.len()) && lut.len() <= 256);
    assert(lut == palette(sector_order(img)));
    assert(stored == stored_offsets(flags.comp_0, o));
    lemma_encode_image_parts(img, flags, f, lut, o, stored);
    if img.len() >= 64 {
        assert(decodable(lut, o) && decoded(lut, o) == img);
    }
}

proof fn lemma_encode_image_parts(
    img: Seq<u32>,
    flags: Flags,
    f: Flags,
    lut: Seq<u32>,
    o: Seq<u8>,
    stored: Seq<u8>,
)
    requires
        lut == palette(sector_order(img)),
        lut.len() <= 256,
        o == encoded_offsets(img),
        f == sized_flags(flags, lut.len() as int, floor_sqrt(img.len() as int)),
        stored == stored_offsets(flags.comp_0, o),
        is_pow2(img.len()),
    ensures
        lut.no_duplicates(),
        forall|c: u32| lut.contains(c) <==> sector_order(img).contains(c),
        f.vers_0 == flags.vers_0,
        f.comp_0 == flags.comp_0,
        f.resv_0 == flags.resv_0,
        lut.len() <= 255 ==> f.lutw_0 == lut.len(),
        img.len() < 0x1_0000_0000 ==> is_floor_sqrt(f.offw_0 as int, img.len() as int),
        img.len() >= 64 ==> {
            &&& decodable(lut, o)
            &&& decoded(lut, o) == img
            &&& flags.comp_0 == Compression::Uncompressed ==> stored == o
            &&& flags.comp_0 == Compression::Lz4 ==> stored == lz4_block_compressed(o)
        },
{
    lemma_palette(sector_order(img));
    if img.len() < 0x1_0000_0000 {
        lemma_sized_flags(flags, lut.len() as int, img.len() as int);
    }
    if img.len() >= 64 {
        lemma_encoded_offsets(img);
        lemma_decode_encode(img, lut, o);
    }
}

/// Encoding the bytes of an image fails or succeeds exactly as encoding the
/// image does, with the same error; images that round-trip through a file
/// are accepted, with or without LZ4; and without compression the file
/// decodes back to the image.
pub proof fn lemma_encode_bytes(buff: Seq<u8>, flags: Flags)
    ensures
        (spec_encode(buff, flags) is Ok) == (spec_encode_image(le_words(buff), flags) is Ok),
        spec_encode(buff, flags) matches Err(e) ==> spec_encode_image(le_words(buff), flags)
            == Err::<(Flags, Seq<u32>, Seq<u8>), CtexError>(e),
        file_roundtrips(le_words(buff), flags) ==> spec_encode(buff, flags) is Ok,
        file_roundtrips(le_words(buff), flags) && flags.comp_0 == Compression::Uncompressed ==> (
        spec_encode(buff, flags) matches Ok(b) && spec_decode_pixels(b) == Ok::<
            Seq<u32>,
            CtexError,
        >(le_words(buff))),
{
    let img = le_words(buff);
    if file_roundtrips(img, flags) {
        lemma_encode_image_succeeds(img, flags);
        if flags.comp_0 == Compression::Uncompressed {
            lemma_uncompressed_file_roundtrip(img, flags);
        }
    }
}

/// An image read from disk must be square: `NotSquare` unless `width` equals
/// `height`.
pub fn check_square(width: u32, height: u32) -> (r: Result<(), CtexError>)
    ensures
        r == if width == height {
            Ok::<(), CtexError>(())
        } else {
            Err::<(), CtexError>(CtexError::NotSquare)
        },
{
    if width == height {
        Ok(())
    } else {
        Err(CtexError::NotSquare)
    }
}

/// Encodes `img` with `flags`: builds the colour table and offsets, fills in
/// the sizes, and compresses the offsets if `flags` asks for LZ4.
pub fn encode_image(img: &[u32], flags: Flags) -> (r: Result<Image, CtexError>)
    ensures
        match r {
            Ok(im) => spec_encode_image(img@, flags) == Ok::<(Flags, Seq<u32>, Seq<u8>), CtexError>(
                (im.flags, im.lut@, im.offsets@),
            ),
            Err(e) => spec_encode_image(img@, flags) == Err::<(Flags, Seq<u32>, Seq<u8>), CtexError>(
                e,
            ),
        },
        r matches Ok(im) ==> (file_roundtrips(img@, flags) ==> spec_decode_pixels(
            file_bytes(im.flags, im.lut@, im.offsets@),
        ) == Ok::<Seq<u32>, CtexError>(img@)),
{
    let w = img.len();
    if !is_power_of_two(w) {
        return Err(CtexError::NotPowerOfTwo);
    }
    let (lut, offsets) = match encode_palette(img) {
        Some(p) => p,
        None => {
            return Err(CtexError::TooManyColors);
        },
    };
    proof {
        lemma_encodes_unique(img@, lut@, offsets@);
    }
    let ghost raw = offsets@;
    let ghost flags0 = flags;
    let mut flags = flags;
    set_sizes(&mut flags, lut.len(), w);
    let offsets = match flags.compression() {
        Compression::Uncompressed => {
            proof {
                if file_roundtrips(img@, flags0) {
                    lemma_file_decodes(img@, flags0, flags, lut@, offsets@);
                }
            }
            offsets
        },
        Compression::Lz4 => {
            let n = offsets.len();
            if !(n <= (isize::MAX as usize) / 2 && (n as u64) <= u64::MAX / 110) {
                return Err(CtexError::CompressFailed);
            }
            proof {
                assert(lz4_compress_len_ok(n as int)) by (nonlinear_arith)
                    requires
                        compressible_len(n as int),
                ;
            }
            let packed = lz4_compress(offsets.as_slice());
            proof {
                if file_roundtrips(img@, flags0) {
                    lemma_lz4_unpacks(img@, flags0, flags, raw, packed@);
                    lemma_file_decodes(img@, flags0, flags, lut@, packed@);
                }
            }
            packed
        },
    };
    Ok(Image { flags, lut, offsets })
}

/// Encodes the pixels in `buff` (little-endian 32-bit words; trailing bytes
/// that make no whole word are ignored) into the bytes of a CTEX file.
pub fn encode(buff: &[u8], flags: Flags) -> (r: Result<Vec<u8>, CtexError>)
    ensures
        match r {
            Ok(b) => spec_encode(buff@, flags) == Ok::<Seq<u8>, CtexError>(b@),
            Err(e) => spec_encode(buff@, flags) == Err::<Seq<u8>, CtexError>(e),
        },
        r matches Ok(b) ==> (file_roundtrips(le_words(buff@), flags) ==> spec_decode_pixels(b@)
            == Ok::<Seq<u32>, CtexError>(le_words(buff@))),
{
    let img = bytes_to_words(buff);
    match encode_image(img.as_slice(), flags) {
        Ok(im) => Ok(im.to_bytes()),
        Err(e) => Err(e),
    }
}

} // verus!
