//! Decoding what the encoder produced gives the image back.
use vstd::prelude::*;
use crate::container::{spec_decode_pixels, spec_finish, spec_parse, spec_unpack_block};
use crate::decode::{decodable, decoded};
use crate::encode::{
    encoded_offsets, encodes, index_in, is_pow2, lemma_encoded_offsets, palette, sector_order,
};
use crate::encoding::{file_bytes, spec_encode_image};
use crate::flags::{lemma_flags_bytes_roundtrip, Compression, Flags};
use crate::error::CtexError;
use crate::words::{lemma_words_bytes_roundtrip, words_le_bytes};
use crate::layout::{lemma_layout_bound, lemma_layout_inverse, pixel_slot, slot_pixel};

verus! {

/// A power of two that is at least `2 * m`, for `m` a power of two, is an
/// even multiple; by halving, a power of two of at least 64 fills whole
/// sectors.
pub proof fn lemma_pow2_sectors(n: nat)
    requires
        is_pow2(n),
        n >= 64,
    ensures
        n % 64 == 0,
{
    let n1 = n / 2;
    assert(is_pow2(n1) && n1 >= 32 && n == 2 * n1);
    let n2 = n1 / 2;
    assert(is_pow2(n2) && n2 >= 16 && n1 == 2 * n2);
    let n3 = n2 / 2;
    assert(is_pow2(n3) && n3 >= 8 && n2 == 2 * n3);
    let n4 = n3 / 2;
    assert(is_pow2(n4) && n4 >= 4 && n3 == 2 * n4);
    let n5 = n4 / 2;
    assert(is_pow2(n5) && n5 >= 2 && n4 == 2 * n5);
    let n6 = n5 / 2;
    assert(n5 == 2 * n6);
    assert(n == 64 * n6);
}

/// Round trip: for an image whose pixel count is a power of two and at least one
/// sector, any table and offsets that encode it decode, and decode to the
/// image itself.
pub proof fn lemma_decode_encode(img: Seq<u32>, lut: Seq<u32>, offsets: Seq<u8>)
    requires
        is_pow2(img.len()),
        img.len() >= 64,
        encodes(img, lut, offsets),
    ensures
        decodable(lut, offsets),
        decoded(lut, offsets) == img,
{
    lemma_pow2_sectors(img.len());
    let order = sector_order(img);
    assert((img.len() / 64) * 64 == img.len()) by (nonlinear_arith)
        requires
            img.len() % 64 == 0,
    ;
    assert(offsets.len() == img.len());
    assert((offsets[0] as int) < lut.len());
    let dec = decoded(lut, offsets);
    assert forall|p: int| 0 <= p < img.len() implies dec[p] == img[p] by {
        lemma_layout_bound(p, img.len() as int);
        lemma_layout_inverse(p);
        let t = pixel_slot(p);
        assert((offsets[t] as int) < lut.len());
        assert(order[t] == img[slot_pixel(t)]);
    }
    assert(dec =~= img);
}

/// The number of table entries that `o` uses when it names them in order of
/// first use, each offset being an index used before or the next unused one;
/// `None` when some offset skips ahead.
pub open spec fn first_use_count(o: Seq<u8>) -> Option<nat>
    decreases o.len(),
{
    if o.len() == 0 {
        Some(0)
    } else {
        match first_use_count(o.drop_last()) {
            Some(c) => if (o.last() as nat) < c {
                Some(c)
            } else if o.last() as nat == c {
                Some(c + 1)
            } else {
                None
            },
            None => None,
        }
    }
}

/// The colours that offsets `o` pick from `lut`, in slot order.
pub open spec fn picked(lut: Seq<u32>, o: Seq<u8>) -> Seq<u32> {
    Seq::new(o.len(), |t: int| lut[o[t] as int])
}

/// Offsets that name a table without repeats in order of first use pick
/// colours whose palette is that table.
pub proof fn lemma_palette_of_first_use(lut: Seq<u32>, o: Seq<u8>, c: nat)
    requires
        lut.no_duplicates(),
        first_use_count(o) == Some(c),
        c <= lut.len(),
    ensures
        palette(picked(lut, o)) == lut.take(c as int),
        c <= 256,
        forall|t: int| 0 <= t < o.len() ==> (#[trigger] o[t] as int) < c,
    decreases o.len(),
{
    if o.len() > 0 {
        let o1 = o.drop_last();
        let c1 = first_use_count(o1).unwrap();
        lemma_palette_of_first_use(lut, o1, c1);
        assert(picked(lut, o).drop_last() =~= picked(lut, o1));
        let x = lut[o.last() as int];
        assert(picked(lut, o).last() == x);
        if (o.last() as nat) < c1 {
            assert(lut.take(c1 as int)[o.last() as int] == x);
        } else {
            assert(!lut.take(c1 as int).contains(x)) by {
                if lut.take(c1 as int).contains(x) {
                    let i = choose|i: int| 0 <= i < c1 && lut.take(c1 as int)[i] == x;
                    assert(lut[i] == lut[c1 as int]);
                }
            }
            assert(lut.take(c1 as int).push(x) =~= lut.take(c as int));
        }
        assert forall|t: int| 0 <= t < o.len() implies (#[trigger] o[t] as int) < c by {
            if t < o.len() - 1 {
                assert(o[t] == o1[t]);
            }
        }
    }
}

/// Encoding undoes decoding: for a table without repeats and offsets (a power
/// of two of them, at least one sector) that name the table's entries in order
/// of first use, the decoded image meets what `encode_raw` requires, and its
/// palette and offsets are that table and those offsets.
pub proof fn lemma_encode_decode(lut: Seq<u32>, offsets: Seq<u8>)
    requires
        is_pow2(offsets.len()),
        offsets.len() >= 64,
        lut.no_duplicates(),
        first_use_count(offsets) == Some(lut.len()),
    ensures
        decodable(lut, offsets),
        is_pow2(decoded(lut, offsets).len()),
        palette(sector_order(decoded(lut, offsets))) == lut,
        lut.len() <= 256,
        encoded_offsets(decoded(lut, offsets)) == offsets,
{
    let n = offsets.len();
    lemma_pow2_sectors(n);
    lemma_palette_of_first_use(lut, offsets, lut.len());
    assert(lut.take(lut.len() as int) =~= lut);
    let img = decoded(lut, offsets);
    let order = sector_order(img);
    assert((n / 64) * 64 == n) by (nonlinear_arith)
        requires
            n % 64 == 0,
    ;
    assert forall|t: int| 0 <= t < n implies #[trigger] order[t] == picked(lut, offsets)[t] by {
        lemma_layout_bound(t, n as int);
        lemma_layout_inverse(t);
    }
    assert(order =~= picked(lut, offsets));
    let e = encoded_offsets(img);
    assert forall|t: int| 0 <= t < n implies #[trigger] e[t] == offsets[t] by {
        let k = offsets[t] as int;
        assert(order[t] == lut[k]);
        let i = index_in(lut, order[t]);
        assert(0 <= i < lut.len() && lut[i] == order[t]);
        assert(i == k);
    }
    assert(e =~= offsets);
}

/// The images whose files decode back to them: a power-of-two number of
/// pixels, at least one sector, and at most 255 colours (the header counts the
/// table in one byte); with LZ4, also a square image small enough for the
/// decompressor's length arithmetic.
pub open spec fn file_roundtrips(img: Seq<u32>, flags: Flags) -> bool {
    &&& is_pow2(img.len())
    &&& img.len() >= 64
    &&& palette(sector_order(img)).len() <= 255
    &&& flags.comp_0 == Compression::Lz4 ==> {
        &&& exists|s: int| 0 <= s < 65536 && #[trigger] (s * s) == img.len()
        &&& img.len() * 512 + 8192 <= isize::MAX
    }
}

/// A file whose header and table come from encoding `img` decodes to `img`
/// once its stored offsets unpack to the image's offsets.
#[verifier::rlimit(30)]
pub proof fn lemma_file_decodes(img: Seq<u32>, flags: Flags, f: Flags, lut: Seq<u32>, stored: Seq<u8>)
    requires
        file_roundtrips(img, flags),
        spec_encode_image(img, flags) == Ok::<(Flags, Seq<u32>, Seq<u8>), CtexError>(
            (f, lut, stored),
        ),
        spec_unpack_block(f, stored) == Some(encoded_offsets(img)),
    ensures
        spec_decode_pixels(file_bytes(f, lut, stored)) == Ok::<Seq<u32>, CtexError>(
            img,
        ),
{
    let raw = encoded_offsets(img);
    assert(lut == palette(sector_order(img)) && lut.len() <= 255 && f.lutw_0 == lut.len());
    lemma_encoded_offsets(img);
    lemma_decode_encode(img, lut, raw);
    lemma_parse_file_bytes(f, lut, stored);
    assert(spec_finish(lut, Some(raw)) == Ok::<Seq<u32>, CtexError>(img));
}

/// Reading a file written from a header, a table of fewer than 256 colours
/// that the header counts, and stored offsets gives back those parts.
pub proof fn lemma_parse_file_bytes(f: Flags, lut: Seq<u32>, stored: Seq<u8>)
    requires
        lut.len() <= 255,
        f.lutw_0 == lut.len(),
    ensures
        spec_parse(file_bytes(f, lut, stored)) == Ok::<
            (Flags, Seq<u32>, Seq<u8>),
            CtexError,
        >((f, lut, stored)),
{
    let file = file_bytes(f, lut, stored);
    let hb = f.spec_bytes();
    let lb = words_le_bytes(lut);
    lemma_flags_bytes_roundtrip(f);
    let end = 8 + 4 * f.lutw_0;
    assert(file.subrange(8, end) =~= lb);
    assert(file.subrange(end, file.len() as int) =~= stored);
    lemma_words_bytes_roundtrip(lut);
    assert(Flags::spec_from_bytes(file) == Flags::spec_from_bytes(hb)) by {
        assert(file[0] == hb[0] && file[1] == hb[1] && file[2] == hb[2] && file[3] == hb[3]
            && file[4] == hb[4] && file[5] == hb[5] && file[6] == hb[6] && file[7] == hb[7]);
    }
}

/// Round trip through an uncompressed file: encoding an image without
/// compression succeeds, and decoding the resulting file gives the image.
pub proof fn lemma_uncompressed_file_roundtrip(img: Seq<u32>, flags: Flags)
    requires
        flags.comp_0 == Compression::Uncompressed,
        file_roundtrips(img, flags),
    ensures
        spec_encode_image(img, flags) matches Ok((f, lut, stored)) && spec_decode_pixels(
            file_bytes(f, lut, stored),
        ) == Ok::<Seq<u32>, CtexError>(img),
{
    let r = spec_encode_image(img, flags);
    assert(r is Ok);
    let (f, lut, stored) = r.unwrap();
    assert(f.comp_0 == Compression::Uncompressed);
    lemma_file_decodes(img, flags, f, lut, stored);
}

} // verus!
