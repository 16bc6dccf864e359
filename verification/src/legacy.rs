//! The earlier, gzip-framed palette format: the image side, the colour count,
//! the colours and one index byte per pixel in raster order, all gzip
//! compressed.
use vstd::prelude::*;
use crate::encode::{
    index_in, lemma_palette, lemma_palette_extend, lemma_palette_prefix_len, palette, palette_step,
};
use crate::error::CtexError;
use crate::ext::{gzip_compress, gzip_compressed};
use crate::words::{extend_with_words, le_u32, le_words, lemma_words_bytes_roundtrip, words_le_bytes};

verus! {

/// For each pixel, the index of its colour in the palette of `pixels`.
pub open spec fn raster_indices(pixels: Seq<u32>) -> Seq<u8> {
    Seq::new(pixels.len(), |i: int| index_in(palette(pixels), pixels[i]) as u8)
}

/// The bytes that are compressed: side and colour count as little-endian
/// 32-bit words, then the colours, then the index bytes.
pub open spec fn legacy_payload(width: u32, pixels: Seq<u32>) -> Seq<u8> {
    let colors = palette(pixels);
    words_le_bytes(seq![width, colors.len() as u32]) + words_le_bytes(colors) + raster_indices(
        pixels,
    )
}

/// The compressed image, or why it cannot be encoded: the image must be
/// square, its side a multiple of 64, and it must hold fewer than 256 colours.
pub open spec fn spec_legacy_encode(width: u32, height: u32, pixels: Seq<u32>) -> Result<
    Seq<u8>,
    CtexError,
> {
    if width != height {
        Err(CtexError::NotSquare)
    } else if width % 64 != 0 {
        Err(CtexError::BadWidth)
    } else if palette(pixels).len() >= 256 {
        Err(CtexError::TooManyColors)
    } else {
        Ok(gzip_compressed(legacy_payload(width, pixels)))
    }
}

/// What the legacy encoder answers: `NotSquare` for every image whose width and
/// height differ, `BadWidth` for a square image whose side is not a multiple
/// of 64, `TooManyColors` for one with 256 colours or more, and otherwise the
/// gzip stream of its payload.
pub proof fn lemma_legacy_outcome(width: u32, height: u32, pixels: Seq<u32>)
    ensures
        width != height ==> spec_legacy_encode(width, height, pixels) == Err::<Seq<u8>, CtexError>(
            CtexError::NotSquare,
        ),
        width == height && width % 64 != 0 ==> spec_legacy_encode(width, height, pixels) == Err::<
            Seq<u8>,
            CtexError,
        >(CtexError::BadWidth),
        width == height && width % 64 == 0 && palette(pixels).len() >= 256 ==> spec_legacy_encode(
            width,
            height,
            pixels,
        ) == Err::<Seq<u8>, CtexError>(CtexError::TooManyColors),
        width == height && width % 64 == 0 && palette(pixels).len() < 256 ==> spec_legacy_encode(
            width,
            height,
            pixels,
        ) == Ok::<Seq<u8>, CtexError>(gzip_compressed(legacy_payload(width, pixels))),
{
}

/// The payload that is compressed: the side as a little-endian word, the
/// colour count as a little-endian word, the colours (each once, exactly the
/// colours of the image) as little-endian words, then for each pixel in
/// raster order one byte indexing its colour.
pub proof fn lemma_legacy_payload(width: u32, pixels: Seq<u32>)
    requires
        palette(pixels).len() < 256,
    ensures
        ({
            let p = legacy_payload(width, pixels);
            let k = palette(pixels).len() as int;
            let colors = le_words(p.subrange(8, 8 + 4 * k));
            &&& p.len() == 8 + 4 * k + pixels.len()
            &&& le_u32(p[0], p[1], p[2], p[3]) == width
            &&& le_u32(p[4], p[5], p[6], p[7]) == k
            &&& colors.len() == k
            &&& colors.no_duplicates()
            &&& forall|c: u32| colors.contains(c) <==> pixels.contains(c)
            &&& forall|i: int|
                0 <= i < pixels.len() ==> (#[trigger] p[8 + 4 * k + i] as int) < k && colors[p[8
                    + 4 * k + i] as int] == pixels[i]
        }),
{
    let pal = palette(pixels);
    let k = pal.len() as int;
    let head = words_le_bytes(seq![width, k as u32]);
    let body = words_le_bytes(pal);
    let idx = raster_indices(pixels);
    let p = legacy_payload(width, pixels);
    assert(p == head + body + idx);
    lemma_three_parts(head, body, idx);
    lemma_head_words(width, k as u32);
    lemma_palette(pixels);
    lemma_words_bytes_roundtrip(pal);
    assert forall|i: int| 0 <= i < pixels.len() implies (#[trigger] p[8 + 4 * k + i] as int) < k
        && le_words(p.subrange(8, 8 + 4 * k))[p[8 + 4 * k + i] as int] == pixels[i] by {
        assert(p[8 + 4 * k + i] == idx[i]);
        assert(pixels.contains(pixels[i]));
        let j = index_in(pal, pixels[i]);
        assert(0 <= j < k && pal[j] == pixels[i]);
    }
}

/// The parts of a concatenation of three byte strings.
proof fn lemma_three_parts(a: Seq<u8>, b: Seq<u8>, c: Seq<u8>)
    ensures
        (a + b + c).len() == a.len() + b.len() + c.len(),
        (a + b + c).subrange(0, a.len() as int) == a,
        (a + b + c).subrange(a.len() as int, (a.len() + b.len()) as int) == b,
        forall|i: int| 0 <= i < a.len() ==> #[trigger] (a + b + c)[i] == a[i],
        forall|i: int| 0 <= i < c.len() ==> #[trigger] (a + b + c)[a.len() + b.len() + i] == c[i],
{
    assert((a + b + c).subrange(0, a.len() as int) =~= a);
    assert((a + b + c).subrange(a.len() as int, (a.len() + b.len()) as int) =~= b);
}

/// The eight bytes of two words read back as those words.
proof fn lemma_head_words(w0: u32, w1: u32)
    ensures
        ({
            let h = words_le_bytes(seq![w0, w1]);
            &&& h.len() == 8
            &&& le_u32(h[0], h[1], h[2], h[3]) == w0
            &&& le_u32(h[4], h[5], h[6], h[7]) == w1
        }),
{
    let h = words_le_bytes(seq![w0, w1]);
    lemma_words_bytes_roundtrip(seq![w0, w1]);
    let hw = le_words(h);
    assert(hw[0] == le_u32(h[0], h[1], h[2], h[3]));
    assert(hw[1] == le_u32(h[4], h[5], h[6], h[7]));
}

/// The palette of `pixels` in raster order and each pixel's index into it;
/// `None` when there are more than 256 colours.
pub fn raster_palette(pixels: &[u32]) -> (r: Option<(Vec<u32>, Vec<u8>)>)
    ensures
        r is Some <==> palette(pixels@).len() <= 256,
        r matches Some((colors, data)) ==> colors@ == palette(pixels@) && data@ == raster_indices(
            pixels@,
        ),
{
    let n = pixels.len();
    let mut colors: Vec<u32> = Vec::new();
    let mut data: Vec<u8> = Vec::new();
    let mut i: usize = 0;
    proof {
        assert(pixels@.take(0) =~= Seq::<u32>::empty());
    }
    while i < n
        invariant
            n == pixels@.len(),
            i <= n,
            data@.len() == i,
            colors@ == palette(pixels@.take(i as int)),
            colors@.len() <= 256,
            forall|j: int|
                0 <= j < i ==> (#[trigger] data@[j] as int) < colors@.len() && colors@[data@[j]
                    as int] == pixels@[j],
        decreases n - i,
    {
        proof {
            lemma_palette_extend(pixels@, i as int);
        }
        let ghost colors0 = colors@;
        let ghost data0 = data@;
        let color = pixels[i];
        if colors.len() >= 256 && crate::encode::search(color, colors.as_slice()).is_none() {
            proof {
                lemma_palette_prefix_len(pixels@, i + 1, n as int);
                assert(pixels@.take(n as int) =~= pixels@);
            }
            return None;
        }
        crate::encode::add(color, &mut colors, &mut data);
        proof {
            assert forall|k: int| 0 <= k < colors0.len() implies colors@[k] == colors0[k] by {
                if !colors0.contains(pixels@[i as int]) {
                    assert(colors@ == colors0.push(pixels@[i as int]));
                }
            }
            assert forall|j: int| 0 <= j < i + 1 implies (#[trigger] data@[j] as int)
                < colors@.len() && colors@[data@[j] as int] == pixels@[j] by {
                if j < i {
                    assert(data@[j] == data@.drop_last()[j]);
                    assert(data@[j] == data0[j]);
                } else {
                    assert(data@[j] == data@.last());
                }
            }
        }
        i = i + 1;
    }
    proof {
        assert(pixels@.take(n as int) =~= pixels@);
        lemma_palette(pixels@);
        let e = raster_indices(pixels@);
        assert forall|j: int| 0 <= j < n implies #[trigger] e[j] == data@[j] by {
            let k = data@[j] as int;
            let m = index_in(colors@, pixels@[j]);
            assert(0 <= m < colors@.len() && colors@[m] == pixels@[j]);
            assert(m == k);
        }
        assert(e =~= data@);
    }
    Some((colors, data))
}

/// Encodes a `width` by `height` image (pixels in raster order) in the
/// gzip-framed palette format.
pub fn encode_pixels(width: u32, height: u32, pixels: &[u32]) -> (r: Result<Vec<u8>, CtexError>)
    ensures
        match r {
            Ok(b) => spec_legacy_encode(width, height, pixels@) == Ok::<Seq<u8>, CtexError>(b@),
            Err(e) => spec_legacy_encode(width, height, pixels@) == Err::<Seq<u8>, CtexError>(e),
        },
{
    if width != height {
        return Err(CtexError::NotSquare);
    }
    if width % 64 != 0 {
        return Err(CtexError::BadWidth);
    }
    let (colors, data) = match raster_palette(pixels) {
        Some(p) => p,
        None => {
            return Err(CtexError::TooManyColors);
        },
    };
    if colors.len() >= 256 {
        return Err(CtexError::TooManyColors);
    }
    let mut header: Vec<u32> = Vec::new();
    header.push(width);
    header.push(colors.len() as u32);
    let mut payload: Vec<u8> = Vec::new();
    extend_with_words(&mut payload, header.as_slice());
    extend_with_words(&mut payload, colors.as_slice());
    let ghost before = payload@;
    let mut i: usize = 0;
    while i < data.len()
        invariant
            i <= data@.len(),
            payload@ == before + data@.take(i as int),
        decreases data@.len() - i,
    {
        payload.push(data[i]);
        assert(payload@ =~= before + data@.take(i + 1));
        i = i + 1;
    }
    proof {
        assert(data@.take(data@.len() as int) =~= data@);
        assert(header@ =~= seq![width, colors@.len() as u32]);
        assert(payload@ =~= legacy_payload(width, pixels@));
    }
    Ok(gzip_compress(payload.as_slice()))
}

} // verus!
