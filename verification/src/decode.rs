//! Turning a colour table and interleaved offsets back into pixels.
use vstd::prelude::*;
use crate::error::CtexError;
use crate::layout::{lemma_layout_bound, pixel_slot};
use crate::SECTOR_SIZE;

verus! {

/// The pixels that `lut` and `offsets` describe: pixel `p` has the colour
/// that its offset slot indexes.
pub open spec fn decoded(lut: Seq<u32>, offsets: Seq<u8>) -> Seq<u32> {
    Seq::new(offsets.len(), |p: int| lut[offsets[pixel_slot(p)] as int])
}

/// Every offset indexes the colour table.
pub open spec fn offsets_in_range(lut: Seq<u32>, offsets: Seq<u8>) -> bool {
    forall|i: int| 0 <= i < offsets.len() ==> (#[trigger] offsets[i] as int) < lut.len()
}

/// The offsets fill at least one whole sector and nothing but whole sectors,
/// and the colour table is not empty.
pub open spec fn layout_ok(lut: Seq<u32>, offsets: Seq<u8>) -> bool {
    &&& offsets.len() >= 64
    &&& offsets.len() % 64 == 0
    &&& lut.len() != 0
}

/// `lut` and `offsets` can be decoded.
pub open spec fn decodable(lut: Seq<u32>, offsets: Seq<u8>) -> bool {
    layout_ok(lut, offsets) && offsets_in_range(lut, offsets)
}

/// The colour of pixel `p`; the caller shows that `slot` is its offset slot.
fn pixel_at(lut: &[u32], offsets: &[u8], p: usize, slot: usize) -> (c: u32)
    requires
        decodable(lut@, offsets@),
        p < offsets@.len(),
        slot == pixel_slot(p as int),
    ensures
        c == decoded(lut@, offsets@)[p as int],
{
    proof {
        lemma_layout_bound(p as int, offsets@.len() as int);
    }
    lut[offsets[slot] as usize]
}

/// Decodes pixel by pixel, finding each pixel's slot arithmetically.
pub fn default_decode(lut: &[u32], offsets: &[u8]) -> (out: Vec<u32>)
    requires
        decodable(lut@, offsets@),
    ensures
        out@ == decoded(lut@, offsets@),
{
    let w = offsets.len();
    let mut out: Vec<u32> = Vec::with_capacity(w);
    let mut p: usize = 0;
    while p < w
        invariant
            w == offsets@.len(),
            decodable(lut@, offsets@),
            p <= w,
            out@ == decoded(lut@, offsets@).take(p as int),
        decreases w - p,
    {
        let slot = SECTOR_SIZE * (p / SECTOR_SIZE) + 4 * (p % 16) + (p % SECTOR_SIZE) / 16;
        let c = pixel_at(lut, offsets, p, slot);
        out.push(c);
        assert(out@ =~= decoded(lut@, offsets@).take(p + 1));
        p = p + 1;
    }
    assert(out@ =~= decoded(lut@, offsets@));
    out
}

/// Pixel `64 * i + 16 * b + q` is stored in byte `b` of word `q` of sector `i`.
pub proof fn lemma_slot_in_sector(i: int, b: int, q: int)
    requires
        0 <= i,
        0 <= b < 4,
        0 <= q < 16,
    ensures
        pixel_slot(64 * i + 16 * b + q) == 64 * i + 4 * q + b,
{
    let p = 64 * i + 16 * b + q;
    assert(p / 64 == i && p % 16 == q && (p % 64) / 16 == b) by (nonlinear_arith)
        requires
            p == 64 * i + 16 * b + q,
            0 <= b < 4,
            0 <= q < 16,
    ;
}

/// Decoding reads the sector layout: pixel `16 * b + q` of sector `i` has the
/// colour that byte `b` of the sector's 32-bit word `q` indexes.
pub proof fn lemma_decoded_sector_words(lut: Seq<u32>, offsets: Seq<u8>, i: int, b: int, q: int)
    requires
        0 <= i,
        64 * i + 64 <= offsets.len(),
        0 <= b < 4,
        0 <= q < 16,
    ensures
        decoded(lut, offsets)[64 * i + 16 * b + q] == lut[offsets[64 * i + 4 * q + b] as int],
        decoded(lut, offsets).len() == offsets.len(),
{
    lemma_slot_in_sector(i, b, q);
}

/// Decodes one sector at a time the way a SIMD register of `lanes` 32-bit
/// words does: for each byte position `b` of the sector's words, the `b`-th
/// byte of `lanes` consecutive words are looked up together and written as
/// `lanes` consecutive pixels.
fn decode_lanes(lut: &[u32], offsets: &[u8], lanes: usize) -> (out: Vec<u32>)
    requires
        decodable(lut@, offsets@),
        lanes == 4 || lanes == 8 || lanes == 16,
    ensures
        out@ == decoded(lut@, offsets@),
{
    let w = offsets.len();
    let sectors = w / SECTOR_SIZE;
    let mut out: Vec<u32> = Vec::with_capacity(w);
    let ghost dec = decoded(lut@, offsets@);
    let mut i: usize = 0;
    while i < sectors
        invariant
            w == offsets@.len(),
            sectors == w / 64,
            decodable(lut@, offsets@),
            dec == decoded(lut@, offsets@),
            lanes == 4 || lanes == 8 || lanes == 16,
            i <= sectors,
            out@ == dec.take(64 * i),
        decreases sectors - i,
    {
        proof {
            assert(64 * i + 64 <= w) by (nonlinear_arith)
                requires
                    i < sectors,
                    sectors == w / 64,
                    w % 64 == 0,
            ;
        }
        let mut b: usize = 0;
        while b < 4
            invariant
                w == offsets@.len(),
                decodable(lut@, offsets@),
                dec == decoded(lut@, offsets@),
                lanes == 4 || lanes == 8 || lanes == 16,
                64 * i + 64 <= w,
                b <= 4,
                out@ == dec.take(64 * i + 16 * b),
            decreases 4 - b,
        {
            let mut q: usize = 0;
            while q < 16
                invariant
                    w == offsets@.len(),
                    decodable(lut@, offsets@),
                    dec == decoded(lut@, offsets@),
                    lanes == 4 || lanes == 8 || lanes == 16,
                    64 * i + 64 <= w,
                    b < 4,
                    q <= 16,
                    q % lanes == 0,
                    out@ == dec.take(64 * i + 16 * b + q),
                decreases 16 - q,
            {
                let mut lane: usize = 0;
                while lane < lanes
                    invariant
                        w == offsets@.len(),
                        decodable(lut@, offsets@),
                        dec == decoded(lut@, offsets@),
                        lanes == 4 || lanes == 8 || lanes == 16,
                        64 * i + 64 <= w,
                        b < 4,
                        q < 16,
                        q % lanes == 0,
                        lane <= lanes,
                        out@ == dec.take(64 * i + 16 * b + q + lane),
                    decreases lanes - lane,
                {
                    assert(q + lane < 16);
                    proof {
                        lemma_slot_in_sector(i as int, b as int, (q + lane) as int);
                    }
                    let p = SECTOR_SIZE * i + 16 * b + q + lane;
                    let slot = SECTOR_SIZE * i + 4 * (q + lane) + b;
                    let c = pixel_at(lut, offsets, p, slot);
                    out.push(c);
                    assert(out@ =~= dec.take(p + 1));
                    lane = lane + 1;
                }
                q = q + lanes;
            }
            b = b + 1;
        }
        i = i + 1;
    }
    assert(out@ =~= dec);
    out
}

/// Decodes with four 32-bit lanes at a time (the width of an SSE2 register).
pub fn sse2_decode(lut: &[u32], offsets: &[u8]) -> (out: Vec<u32>)
    requires
        decodable(lut@, offsets@),
    ensures
        out@ == decoded(lut@, offsets@),
{
    decode_lanes(lut, offsets, 4)
}

/// Decodes with eight 32-bit lanes at a time (the width of an AVX2 register).
pub fn avx2_decode(lut: &[u32], offsets: &[u8]) -> (out: Vec<u32>)
    requires
        decodable(lut@, offsets@),
    ensures
        out@ == decoded(lut@, offsets@),
{
    decode_lanes(lut, offsets, 8)
}

/// Decodes with sixteen 32-bit lanes at a time (the width of an AVX-512 register).
pub fn avx512f_decode(lut: &[u32], offsets: &[u8]) -> (out: Vec<u32>)
    requires
        decodable(lut@, offsets@),
    ensures
        out@ == decoded(lut@, offsets@),
{
    decode_lanes(lut, offsets, 16)
}

/// Decodes the pixels of an image from its colour table and offsets. Every
/// lane width gives the same pixels, so this takes the portable path.
pub fn decode_raw(lut: &[u32], offsets: &[u8]) -> (out: Vec<u32>)
    requires
        decodable(lut@, offsets@),
    ensures
        out@ == decoded(lut@, offsets@),
{
    default_decode(lut, offsets)
}

/// Whether every offset indexes the colour table.
fn check_offsets(lut: &[u32], offsets: &[u8]) -> (ok: bool)
    ensures
        ok == offsets_in_range(lut@, offsets@),
{
    let mut i: usize = 0;
    while i < offsets.len()
        invariant
            i <= offsets@.len(),
            forall|j: int| 0 <= j < i ==> (#[trigger] offsets@[j] as int) < lut@.len(),
        decreases offsets@.len() - i,
    {
        if offsets[i] as usize >= lut.len() {
            return false;
        }
        i = i + 1;
    }
    true
}

/// Decodes after checking what [`decode_raw`] requires: the offsets must fill
/// whole sectors (at least one), the table must not be empty, and every offset
/// must index the table.
pub fn decode_checked(lut: &[u32], offsets: &[u8]) -> (r: Result<Vec<u32>, CtexError>)
    ensures
        !layout_ok(lut@, offsets@) ==> r == Err::<Vec<u32>, CtexError>(CtexError::InvalidLayout),
        layout_ok(lut@, offsets@) && !offsets_in_range(lut@, offsets@) ==> r == Err::<
            Vec<u32>,
            CtexError,
        >(CtexError::OffsetOutOfRange),
        decodable(lut@, offsets@) ==> (r matches Ok(out) && out@ == decoded(lut@, offsets@)),
{
    if offsets.len() < SECTOR_SIZE || offsets.len() % SECTOR_SIZE != 0 || lut.len() == 0 {
        return Err(CtexError::InvalidLayout);
    }
    if !check_offsets(lut, offsets) {
        return Err(CtexError::OffsetOutOfRange);
    }
    Ok(decode_raw(lut, offsets))
}

} // verus!
