//! Building the colour table and the interleaved offsets of an image.
use vstd::prelude::*;
use crate::ext::{integer_sqrt, is_floor_sqrt};
use crate::error::CtexError;
use crate::flags::Flags;
use crate::layout::slot_pixel;
use crate::SECTOR_SIZE;

verus! {

/// The colours of `s` in order of first appearance.
pub open spec fn palette(s: Seq<u32>) -> Seq<u32>
    decreases s.len(),
{
    if s.len() == 0 {
        seq![]
    } else {
        palette_step(palette(s.drop_last()), s.last())
    }
}

/// The colour table after meeting colour `c`.
pub open spec fn palette_step(p: Seq<u32>, c: u32) -> Seq<u32> {
    if p.contains(c) {
        p
    } else {
        p.push(c)
    }
}

/// The pixels of `img` in the order their index bytes are stored: for each
/// whole sector, slot by slot. Pixels past the last whole sector are not
/// visited.
pub open spec fn sector_order(img: Seq<u32>) -> Seq<u32> {
    Seq::new(((img.len() / 64) * 64) as nat, |t: int| img[slot_pixel(t)])
}

/// `n` is a power of two.
pub open spec fn is_pow2(n: nat) -> bool
    decreases n,
{
    if n == 1 {
        true
    } else if n == 0 || n % 2 == 1 {
        false
    } else {
        is_pow2(n / 2)
    }
}

/// `lut` and `offsets` encode the pixels of `img`: the table lists the
/// visited colours in order of first appearance and offset slot `t` indexes
/// the colour of the pixel stored there.
pub open spec fn encodes(img: Seq<u32>, lut: Seq<u32>, offsets: Seq<u8>) -> bool {
    let order = sector_order(img);
    &&& lut == palette(order)
    &&& offsets.len() == order.len()
    &&& forall|t: int|
        0 <= t < offsets.len() ==> (#[trigger] offsets[t] as int) < lut.len() && lut[offsets[t]
            as int] == order[t]
}

/// The flags after encoding: `lutw_0` and `offw_0` hold the table size and the
/// image side, each truncated to its field's width.
pub open spec fn sized_flags(flags: Flags, lut_len: int, side: int) -> Flags {
    Flags { lutw_0: (lut_len % 256) as u8, offw_0: (side % 65536) as u16, ..flags }
}

/// The integer square root of `n`, rounded down.
pub open spec fn floor_sqrt(n: int) -> int {
    choose|s: int| is_floor_sqrt(s, n)
}

/// Any rounded-down square root of `n` is `floor_sqrt(n)`.
pub proof fn lemma_floor_sqrt_unique(s: int, n: int)
    requires
        is_floor_sqrt(s, n),
    ensures
        floor_sqrt(n) == s,
{
    let r = floor_sqrt(n);
    assert(is_floor_sqrt(r, n));
    assert(r == s) by (nonlinear_arith)
        requires
            0 <= r,
            0 <= s,
            r * r <= n < (r + 1) * (r + 1),
            s * s <= n < (s + 1) * (s + 1),
    ;
}

/// Every natural number has a rounded-down square root.
pub proof fn lemma_floor_sqrt_exists(n: int)
    requires
        0 <= n,
    ensures
        is_floor_sqrt(floor_sqrt(n), n),
    decreases n,
{
    if n == 0 {
        assert(is_floor_sqrt(0, 0));
    } else {
        lemma_floor_sqrt_exists(n - 1);
        let s = floor_sqrt(n - 1);
        if (s + 1) * (s + 1) <= n {
            assert(is_floor_sqrt(s + 1, n)) by (nonlinear_arith)
                requires
                    0 <= s,
                    s * s <= n - 1 < (s + 1) * (s + 1),
                    (s + 1) * (s + 1) <= n,
            ;
        } else {
            assert(is_floor_sqrt(s, n));
        }
    }
}

/// The side written into the header is the rounded-down square root of the
/// pixel count, whatever the compression; the table size is the number of
/// colours when it fits the byte; version, compression and reserved bytes are
/// the caller's.
pub proof fn lemma_sized_flags(f: Flags, lut_len: int, n: int)
    requires
        0 <= n < 0x1_0000_0000,
    ensures
        is_floor_sqrt(sized_flags(f, lut_len, floor_sqrt(n)).offw_0 as int, n),
        0 <= lut_len <= 255 ==> sized_flags(f, lut_len, floor_sqrt(n)).lutw_0 == lut_len,
        sized_flags(f, lut_len, floor_sqrt(n)).vers_0 == f.vers_0,
        sized_flags(f, lut_len, floor_sqrt(n)).comp_0 == f.comp_0,
        sized_flags(f, lut_len, floor_sqrt(n)).resv_0 == f.resv_0,
{
    lemma_floor_sqrt_exists(n);
    let s = floor_sqrt(n);
    assert(s < 0x1_0000) by (nonlinear_arith)
        requires
            0 <= s,
            s * s <= n < 0x1_0000_0000,
    ;
}

/// A position of colour `c` in `lut`.
pub open spec fn index_in(lut: Seq<u32>, c: u32) -> int {
    choose|i: int| 0 <= i < lut.len() && lut[i] == c
}

/// The offsets of `img`: for each slot, the table index of the colour of the
/// pixel stored there.
pub open spec fn encoded_offsets(img: Seq<u32>) -> Seq<u8> {
    let order = sector_order(img);
    Seq::new(order.len(), |t: int| index_in(palette(order), order[t]) as u8)
}

/// The offsets that encode an image are its `encoded_offsets`.
pub proof fn lemma_encodes_unique(img: Seq<u32>, lut: Seq<u32>, offsets: Seq<u8>)
    requires
        encodes(img, lut, offsets),
    ensures
        offsets == encoded_offsets(img),
        lut.no_duplicates(),
{
    let order = sector_order(img);
    lemma_palette(order);
    let e = encoded_offsets(img);
    assert forall|t: int| 0 <= t < offsets.len() implies #[trigger] e[t] == offsets[t] by {
        let k = offsets[t] as int;
        assert(0 <= k < lut.len() && lut[k] == order[t]);
        let i = index_in(lut, order[t]);
        assert(0 <= i < lut.len() && lut[i] == order[t]);
        assert(i == k);
    }
    assert(e =~= offsets);
}

/// A palette holds each colour once, and exactly the colours of its input.
pub proof fn lemma_palette(s: Seq<u32>)
    ensures
        palette(s).no_duplicates(),
        forall|c: u32| palette(s).contains(c) <==> s.contains(c),
    decreases s.len(),
{
    if s.len() > 0 {
        let p = palette(s.drop_last());
        lemma_palette(s.drop_last());
        assert forall|c: u32| palette(s).contains(c) <==> s.contains(c) by {
            if s.contains(c) && !s.drop_last().contains(c) {
                let i = choose|i: int| 0 <= i < s.len() && s[i] == c;
                if i < s.len() - 1 {
                    assert(s.drop_last()[i] == c);
                }
                assert(c == s.last());
            }
            if s.drop_last().contains(c) {
                let i = choose|i: int| 0 <= i < s.drop_last().len() && s.drop_last()[i] == c;
                assert(s[i] == c);
            }
            if palette(s).contains(c) && !p.contains(c) {
                assert(palette(s) == p.push(s.last()));
                let i = choose|i: int| 0 <= i < palette(s).len() && palette(s)[i] == c;
                assert(i == p.len());
                assert(s[s.len() - 1] == c);
            }
            if p.contains(c) && !palette(s).contains(c) {
                let i = choose|i: int| 0 <= i < p.len() && p[i] == c;
                assert(palette(s)[i] == c);
            }
            if c == s.last() {
                if !p.contains(c) {
                    assert(palette(s)[p.len() as int] == c);
                }
            }
        }
    }
}

/// When the visited pixels hold at most 256 colours, the palette and the
/// `encoded_offsets` of an image encode it.
pub proof fn lemma_encoded_offsets(img: Seq<u32>)
    requires
        palette(sector_order(img)).len() <= 256,
    ensures
        encodes(img, palette(sector_order(img)), encoded_offsets(img)),
{
    let order = sector_order(img);
    let lut = palette(order);
    let e = encoded_offsets(img);
    lemma_palette(order);
    assert forall|t: int| 0 <= t < e.len() implies (#[trigger] e[t] as int) < lut.len() && lut[e[t]
        as int] == order[t] by {
        assert(order.contains(order[t]));
        assert(lut.contains(order[t]));
        let i = index_in(lut, order[t]);
        assert(0 <= i < lut.len() && lut[i] == order[t]);
        assert(e[t] == i as u8);
    }
}

/// The colour table grows only at its end: the table of any prefix of `s` is a
/// prefix of the table of `s`. With `lemma_palette` this says the table lists
/// the colours of `s` once each, in order of first appearance.
pub proof fn lemma_palette_prefix(s: Seq<u32>, k: int)
    requires
        0 <= k <= s.len(),
    ensures
        palette(s.take(k)).len() <= palette(s).len(),
        palette(s).take(palette(s.take(k)).len() as int) == palette(s.take(k)),
    decreases s.len(),
{
    if k == s.len() {
        assert(s.take(k) =~= s);
        assert(palette(s).take(palette(s).len() as int) =~= palette(s));
    } else {
        let d = s.drop_last();
        assert(s.take(k) =~= d.take(k));
        lemma_palette_prefix(d, k);
        let pd = palette(d);
        let pk = palette(d.take(k));
        assert(palette(s).take(pd.len() as int) =~= pd);
        assert(palette(s).take(pk.len() as int) =~= pd.take(pk.len() as int));
    }
}

/// Meeting one more element of `s` turns the palette of a prefix into the
/// palette of the next prefix.
pub proof fn lemma_palette_extend(s: Seq<u32>, m: int)
    requires
        0 <= m < s.len(),
    ensures
        palette(s.take(m + 1)) == palette_step(palette(s.take(m)), s[m]),
{
    assert(s.take(m + 1).drop_last() =~= s.take(m));
}

/// The palette of a prefix is no longer than the palette of a longer prefix.
pub proof fn lemma_palette_prefix_len(s: Seq<u32>, i: int, j: int)
    requires
        0 <= i <= j <= s.len(),
    ensures
        palette(s.take(i)).len() <= palette(s.take(j)).len(),
    decreases j - i,
{
    if i < j {
        lemma_palette_prefix_len(s, i, j - 1);
        lemma_palette_extend(s, j - 1);
    }
}

/// `i` is the position of the first occurrence of `c` in `s`.
pub open spec fn is_first_index(s: Seq<u32>, c: u32, i: int) -> bool {
    &&& 0 <= i < s.len()
    &&& s[i] == c
    &&& forall|k: int| 0 <= k < i ==> s[k] != c
}

/// Index of the first occurrence of `color` in `lut`, if it is there.
pub(crate) fn search(color: u32, lut: &[u32]) -> (r: Option<usize>)
    ensures
        match r {
            Some(i) => is_first_index(lut@, color, i as int),
            None => !lut@.contains(color),
        },
{
    let mut i: usize = 0;
    while i < lut.len()
        invariant
            i <= lut@.len(),
            forall|j: int| 0 <= j < i ==> lut@[j] != color,
        decreases lut@.len() - i,
    {
        if lut[i] == color {
            return Some(i);
        }
        i = i + 1;
    }
    None
}

/// Records one pixel: appends to `offsets` the index of the first occurrence
/// of `color` in the table, adding the colour at the end of the table first
/// if it is new.
pub(crate) fn add(color: u32, lut: &mut Vec<u32>, offsets: &mut Vec<u8>)
    requires
        old(lut)@.len() <= 255 || old(lut)@.contains(color),
    ensures
        final(lut)@ == palette_step(old(lut)@, color),
        final(offsets)@.len() == old(offsets)@.len() + 1,
        final(offsets)@.drop_last() == old(offsets)@,
        old(lut)@.contains(color) ==> exists|i: int|
            is_first_index(old(lut)@, color, i) && final(offsets)@.last() == i as u8,
        !old(lut)@.contains(color) ==> final(offsets)@.last() == old(lut)@.len(),
        final(lut)@.len() <= 256 ==> (final(offsets)@.last() as int) < final(lut)@.len()
            && final(lut)@[final(offsets)@.last() as int] == color,
{
    if let Some(idx) = search(color, lut.as_slice()) {
        offsets.push(#[verifier::truncate] (idx as u8));
        assert(is_first_index(old(lut)@, color, idx as int));
        assert(offsets@.drop_last() =~= old(offsets)@);
    } else {
        lut.push(color);
        offsets.push((lut.len() - 1) as u8);
        assert(offsets@.drop_last() =~= old(offsets)@);
    }
}

/// The state of the encoder after `offsets.len()` slots of `img`.
pub open spec fn encoding_prefix(img: Seq<u32>, lut: Seq<u32>, offsets: Seq<u8>) -> bool {
    let order = sector_order(img);
    &&& offsets.len() <= order.len()
    &&& lut == palette(order.take(offsets.len() as int))
    &&& lut.len() <= 256
    &&& forall|j: int|
        0 <= j < offsets.len() ==> (#[trigger] offsets[j] as int) < lut.len() && lut[offsets[j]
            as int] == order[j]
}

/// Records the pixel stored at slot `t` (pixel `p` of the image).
fn add_slot(img: &[u32], t: usize, p: usize, lut: &mut Vec<u32>, offsets: &mut Vec<u8>) -> (added:
    bool)
    requires
        encoding_prefix(img@, old(lut)@, old(offsets)@),
        t == old(offsets)@.len(),
        t < sector_order(img@).len(),
        p == slot_pixel(t as int),
    ensures
        added ==> encoding_prefix(img@, final(lut)@, final(offsets)@),
        added ==> final(offsets)@.len() == t + 1,
        !added ==> palette(sector_order(img@)).len() > 256,
{
    let ghost order = sector_order(img@);
    proof {
        crate::layout::lemma_layout_bound(t as int, ((img@.len() / 64) * 64) as int);
        assert((img@.len() / 64) * 64 <= img@.len()) by (nonlinear_arith);
        lemma_palette_extend(order, t as int);
    }
    let ghost lut0 = lut@;
    let ghost offs0 = offsets@;
    let color = img[p];
    if lut.len() >= 256 && search(color, lut.as_slice()).is_none() {
        proof {
            lemma_palette_prefix_len(order, t + 1, order.len() as int);
            assert(order.take(order.len() as int) =~= order);
        }
        return false;
    }
    self::add(color, lut, offsets);
    proof {
        assert(lut@ == palette(order.take(t + 1)));
        assert forall|i: int| 0 <= i < lut0.len() implies lut@[i] == lut0[i] by {
            if !lut0.contains(color) {
                assert(lut@ == lut0.push(color));
            }
        }
        assert forall|j: int| 0 <= j < offsets@.len() implies (#[trigger] offsets@[j] as int)
            < lut@.len() && lut@[offsets@[j] as int] == order[j] by {
            if j < t {
                assert(offsets@[j] == offsets@.drop_last()[j]);
                assert(offsets@[j] == offs0[j]);
                assert((offs0[j] as int) < lut0.len() && lut0[offs0[j] as int] == order[j]);
            } else {
                assert(offsets@[j] == offsets@.last());
                assert(order[j] == img@[p as int]);
            }
        }
    }
    true
}

/// Position of a pixel in the sector layout, written as sector, column and row.
proof fn lemma_slot_of(i: int, n: int, k: int)
    requires
        0 <= i,
        0 <= n < 16,
        0 <= k < 4,
    ensures
        slot_pixel(64 * i + 4 * n + k) == 64 * i + n + 16 * k,
{
    let t = 64 * i + 4 * n + k;
    assert(t / 64 == i && t % 64 == 4 * n + k && t % 4 == k && (4 * n + k) / 4 == n)
        by (nonlinear_arith)
        requires
            t == 64 * i + 4 * n + k,
            0 <= n < 16,
            0 <= k < 4,
    ;
}

/// Builds the colour table and the offsets of `img`, sector by sector;
/// `None` when the visited pixels hold more than 256 colours.
pub fn encode_palette(img: &[u32]) -> (r: Option<(Vec<u32>, Vec<u8>)>)
    ensures
        r is Some <==> palette(sector_order(img@)).len() <= 256,
        r matches Some((lut, offsets)) ==> encodes(img@, lut@, offsets@),
{
    let w = img.len();
    let mut lut: Vec<u32> = Vec::new();
    let mut offsets: Vec<u8> = Vec::new();
    let sectors = w / SECTOR_SIZE;
    let ghost order = sector_order(img@);
    proof {
        assert(order.take(0) =~= Seq::<u32>::empty());
        assert(sectors * 64 == order.len());
    }
    let mut i: usize = 0;
    while i < sectors
        invariant
            w == img@.len(),
            sectors == w / 64,
            order == sector_order(img@),
            sectors * 64 == order.len(),
            i <= sectors,
            offsets@.len() == 64 * i,
            encoding_prefix(img@, lut@, offsets@),
        decreases sectors - i,
    {
        let mut n: usize = 0;
        while n < SECTOR_SIZE / 4
            invariant
                w == img@.len(),
                sectors == w / 64,
                order == sector_order(img@),
                sectors * 64 == order.len(),
                i < sectors,
                n <= 16,
                offsets@.len() == 64 * i + 4 * n,
                encoding_prefix(img@, lut@, offsets@),
            decreases 16 - n,
        {
            proof {
                assert(64 * i + 64 <= 64 * sectors) by (nonlinear_arith)
                    requires
                        i < sectors,
                ;
                lemma_slot_of(i as int, n as int, 0);
                lemma_slot_of(i as int, n as int, 1);
                lemma_slot_of(i as int, n as int, 2);
                lemma_slot_of(i as int, n as int, 3);
            }
            let t = SECTOR_SIZE * i + 4 * n;
            if !add_slot(img, t, SECTOR_SIZE * i + n + 0, &mut lut, &mut offsets) {
                return None;
            }
            if !add_slot(img, t + 1, SECTOR_SIZE * i + n + 16, &mut lut, &mut offsets) {
                return None;
            }
            if !add_slot(img, t + 2, SECTOR_SIZE * i + n + 32, &mut lut, &mut offsets) {
                return None;
            }
            if !add_slot(img, t + 3, SECTOR_SIZE * i + n + 48, &mut lut, &mut offsets) {
                return None;
            }
            n = n + 1;
        }
        i = i + 1;
    }
    proof {
        assert(offsets@.len() == order.len());
        assert(order.take(order.len() as int) =~= order);
        assert(lut@ == palette(order));
    }
    Some((lut, offsets))
}

/// Whether `n` is a power of two.
pub fn is_power_of_two(n: usize) -> (b: bool)
    ensures
        b == is_pow2(n as nat),
{
    let mut m = n;
    while m > 1 && m % 2 == 0
        invariant
            is_pow2(m as nat) == is_pow2(n as nat),
        decreases m,
    {
        m = m / 2;
    }
    m == 1
}

/// Encodes a square image of `img.len()` pixels (a power of two) with at most
/// 256 colours: returns the colour table, the interleaved offsets, and
/// `flags` with the table size and the image side filled in.
pub fn encode_raw(img: &[u32], flags: Flags) -> (r: (Vec<u32>, Vec<u8>, Flags))
    requires
        is_pow2(img@.len()),
        palette(sector_order(img@)).len() <= 256,
    ensures
        encodes(img@, r.0@, r.1@),
        r.0@ == palette(sector_order(img@)),
        r.0@.no_duplicates(),
        r.0@.len() <= 256,
        r.1@ == encoded_offsets(img@),
        r.2 == sized_flags(flags, r.0@.len() as int, floor_sqrt(img@.len() as int)),
{
    let mut flags = flags;
    let r = encode(img, &mut flags);
    proof {
        lemma_encodes_unique(img@, r.0@, r.1@);
    }
    r
}

/// [`encode_raw`] on any image: `NotPowerOfTwo` when the pixel count is not a
/// power of two, `TooManyColors` when the visited pixels hold more than 256
/// colours, otherwise what `encode_raw` returns.
pub fn encode_raw_checked(img: &[u32], flags: Flags) -> (r: Result<
    (Vec<u32>, Vec<u8>, Flags),
    CtexError,
>)
    ensures
        !is_pow2(img@.len()) ==> r == Err::<(Vec<u32>, Vec<u8>, Flags), CtexError>(
            CtexError::NotPowerOfTwo,
        ),
        is_pow2(img@.len()) && palette(sector_order(img@)).len() > 256 ==> r == Err::<
            (Vec<u32>, Vec<u8>, Flags),
            CtexError,
        >(CtexError::TooManyColors),
        is_pow2(img@.len()) && palette(sector_order(img@)).len() <= 256 ==> (r matches Ok(v) && {
            &&& v.0@ == palette(sector_order(img@))
            &&& v.1@ == encoded_offsets(img@)
            &&& v.2 == sized_flags(flags, v.0@.len() as int, floor_sqrt(img@.len() as int))
        }),
{
    if !is_power_of_two(img.len()) {
        return Err(CtexError::NotPowerOfTwo);
    }
    match encode_palette(img) {
        None => Err(CtexError::TooManyColors),
        Some((lut, offsets)) => {
            proof {
                lemma_encodes_unique(img@, lut@, offsets@);
            }
            let mut flags = flags;
            set_sizes(&mut flags, lut.len(), img.len());
            Ok((lut, offsets, flags))
        },
    }
}

/// Encodes `img` and fills the sizes into `flags`; see [`encode_raw`].
fn encode(img: &[u32], flags: &mut Flags) -> (r: (Vec<u32>, Vec<u8>, Flags))
    requires
        is_pow2(img@.len()),
        palette(sector_order(img@)).len() <= 256,
    ensures
        encodes(img@, r.0@, r.1@),
        r.2 == sized_flags(*old(flags), r.0@.len() as int, floor_sqrt(img@.len() as int)),
        *final(flags) == r.2,
{
    let w = img.len();
    let (lut, offsets) = match encode_palette(img) {
        Some(p) => p,
        None => {
            proof {
                assert(false);
            }
            (Vec::new(), Vec::new())
        },
    };
    set_sizes(flags, lut.len(), w);
    (lut, offsets, *flags)
}

/// Fills in the table size and the side of an image of `w` pixels, each
/// truncated to its field's width.
pub fn set_sizes(flags: &mut Flags, lut_len: usize, w: usize)
    ensures
        *final(flags) == sized_flags(*old(flags), lut_len as int, floor_sqrt(w as int)),
{
    let side = integer_sqrt(w);
    flags.lutw_0 = (lut_len % 256) as u8;
    flags.offw_0 = (side % 65536) as u16;
    proof {
        lemma_floor_sqrt_unique(side as int, w as int);
    }
}

} // verus!
