//! 32-bit words and their little-endian bytes.
use vstd::prelude::*;

verus! {

/// The word whose little-endian bytes are `b0, b1, b2, b3`.
pub open spec fn le_u32(b0: u8, b1: u8, b2: u8, b3: u8) -> u32 {
    (b0 + b1 * 0x100 + b2 * 0x1_0000 + b3 * 0x100_0000) as u32
}

/// Byte `k` (0 to 3, least significant first) of `v`.
pub open spec fn byte_of_u32(v: u32, k: int) -> u8 {
    if k == 0 {
        (v % 0x100) as u8
    } else if k == 1 {
        ((v / 0x100) % 0x100) as u8
    } else if k == 2 {
        ((v / 0x1_0000) % 0x100) as u8
    } else {
        (v / 0x100_0000) as u8
    }
}

/// The words that `b` holds, four little-endian bytes each; bytes after the
/// last whole word are ignored.
pub open spec fn le_words(b: Seq<u8>) -> Seq<u32> {
    Seq::new(b.len() / 4, |i: int| le_u32(b[4 * i], b[4 * i + 1], b[4 * i + 2], b[4 * i + 3]))
}

/// The little-endian bytes of `w`, word after word.
pub open spec fn words_le_bytes(w: Seq<u32>) -> Seq<u8> {
    Seq::new(4 * w.len(), |i: int| byte_of_u32(w[i / 4], i % 4))
}

proof fn lemma_u32_bytes(v: u32)
    ensures
        le_u32(byte_of_u32(v, 0), byte_of_u32(v, 1), byte_of_u32(v, 2), byte_of_u32(v, 3)) == v,
{
    assert(v == (v % 0x100) + ((v / 0x100) % 0x100) * 0x100 + ((v / 0x1_0000) % 0x100) * 0x1_0000
        + (v / 0x100_0000) * 0x100_0000) by (bit_vector);
    assert(v / 0x100_0000 < 0x100) by (bit_vector);
}

proof fn lemma_bytes_u32(b0: u8, b1: u8, b2: u8, b3: u8)
    ensures
        byte_of_u32(le_u32(b0, b1, b2, b3), 0) == b0,
        byte_of_u32(le_u32(b0, b1, b2, b3), 1) == b1,
        byte_of_u32(le_u32(b0, b1, b2, b3), 2) == b2,
        byte_of_u32(le_u32(b0, b1, b2, b3), 3) == b3,
{
    assert(b0 + b1 * 0x100 + b2 * 0x1_0000 + b3 * 0x100_0000 <= u32::MAX) by (bit_vector);
    let v: u32 = (b0 + b1 * 0x100 + b2 * 0x1_0000 + b3 * 0x100_0000) as u32;
    assert(v % 0x100 == b0 && (v / 0x100) % 0x100 == b1 && (v / 0x1_0000) % 0x100 == b2 && v
        / 0x100_0000 == b3) by (bit_vector)
        requires
            v == b0 + b1 * 0x100 + b2 * 0x1_0000 + b3 * 0x100_0000,
    ;
}

/// Reading back the bytes of some words gives the words.
pub proof fn lemma_words_bytes_roundtrip(w: Seq<u32>)
    ensures
        le_words(words_le_bytes(w)) == w,
{
    let b = words_le_bytes(w);
    assert forall|i: int| 0 <= i < w.len() implies #[trigger] le_words(b)[i] == w[i] by {
        assert((4 * i) / 4 == i && (4 * i + 1) / 4 == i && (4 * i + 2) / 4 == i && (4 * i + 3) / 4
            == i);
        assert((4 * i) % 4 == 0 && (4 * i + 1) % 4 == 1 && (4 * i + 2) % 4 == 2 && (4 * i + 3) % 4
            == 3);
        lemma_u32_bytes(w[i]);
    }
    assert(le_words(b) =~= w);
}

/// Writing out the words of a byte string of whole words gives the bytes.
pub proof fn lemma_bytes_words_roundtrip(b: Seq<u8>)
    requires
        b.len() % 4 == 0,
    ensures
        words_le_bytes(le_words(b)) == b,
{
    let w = le_words(b);
    assert forall|i: int| 0 <= i < b.len() implies #[trigger] words_le_bytes(w)[i] == b[i] by {
        let j = i / 4;
        let k = i % 4;
        assert(i == 4 * j + k && 0 <= k < 4 && j < b.len() / 4);
        lemma_bytes_u32(b[4 * j], b[4 * j + 1], b[4 * j + 2], b[4 * j + 3]);
    }
    assert(words_le_bytes(w) =~= b);
}

/// The words held by `bytes`, four little-endian bytes each.
pub fn bytes_to_words(bytes: &[u8]) -> (w: Vec<u32>)
    ensures
        w@ == le_words(bytes@),
{
    let len = bytes.len();
    let n = len / 4;
    let mut w: Vec<u32> = Vec::with_capacity(n);
    let mut i: usize = 0;
    while i < n
        invariant
            len == bytes@.len(),
            n == bytes@.len() / 4,
            i <= n,
            w@ == le_words(bytes@).take(i as int),
        decreases n - i,
    {
        assert(4 * i + 3 < bytes@.len()) by (nonlinear_arith)
            requires
                i < n,
                n == bytes@.len() / 4,
        ;
        let b0 = bytes[4 * i] as u32;
        let b1 = bytes[4 * i + 1] as u32;
        let b2 = bytes[4 * i + 2] as u32;
        let b3 = bytes[4 * i + 3] as u32;
        w.push(b0 + b1 * 0x100 + b2 * 0x1_0000 + b3 * 0x100_0000);
        assert(w@ =~= le_words(bytes@).take(i + 1));
        i = i + 1;
    }
    assert(w@ =~= le_words(bytes@));
    w
}

/// Appends the little-endian bytes of `words` to `out`.
pub fn extend_with_words(out: &mut Vec<u8>, words: &[u32])
    ensures
        final(out)@ == old(out)@ + words_le_bytes(words@),
{
    let n = words.len();
    let ghost start = out@;
    let mut i: usize = 0;
    while i < n
        invariant
            n == words@.len(),
            i <= n,
            out@ == start + words_le_bytes(words@.take(i as int)),
        decreases n - i,
    {
        let v = words[i];
        out.push((v % 0x100) as u8);
        out.push(((v / 0x100) % 0x100) as u8);
        out.push(((v / 0x1_0000) % 0x100) as u8);
        out.push((v / 0x100_0000) as u8);
        proof {
            assert(v / 0x100_0000 < 0x100) by (bit_vector);
            let prev = words_le_bytes(words@.take(i as int));
            let next = words_le_bytes(words@.take(i + 1));
            assert forall|j: int| 0 <= j < next.len() implies #[trigger] next[j] == (prev + seq![
                byte_of_u32(v, 0),
                byte_of_u32(v, 1),
                byte_of_u32(v, 2),
                byte_of_u32(v, 3),
            ])[j] by {
                if j < 4 * i {
                    assert(j / 4 < i);
                } else {
                    assert(j / 4 == i);
                }
            }
            assert(next =~= prev + seq![
                byte_of_u32(v, 0),
                byte_of_u32(v, 1),
                byte_of_u32(v, 2),
                byte_of_u32(v, 3),
            ]);
        }
        assert(out@ =~= start + words_le_bytes(words@.take(i + 1)));
        i = i + 1;
    }
    assert(words@.take(n as int) =~= words@);
}

/// The little-endian bytes of `words`.
pub fn words_to_bytes(words: &[u32]) -> (b: Vec<u8>)
    ensures
        b@ == words_le_bytes(words@),
{
    let mut b: Vec<u8> = Vec::new();
    extend_with_words(&mut b, words);
    assert(b@ =~= words_le_bytes(words@));
    b
}

} // verus!
