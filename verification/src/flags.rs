//! The 8-byte flags header of a CTEX file.
use vstd::prelude::*;

verus! {

/// Format version stored in the first byte of the header.
#[derive(Clone, Copy, Debug, PartialEq, Eq, Structural)]
pub enum Version {
    Legacy,
    V02,
}

/// Compression applied to the offsets section.
#[derive(Clone, Copy, Debug, PartialEq, Eq, Structural)]
pub enum Compression {
    Uncompressed,
    Lz4,
}

impl Version {
    /// The byte that encodes this version.
    pub open spec fn spec_byte(self) -> u8 {
        match self {
            Version::Legacy => 0,
            Version::V02 => 1,
        }
    }

    /// The version a header byte encodes, if any.
    pub open spec fn spec_from_byte(b: u8) -> Option<Version> {
        if b == 0 {
            Some(Version::Legacy)
        } else if b == 1 {
            Some(Version::V02)
        } else {
            None
        }
    }

    pub fn to_byte(self) -> (b: u8)
        ensures
            b == self.spec_byte(),
    {
        match self {
            Version::Legacy => 0,
            Version::V02 => 1,
        }
    }

    pub fn from_byte(b: u8) -> (v: Option<Version>)
        ensures
            v == Self::spec_from_byte(b),
    {
        if b == 0 {
            Some(Version::Legacy)
        } else if b == 1 {
            Some(Version::V02)
        } else {
            None
        }
    }
}

impl Compression {
    /// The byte that encodes this compression.
    pub open spec fn spec_byte(self) -> u8 {
        match self {
            Compression::Uncompressed => 0,
            Compression::Lz4 => 1,
        }
    }

    /// The compression a header byte encodes, if any.
    pub open spec fn spec_from_byte(b: u8) -> Option<Compression> {
        if b == 0 {
            Some(Compression::Uncompressed)
        } else if b == 1 {
            Some(Compression::Lz4)
        } else {
            None
        }
    }

    pub fn to_byte(self) -> (b: u8)
        ensures
            b == self.spec_byte(),
    {
        match self {
            Compression::Uncompressed => 0,
            Compression::Lz4 => 1,
        }
    }

    pub fn from_byte(b: u8) -> (c: Option<Compression>)
        ensures
            c == Self::spec_from_byte(b),
    {
        if b == 0 {
            Some(Compression::Uncompressed)
        } else if b == 1 {
            Some(Compression::Lz4)
        } else {
            None
        }
    }
}

/// The header of a CTEX file. Packed into 8 bytes:
/// version, compression, lut width, offsets width (2 bytes, little endian)
/// and 3 reserved bytes.
#[derive(Clone, Copy, Debug)]
pub struct Flags {
    pub vers_0: Version,
    pub comp_0: Compression,
    pub lutw_0: u8,
    pub offw_0: u16,
    pub resv_0: [u8; 3],
}

/// The value of eight bytes read as a little-endian integer.
pub open spec fn le_u64(s: Seq<u8>) -> int
    recommends
        s.len() >= 8,
{
    s[0] + s[1] * 0x100 + s[2] * 0x1_0000 + s[3] * 0x100_0000 + s[4] * 0x1_0000_0000 + s[5]
        * 0x100_0000_0000 + s[6] * 0x1_0000_0000_0000 + s[7] * 0x100_0000_0000_0000
}

/// The eight bytes of a word, least significant first.
pub open spec fn u64_le_bytes(v: u64) -> Seq<u8> {
    seq![
        (v % 0x100) as u8,
        ((v / 0x100) % 0x100) as u8,
        ((v / 0x1_0000) % 0x100) as u8,
        ((v / 0x100_0000) % 0x100) as u8,
        ((v / 0x1_0000_0000) % 0x100) as u8,
        ((v / 0x100_0000_0000) % 0x100) as u8,
        ((v / 0x1_0000_0000_0000) % 0x100) as u8,
        ((v / 0x100_0000_0000_0000) % 0x100) as u8,
    ]
}

/// Reading the little-endian bytes of a word gives the word back.
pub proof fn lemma_le_u64_of_bytes(v: u64)
    ensures
        le_u64(u64_le_bytes(v)) == v,
{
    assert(v == (v % 0x100) + ((v / 0x100) % 0x100) * 0x100 + ((v / 0x1_0000) % 0x100) * 0x1_0000
        + ((v / 0x100_0000) % 0x100) * 0x100_0000 + ((v / 0x1_0000_0000) % 0x100) * 0x1_0000_0000
        + ((v / 0x100_0000_0000) % 0x100) * 0x100_0000_0000 + ((v / 0x1_0000_0000_0000) % 0x100)
        * 0x1_0000_0000_0000 + ((v / 0x100_0000_0000_0000) % 0x100) * 0x100_0000_0000_0000)
        by (bit_vector);
}

/// The little-endian bytes of the word that eight bytes denote are those bytes.
pub proof fn lemma_bytes_of_le_u64(s: Seq<u8>)
    requires
        s.len() == 8,
    ensures
        0 <= le_u64(s) <= u64::MAX,
        u64_le_bytes(le_u64(s) as u64) == s,
{
    let (b0, b1, b2, b3, b4, b5, b6, b7) = (s[0], s[1], s[2], s[3], s[4], s[5], s[6], s[7]);
    assert(b0 + b1 * 0x100 + b2 * 0x1_0000 + b3 * 0x100_0000 + b4 * 0x1_0000_0000 + b5
        * 0x100_0000_0000 + b6 * 0x1_0000_0000_0000 + b7 * 0x100_0000_0000_0000 <= u64::MAX)
        by (bit_vector);
    let v: u64 = (b0 + b1 * 0x100 + b2 * 0x1_0000 + b3 * 0x100_0000 + b4 * 0x1_0000_0000 + b5
        * 0x100_0000_0000 + b6 * 0x1_0000_0000_0000 + b7 * 0x100_0000_0000_0000) as u64;
    assert(v % 0x100 == b0 && (v / 0x100) % 0x100 == b1 && (v / 0x1_0000) % 0x100 == b2 && (v
        / 0x100_0000) % 0x100 == b3 && (v / 0x1_0000_0000) % 0x100 == b4 && (v / 0x100_0000_0000)
        % 0x100 == b5 && (v / 0x1_0000_0000_0000) % 0x100 == b6 && (v / 0x100_0000_0000_0000)
        % 0x100 == b7) by (bit_vector)
        requires
            v == b0 + b1 * 0x100 + b2 * 0x1_0000 + b3 * 0x100_0000 + b4 * 0x1_0000_0000 + b5
                * 0x100_0000_0000 + b6 * 0x1_0000_0000_0000 + b7 * 0x100_0000_0000_0000,
    ;
    assert(u64_le_bytes(v) =~= s);
}

impl Flags {
    /// The 8 header bytes of these flags, in file order.
    pub open spec fn spec_bytes(self) -> Seq<u8> {
        seq![
            self.vers_0.spec_byte(),
            self.comp_0.spec_byte(),
            self.lutw_0,
            (self.offw_0 % 256) as u8,
            (self.offw_0 / 256) as u8,
            self.resv_0[0],
            self.resv_0[1],
            self.resv_0[2],
        ]
    }

    /// The flags that eight header bytes describe; `None` when the version
    /// or compression byte is not one this format defines.
    pub open spec fn spec_from_bytes(s: Seq<u8>) -> Option<Flags>
        recommends
            s.len() >= 8,
    {
        match (Version::spec_from_byte(s[0]), Compression::spec_from_byte(s[1])) {
            (Some(v), Some(c)) => Some(
                Flags {
                    vers_0: v,
                    comp_0: c,
                    lutw_0: s[2],
                    offw_0: (s[3] + 256 * s[4]) as u16,
                    resv_0: [s[5], s[6], s[7]],
                },
            ),
            _ => None,
        }
    }

    /// The flags of a new compressed file: version 0.2, LZ4, empty sizes.
    pub fn default() -> (f: Self)
        ensures
            f.vers_0 == Version::V02,
            f.comp_0 == Compression::Lz4,
            f.lutw_0 == 0,
            f.offw_0 == 0,
            f.resv_0@ == seq![0u8, 0u8, 0u8],
    {
        Flags {
            vers_0: Version::V02,
            comp_0: Compression::Lz4,
            lutw_0: 0x00,
            offw_0: 0x00_00,
            resv_0: [0x00, 0x00, 0x00],
        }
    }

    /// The flags of a new uncompressed file: version 0.2, no compression.
    pub fn default_no_compression() -> (f: Self)
        ensures
            f.vers_0 == Version::V02,
            f.comp_0 == Compression::Uncompressed,
            f.lutw_0 == 0,
            f.offw_0 == 0,
            f.resv_0@ == seq![0u8, 0u8, 0u8],
    {
        Flags {
            vers_0: Version::V02,
            comp_0: Compression::Uncompressed,
            lutw_0: 0x00,
            offw_0: 0x00_00,
            resv_0: [0x00, 0x00, 0x00],
        }
    }

    /// The 8 header bytes, in file order.
    pub fn to_bytes(&self) -> (b: Vec<u8>)
        ensures
            b@ == self.spec_bytes(),
    {
        let mut b: Vec<u8> = Vec::new();
        b.push(self.vers_0.to_byte());
        b.push(self.comp_0.to_byte());
        b.push(self.lutw_0);
        b.push((self.offw_0 % 256) as u8);
        b.push((self.offw_0 / 256) as u8);
        b.push(self.resv_0[0]);
        b.push(self.resv_0[1]);
        b.push(self.resv_0[2]);
        assert(b@ =~= self.spec_bytes());
        b
    }

    /// The packed header as one 64-bit word: the header bytes read as a
    /// little-endian integer.
    pub fn as_u64(&self) -> (v: u64)
        ensures
            v as int == le_u64(self.spec_bytes()),
    {
        let b0: u64 = self.vers_0.to_byte() as u64;
        let b1: u64 = self.comp_0.to_byte() as u64;
        let b2: u64 = self.lutw_0 as u64;
        let b34: u64 = self.offw_0 as u64;
        let b5: u64 = self.resv_0[0] as u64;
        let b6: u64 = self.resv_0[1] as u64;
        let b7: u64 = self.resv_0[2] as u64;
        assert(self.offw_0 == (self.offw_0 % 256) + 256 * (self.offw_0 / 256));
        b0 + b1 * 0x100 + b2 * 0x1_0000 + b34 * 0x100_0000 + b5 * 0x100_0000_0000 + b6
            * 0x1_0000_0000_0000 + b7 * 0x100_0000_0000_0000
    }

    /// Reads the flags from the first eight bytes of `bytes`; `None` when the
    /// version or compression byte is unknown.
    pub fn from_le_bytes(bytes: &[u8]) -> (f: Option<Flags>)
        requires
            bytes@.len() >= 8,
        ensures
            f == Self::spec_from_bytes(bytes@),
    {
        let v = Version::from_byte(bytes[0]);
        let c = Compression::from_byte(bytes[1]);
        match (v, c) {
            (Some(v), Some(c)) => Some(
                Flags {
                    vers_0: v,
                    comp_0: c,
                    lutw_0: bytes[2],
                    offw_0: bytes[3] as u16 + 256 * (bytes[4] as u16),
                    resv_0: [bytes[5], bytes[6], bytes[7]],
                },
            ),
            _ => None,
        }
    }

    /// Reads the flags from a packed header word (the word's little-endian
    /// bytes); `None` when the version or compression byte is unknown.
    pub fn from_u64(v: u64) -> (f: Option<Flags>)
        ensures
            f == Self::spec_from_bytes(u64_le_bytes(v)),
    {
        let mut b: Vec<u8> = Vec::new();
        b.push((v % 0x100) as u8);
        b.push(((v / 0x100) % 0x100) as u8);
        b.push(((v / 0x1_0000) % 0x100) as u8);
        b.push(((v / 0x100_0000) % 0x100) as u8);
        b.push(((v / 0x1_0000_0000) % 0x100) as u8);
        b.push(((v / 0x100_0000_0000) % 0x100) as u8);
        b.push(((v / 0x1_0000_0000_0000) % 0x100) as u8);
        b.push(((v / 0x100_0000_0000_0000) % 0x100) as u8);
        assert(b@ =~= u64_le_bytes(v));
        Self::from_le_bytes(b.as_slice())
    }

    pub fn compression(&self) -> (c: Compression)
        ensures
            c == self.comp_0,
    {
        self.comp_0
    }

    pub fn version(&self) -> (v: Version)
        ensures
            v == self.vers_0,
    {
        self.vers_0
    }

    /// Number of colours in the lut.
    pub fn lut_len(&self) -> (n: usize)
        ensures
            n == self.lutw_0,
    {
        self.lutw_0 as usize
    }

    /// Number of offset bytes of a square image whose side is the offsets width.
    pub fn offsets_len(&self) -> (n: usize)
        ensures
            n == self.offw_0 * self.offw_0,
    {
        assert(self.offw_0 * self.offw_0 <= 0xffff * 0xffff) by (nonlinear_arith)
            requires
                self.offw_0 <= 0xffff,
        ;
        self.offw_0 as usize * self.offw_0 as usize
    }

    /// Side length of the (square) image.
    pub fn offsets_width(&self) -> (n: usize)
        ensures
            n == self.offw_0,
    {
        self.offw_0 as usize
    }
}

/// The packed header word holds, from the least significant byte up: the
/// version (0 legacy, 1 for 0.2), the compression (0 none, 1 LZ4), the table
/// size, the offsets width in two bytes, then the three reserved bytes.
pub proof fn lemma_flags_word_layout(f: Flags)
    ensures
        le_u64(f.spec_bytes()) == (if f.vers_0 == Version::V02 {
            1int
        } else {
            0int
        }) + (if f.comp_0 == Compression::Lz4 {
            0x100int
        } else {
            0int
        }) + f.lutw_0 * 0x1_0000 + f.offw_0 * 0x100_0000 + f.resv_0[0] * 0x100_0000_0000
            + f.resv_0[1] * 0x1_0000_0000_0000 + f.resv_0[2] * 0x100_0000_0000_0000,
{
    assert(f.offw_0 == (f.offw_0 % 256) + 256 * (f.offw_0 / 256));
}

/// Reading back the header bytes of any flags gives the same flags.
pub proof fn lemma_flags_bytes_roundtrip(f: Flags)
    ensures
        Flags::spec_from_bytes(f.spec_bytes()) == Some(f),
{
    let g = Flags::spec_from_bytes(f.spec_bytes()).unwrap();
    assert(f.offw_0 == (f.offw_0 % 256) + 256 * (f.offw_0 / 256));
    assert(g.resv_0@ =~= f.resv_0@);
    assert(g.resv_0 == f.resv_0);
}

/// Packing flags into a word and reading them back gives the same flags, and
/// a word that reads as some flags is the packing of those flags.
pub proof fn lemma_flags_word_roundtrip(f: Flags, v: u64)
    ensures
        le_u64(f.spec_bytes()) == v ==> Flags::spec_from_bytes(u64_le_bytes(v)) == Some(f),
        Flags::spec_from_bytes(u64_le_bytes(v)) == Some(f) ==> le_u64(f.spec_bytes()) == v,
{
    lemma_flags_bytes_roundtrip(f);
    lemma_bytes_of_le_u64(f.spec_bytes());
    lemma_le_u64_of_bytes(v);
    if Flags::spec_from_bytes(u64_le_bytes(v)) == Some(f) {
        let s = u64_le_bytes(v);
        assert(s[3] + 256 * s[4] <= 0xffff);
        assert(f.spec_bytes() =~= s);
    }
}

} // verus!
