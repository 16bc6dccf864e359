use ctex::container::{decode_bytes, decode_pixels, parse};
use ctex::decode::{avx512f_decode, decode_checked, default_decode};
use ctex::encode::{encode_palette, encode_raw, encode_raw_checked, is_power_of_two};
use ctex::encoding::{check_square, encode, encode_image, Image};
use ctex::error::CtexError;
use ctex::flags::{Compression, Flags, Version};
use ctex::legacy::encode_pixels;
use ctex::words::{bytes_to_words, words_to_bytes};
use std::io::Read;

const INPUT_LUT: [u32; 3] = [5, 4, 6];

fn sector_offsets() -> Vec<u8> {
    let mut v = Vec::new();
    for _ in 0..4 {
        v.extend_from_slice(&[0, 1, 1, 1, 0, 1, 1, 1, 1, 1, 1, 1, 1, 1, 2, 1]);
        v.extend_from_slice(&[1; 16]);
    }
    v
}

fn sector_pixels() -> Vec<u32> {
    let mut v = vec![5, 5, 4, 4, 4, 4, 4, 4, 5, 5, 4, 4, 4, 4, 4, 4];
    v.extend_from_slice(&[4; 16]);
    v.extend_from_slice(&[4, 4, 4, 6, 4, 4, 4, 4, 4, 4, 4, 6, 4, 4, 4, 4]);
    v.extend_from_slice(&[4; 16]);
    v
}

/// An image of `n` pixels using `colors` colours in a repeating pattern.
fn pattern(n: usize, colors: u32) -> Vec<u32> {
    (0..n as u32).map(|i| 0xff00_0000 | ((i * 7 + i / 3) % colors)).collect()
}

fn pixel_bytes(px: &[u32]) -> Vec<u8> {
    px.iter().flat_map(|p| p.to_le_bytes()).collect()
}

#[test]
fn flags_defaults() {
    let f = Flags::default();
    assert_eq!(f.version(), Version::V02);
    assert_eq!(f.compression(), Compression::Lz4);
    assert_eq!(f.lut_len(), 0);
    assert_eq!(f.offsets_width(), 0);
    assert_eq!(f.as_u64(), 0x0101);
    let g = Flags::default_no_compression();
    assert_eq!(g.compression(), Compression::Uncompressed);
    assert_eq!(g.as_u64(), 0x0001);
    assert_eq!(g.to_bytes(), vec![1, 0, 0, 0, 0, 0, 0, 0]);
}

#[test]
fn flags_word_roundtrip() {
    let mut f = Flags::default();
    f.lutw_0 = 3;
    f.offw_0 = 0x1234;
    f.resv_0 = [7, 8, 9];
    let v = f.as_u64();
    assert_eq!(v, 0x0908_0712_3403_0101);
    let g = Flags::from_u64(v).unwrap();
    assert_eq!(g.lut_len(), 3);
    assert_eq!(g.offsets_width(), 0x1234);
    assert_eq!(g.offsets_len(), 0x1234 * 0x1234);
    assert_eq!(g.resv_0, [7, 8, 9]);
    assert_eq!(g.as_u64(), v);
    assert_eq!(Flags::from_le_bytes(&v.to_le_bytes()).unwrap().as_u64(), v);
}

#[test]
fn flags_reject_unknown_bytes() {
    assert!(Flags::from_u64(0x0002).is_none());
    assert!(Flags::from_u64(0x0701).is_none());
    assert!(Flags::from_u64(0x0000).is_some());
}

#[test]
fn power_of_two_check() {
    assert!(is_power_of_two(1));
    assert!(is_power_of_two(64));
    assert!(is_power_of_two(1 << 20));
    assert!(!is_power_of_two(0));
    assert!(!is_power_of_two(96));
}

#[test]
fn encode_raw_fills_sizes() {
    let (lut, offsets, f) = encode_raw(&sector_pixels().repeat(2), Flags::default_no_compression());
    assert_eq!(lut, INPUT_LUT.to_vec());
    assert_eq!(offsets, sector_offsets());
    assert_eq!(f.lut_len(), 3);
    // 128 pixels: the side is the square root rounded down
    assert_eq!(f.offsets_width(), 11);
    let (_, _, f) = encode_raw(&vec![1u32; 4096], Flags::default());
    assert_eq!(f.offsets_width(), 64);
    assert_eq!(f.lut_len(), 1);
    assert_eq!(f.compression(), Compression::Lz4);
}

#[test]
fn encode_small_image_visits_no_sector() {
    let (lut, offsets, f) = encode_raw(&[1, 2, 3, 4], Flags::default());
    assert!(lut.is_empty());
    assert!(offsets.is_empty());
    assert_eq!(f.offsets_width(), 2);
}

#[test]
fn encode_palette_limits() {
    assert!(encode_palette(&pattern(512, 256)).is_some());
    assert!(encode_palette(&pattern(512, 300)).is_none());
    let (lut, offsets) = encode_palette(&pattern(512, 256)).unwrap();
    assert_eq!(lut.len(), 256);
    assert!(offsets.iter().all(|&o| (o as usize) < lut.len()));
}

#[test]
fn encode_image_errors() {
    let f = Flags::default_no_compression();
    assert_eq!(encode_image(&pattern(96, 4), f).err(), Some(CtexError::NotPowerOfTwo));
    assert_eq!(encode_image(&pattern(512, 300), f).err(), Some(CtexError::TooManyColors));
    let im = encode_image(&pattern(512, 256), f).unwrap();
    assert_eq!(im.lut.len(), 256);
    // the table size does not fit the header byte
    assert_eq!(im.flags.lut_len(), 0);
}

#[test]
fn all_decoders_agree() {
    let lut = INPUT_LUT;
    let offsets = sector_offsets();
    let expected = sector_pixels().repeat(2);
    assert_eq!(default_decode(&lut, &offsets), expected);
    assert_eq!(avx512f_decode(&lut, &offsets), expected);
    let img = pattern(4096, 200);
    let (lut, offsets, _) = encode_raw(&img, Flags::default());
    assert_eq!(default_decode(&lut, &offsets), img);
    assert_eq!(avx512f_decode(&lut, &offsets), img);
    assert_eq!(ctex::decode::avx2_decode(&lut, &offsets), img);
    assert_eq!(ctex::decode::sse2_decode(&lut, &offsets), img);
}

#[test]
fn decode_checked_errors() {
    let offsets = sector_offsets();
    assert_eq!(decode_checked(&INPUT_LUT, &offsets[..63]).err(), Some(CtexError::InvalidLayout));
    assert_eq!(decode_checked(&[], &offsets).err(), Some(CtexError::InvalidLayout));
    assert_eq!(decode_checked(&INPUT_LUT[..2], &offsets).err(), Some(CtexError::OffsetOutOfRange));
    assert_eq!(decode_checked(&INPUT_LUT, &offsets).unwrap(), sector_pixels().repeat(2));
}

#[test]
fn words_and_bytes() {
    let b = vec![1, 2, 3, 4, 5, 6, 7, 8, 9];
    let w = bytes_to_words(&b);
    assert_eq!(w, vec![0x0403_0201, 0x0807_0605]);
    assert_eq!(words_to_bytes(&w), b[..8].to_vec());
}

#[test]
fn image_bytes_layout() {
    let im = Image { flags: Flags::default_no_compression(), lut: vec![0x0403_0201], offsets: vec![9, 9] };
    assert_eq!(im.to_bytes(), vec![1, 0, 0, 0, 0, 0, 0, 0, 1, 2, 3, 4, 9, 9]);
}

#[test]
fn uncompressed_file_roundtrip() {
    let img = pattern(64, 5);
    let file = encode(&pixel_bytes(&img), Flags::default_no_compression()).unwrap();
    assert_eq!(file.len(), 8 + 4 * 5 + 64);
    assert_eq!(file[2], 5);
    assert_eq!(file[3], 8);
    assert_eq!(decode_pixels(&file).unwrap(), img);
    assert_eq!(decode_bytes(&file).unwrap(), pixel_bytes(&img));
}

#[test]
fn lz4_file_roundtrip() {
    let img = pattern(4096, 9);
    let file = encode(&pixel_bytes(&img), Flags::default()).unwrap();
    let (flags, lut, stored) = parse(&file).unwrap();
    assert_eq!(flags.compression(), Compression::Lz4);
    assert_eq!(lut.len(), 9);
    // the offsets were compressed
    assert!(stored.len() < 4096);
    assert_eq!(decode_pixels(&file).unwrap(), img);
    assert_eq!(decode_bytes(&file).unwrap(), pixel_bytes(&img));
}

#[test]
fn lz4_file_of_non_square_image_does_not_decode() {
    let img = pattern(128, 3);
    let file = encode(&pixel_bytes(&img), Flags::default()).unwrap();
    assert_eq!(decode_pixels(&file).err(), Some(CtexError::DecompressFailed));
}

#[test]
fn encode_undoes_decode() {
    let offsets = sector_offsets();
    let img = ctex::decode::decode_raw(&INPUT_LUT, &offsets);
    let (lut, offs, _) = encode_raw(&img, Flags::default_no_compression());
    assert_eq!(lut, INPUT_LUT.to_vec());
    assert_eq!(offs, offsets);
}

#[test]
fn encode_raw_checked_results() {
    let f = Flags::default_no_compression();
    assert_eq!(encode_raw_checked(&pattern(96, 4), f).err(), Some(CtexError::NotPowerOfTwo));
    assert_eq!(encode_raw_checked(&pattern(512, 300), f).err(), Some(CtexError::TooManyColors));
    let (lut, offsets, flags) = encode_raw_checked(&sector_pixels().repeat(2), f).unwrap();
    assert_eq!(lut, INPUT_LUT.to_vec());
    assert_eq!(offsets, sector_offsets());
    assert_eq!(flags.offsets_width(), 11);
}

#[test]
fn square_check() {
    assert_eq!(check_square(8, 8), Ok(()));
    assert_eq!(check_square(8, 16), Err(CtexError::NotSquare));
}

#[test]
fn decode_file_errors() {
    assert_eq!(decode_pixels(&[1, 0, 0]).err(), Some(CtexError::Truncated));
    assert_eq!(decode_pixels(&[9, 0, 0, 0, 0, 0, 0, 0]).err(), Some(CtexError::InvalidFlags));
    assert_eq!(decode_pixels(&[1, 0, 3, 0, 0, 0, 0, 0, 1, 2]).err(), Some(CtexError::Truncated));
    let mut file = vec![1, 0, 1, 0, 0, 0, 0, 0, 7, 0, 0, 0];
    file.extend_from_slice(&[0; 63]);
    assert_eq!(decode_pixels(&file).err(), Some(CtexError::InvalidLayout));
    file.push(1);
    assert_eq!(decode_pixels(&file).err(), Some(CtexError::OffsetOutOfRange));
    let last = file.len() - 1;
    file[last] = 0;
    assert_eq!(decode_pixels(&file).unwrap(), vec![7; 64]);
    let mut bad = vec![1, 1, 1, 8, 0, 0, 0, 0, 7, 0, 0, 0];
    bad.extend_from_slice(&[0xff, 0xff, 0xff]);
    assert_eq!(decode_pixels(&bad).err(), Some(CtexError::DecompressFailed));
}

#[test]
fn encode_errors_on_bytes() {
    assert_eq!(encode(&pixel_bytes(&pattern(48, 2)), Flags::default()).err(), Some(CtexError::NotPowerOfTwo));
    assert_eq!(encode(&pixel_bytes(&pattern(1024, 400)), Flags::default()).err(), Some(CtexError::TooManyColors));
}

#[test]
fn legacy_encode_payload() {
    let img = pattern(4096, 9);
    let gz = encode_pixels(64, 64, &img).unwrap();
    let mut payload = Vec::new();
    flate2::read::GzDecoder::new(&gz[..]).read_to_end(&mut payload).unwrap();
    assert_eq!(&payload[0..4], &64u32.to_le_bytes());
    assert_eq!(&payload[4..8], &9u32.to_le_bytes());
    assert_eq!(payload.len(), 8 + 4 * 9 + 4096);
    let colors = bytes_to_words(&payload[8..8 + 36]);
    let data = &payload[8 + 36..];
    for (i, p) in img.iter().enumerate() {
        assert_eq!(colors[data[i] as usize], *p);
    }
    assert_eq!(colors[0], img[0]);
    assert_ne!(gz, payload);
}

#[test]
fn legacy_encode_errors() {
    assert_eq!(encode_pixels(64, 32, &pattern(2048, 2)).err(), Some(CtexError::NotSquare));
    assert_eq!(encode_pixels(32, 32, &pattern(1024, 2)).err(), Some(CtexError::BadWidth));
    assert_eq!(encode_pixels(64, 64, &pattern(4096, 256)).err(), Some(CtexError::TooManyColors));
    assert!(encode_pixels(64, 64, &pattern(4096, 255)).is_ok());
}
