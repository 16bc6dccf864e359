# ctex

A palette image format laid out for SIMD decoding, with its encoder and
decoder verified in Verus.

An image of `w` pixels (a power of two) is cut into sectors of 64 pixels.
Each pixel is stored as one byte indexing a colour table of at most 256
colours. Inside a sector, byte `b` of 32-bit word `q` holds pixel `16 * b + q`,
so one vector load, a mask and a shift give sixteen consecutive pixels.

A file is an 8-byte header (version, compression, table size, image side as
two little-endian bytes, three reserved bytes), the colour table as
little-endian words, and the offsets, optionally LZ4-compressed.

Layout:

- `src/` — the verified library
  - `flags.rs` header fields and their byte encoding
  - `layout.rs` the in-sector permutation and its inverse
  - `encode.rs` colour table and offsets of an image
  - `decode.rs` pixels from a table and offsets (portable and lane-width variants)
  - `encoding.rs` images to file bytes, with optional LZ4 compression
  - `container.rs` file bytes back to pixels
  - `roundtrip.rs` decoding what was encoded gives the image back
  - `legacy.rs` the earlier gzip-framed palette format
  - `words.rs` words and their little-endian bytes
  - `ext.rs` the calls into `lz4_flex`, `flate2` and `num-integer`
- `app/` — the command-line tool and the file, image and thread plumbing
- `tests/` — tests run against the compiled library
