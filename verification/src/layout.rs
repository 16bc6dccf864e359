//! Where each pixel's index byte sits inside its sector.
//!
//! A sector holds 64 pixels. Read as sixteen 4-byte words, byte `b` of word
//! `q` holds pixel `16 * b + q` of the sector, so masking byte `b` out of all
//! sixteen words yields sixteen consecutive pixels.
use vstd::prelude::*;

verus! {

/// The pixel whose index is stored at offset slot `t`.
pub open spec fn slot_pixel(t: int) -> int {
    64 * (t / 64) + (t % 64) / 4 + 16 * (t % 4)
}

/// The offset slot that stores the index of pixel `p`.
pub open spec fn pixel_slot(p: int) -> int {
    64 * (p / 64) + 4 * (p % 16) + (p % 64) / 16
}

/// The two maps are inverse permutations of each sector.
pub proof fn lemma_layout_inverse(x: int)
    requires
        0 <= x,
    ensures
        slot_pixel(pixel_slot(x)) == x,
        pixel_slot(slot_pixel(x)) == x,
        pixel_slot(x) / 64 == x / 64,
        slot_pixel(x) / 64 == x / 64,
        0 <= pixel_slot(x),
        0 <= slot_pixel(x),
{
    let a = x / 64;
    let r = x % 64;
    assert(x == 64 * a + r && 0 <= r < 64) by (nonlinear_arith)
        requires
            a == x / 64,
            r == x % 64,
            0 <= x,
    ;
    assert(r % 16 == x % 16 && r / 16 == (x % 64) / 16 && r % 4 == x % 4) by (nonlinear_arith)
        requires
            x == 64 * a + r,
            0 <= r < 64,
            r == x % 64,
    ;
    let b = r / 16;
    let q = r % 16;
    assert(r == 16 * b + q && 0 <= b < 4 && 0 <= q < 16) by (nonlinear_arith)
        requires
            b == r / 16,
            q == r % 16,
            0 <= r < 64,
    ;
    let t = 64 * a + 4 * q + b;
    assert(pixel_slot(x) == t);
    assert(t / 64 == a && t % 64 == 4 * q + b && t % 4 == b && (4 * q + b) / 4 == q)
        by (nonlinear_arith)
        requires
            t == 64 * a + 4 * q + b,
            0 <= b < 4,
            0 <= q < 16,
    ;
    assert(slot_pixel(t) == x);
    let c = r / 4;
    let d = r % 4;
    assert(r == 4 * c + d && 0 <= c < 16 && 0 <= d < 4) by (nonlinear_arith)
        requires
            c == r / 4,
            d == r % 4,
            0 <= r < 64,
    ;
    let p = 64 * a + c + 16 * d;
    assert(slot_pixel(x) == p);
    assert(p / 64 == a && p % 16 == c && (p % 64) / 16 == d) by (nonlinear_arith)
        requires
            p == 64 * a + c + 16 * d,
            0 <= c < 16,
            0 <= d < 4,
    ;
    assert(pixel_slot(p) == x);
}

/// Both maps keep an index below any multiple of the sector size above it.
pub proof fn lemma_layout_bound(x: int, n: int)
    requires
        0 <= x < n,
        n % 64 == 0,
    ensures
        pixel_slot(x) < n,
        slot_pixel(x) < n,
{
    lemma_layout_inverse(x);
    assert(x / 64 < n / 64) by (nonlinear_arith)
        requires
            0 <= x < n,
            n % 64 == 0,
    ;
    let y = pixel_slot(x);
    let z = slot_pixel(x);
    assert(y < n && z < n) by (nonlinear_arith)
        requires
            y / 64 == x / 64,
            z / 64 == x / 64,
            x / 64 < n / 64,
            n % 64 == 0,
            0 <= y,
            0 <= z,
    ;
}

} // verus!
