//! Level shift, clamping and the YCbCr to RGB conversion, in fixed point.
use vstd::prelude::*;

use crate::dct::{idct, idct_spec};

verus! {

/// `x` clamped to 0..=255.
pub open spec fn clamp_u8(x: int) -> u8 {
    if x < 0 {
        0
    } else if x > 255 {
        255
    } else {
        x as u8
    }
}

/// Clamps `x` to 0..=255.
pub fn clamp(x: i64) -> (r: u8)
    ensures
        r == clamp_u8(x as int),
{
    if x < 0 {
        0
    } else if x > 255 {
        255
    } else {
        x as u8
    }
}

/// The sample for a transform output: shifted up by 128 and clamped.
pub fn level_shift(v: i64) -> (r: u8)
    requires
        v < 0x7fff_ffff_ffff_0000,
    ensures
        r == clamp_u8(v + 128),
{
    clamp(v + 128)
}

/// `x * f / 2^16` rounded to nearest, for the fixed-point colour factors.
pub open spec fn scaled(x: int) -> int {
    (x + 32768) / 65536
}

/// Red: Y + 1.402 (Cr - 128), with the factor scaled by 2^16.
pub open spec fn red(y: int, cb: int, cr: int) -> u8 {
    clamp_u8(y + scaled(91881 * (cr - 128)))
}

/// Green: Y - 0.34414 (Cb - 128) - 0.71414 (Cr - 128), with the factors scaled by 2^16.
pub open spec fn green(y: int, cb: int, cr: int) -> u8 {
    clamp_u8(y + scaled(-22554 * (cb - 128) - 46802 * (cr - 128)))
}

/// Blue: Y + 1.772 (Cb - 128), with the factor scaled by 2^16.
pub open spec fn blue(y: int, cb: int, cr: int) -> u8 {
    clamp_u8(y + scaled(116130 * (cb - 128)))
}

/// Divides by 2^16, rounding to nearest.
fn scale_down(x: i64) -> (r: i64)
    requires
        -0x1_0000_0000 <= x <= 0x1_0000_0000,
    ensures
        r == scaled(x as int),
        -0x1_0000 <= r <= 0x1_0000,
{
    let t: i64 = x + 32768;
    proof {
        assert((t >> 16u64) as int == t as int / 65536) by (bit_vector)
            requires
                -0x2_0000_0000 <= t <= 0x2_0000_0000,
        ;
    }
    t >> 16u64
}

/// Converts one pixel from YCbCr to RGB.
pub fn ycbcr_to_rgb(y: u8, cb: u8, cr: u8) -> (r: [u8; 3])
    ensures
        r@ == seq![
            red(y as int, cb as int, cr as int),
            green(y as int, cb as int, cr as int),
            blue(y as int, cb as int, cr as int),
        ],
{
    let yy = y as i64;
    let cbb = cb as i64 - 128;
    let crr = cr as i64 - 128;
    let r = clamp(yy + scale_down(91881 * crr));
    let g = clamp(yy + scale_down(0 - 22554 * cbb - 46802 * crr));
    let b = clamp(yy + scale_down(116130 * cbb));
    assert(0 - 22554 * cbb - 46802 * crr == -22554 * (cb as int - 128) - 46802 * (cr as int - 128));
    let px: [u8; 3] = [r, g, b];
    assert(px@ =~= seq![
        red(y as int, cb as int, cr as int),
        green(y as int, cb as int, cr as int),
        blue(y as int, cb as int, cr as int),
    ]);
    px
}

/// The samples of a block of dequantized coefficients (natural order): the inverse transform,
/// level shift and clamp.
pub open spec fn samples_spec(coeffs: Seq<i32>) -> Seq<u8> {
    Seq::new(64, |i: int| clamp_u8(idct_spec(coeffs)[i] + 128))
}

/// Computes the samples of a block of dequantized coefficients in natural order.
pub fn block_samples(coeffs: &[i32; 64]) -> (r: [u8; 64])
    ensures
        r@ == samples_spec(coeffs@),
{
    let mut out: [i64; 64] = [0; 64];
    idct(coeffs, &mut out);
    let mut samples: [u8; 64] = [0; 64];
    let mut i: usize = 0;
    while i < 64
        invariant
            i <= 64,
            out@ == idct_spec(coeffs@),
            crate::dct::bounded(out@, 0x20_0000_0000int),
            samples@.len() == 64,
            forall|k: int| 0 <= k < i ==> #[trigger] samples@[k] == clamp_u8(out@[k] + 128),
        decreases 64 - i,
    {
        samples[i] = level_shift(out[i]);
        i = i + 1;
    }
    assert(samples@ =~= samples_spec(coeffs@));
    samples
}

} // verus!
