//! The pixel blender: linear alpha compositing of 8-bit channels, with the
//! alpha weight given as an exact integer fraction and the result truncated
//! (floor division), so `blend(b, w, a) == floor(b * (1 - a) + w * a)`.

use vstd::prelude::*;
use vstd::arithmetic::div_mod::{lemma_div_is_ordered, lemma_div_multiples_vanish};
use vstd::arithmetic::mul::lemma_mul_inequality;

verus! {

/// One RGBA pixel: four 8-bit channels.
#[derive(Clone, Copy, PartialEq, Eq, Structural, Debug)]
pub struct Pixel {
    pub r: u8,
    pub g: u8,
    pub b: u8,
    pub a: u8,
}

/// A watermark opacity factor in `[0, 1]`, held as the exact fraction
/// `num / den`.
#[derive(Clone, Copy, PartialEq, Eq, Structural, Debug)]
pub struct Opacity {
    pub num: u32,
    pub den: u32,
}

impl Opacity {
    /// The fraction is well formed and lies in `[0, 1]`.
    pub open spec fn valid(self) -> bool {
        0 < self.den && self.num <= self.den
    }

    /// Fully opaque: factor 1.
    pub fn opaque() -> (r: Opacity)
        ensures
            r.valid(),
            r.num == r.den,
    {
        Opacity { num: 1, den: 1 }
    }
}

/// The blended value of one channel: `floor((b * (den - num) + w * num) / den)`,
/// which is `b * (1 - a) + w * a` for `a = num / den`, truncated.
pub open spec fn blend_channel_spec(b: u8, w: u8, num: int, den: int) -> int
    recommends
        0 < den,
        0 <= num <= den,
{
    (b * (den - num) + w * num) / den
}

/// Blends one 8-bit channel of the base with the watermark under the alpha
/// fraction `alpha_num / alpha_den`.
pub fn blend_channel(b: u8, w: u8, alpha_num: u64, alpha_den: u64) -> (r: u8)
    requires
        0 < alpha_den <= 0x0080_0000_0000_0000,
        alpha_num <= alpha_den,
    ensures
        r as int == blend_channel_spec(b, w, alpha_num as int, alpha_den as int),
{
    proof {
        lemma_mul_inequality(b as int, 255, (alpha_den - alpha_num) as int);
        lemma_mul_inequality(w as int, 255, alpha_num as int);
    }
    let s: u64 = (b as u64) * (alpha_den - alpha_num) + (w as u64) * alpha_num;
    proof {
        lemma_div_is_ordered(s as int, 255 * (alpha_den as int), alpha_den as int);
        lemma_div_multiples_vanish(255, alpha_den as int);
    }
    (s / alpha_den) as u8
}

/// The blended pixel: each color channel blended under
/// `alpha = watermark_alpha * opacity / 255`, the alpha channel forced to
/// fully opaque.
pub open spec fn blend_pixel_spec(bp: Pixel, wp: Pixel, op: Opacity) -> Pixel
    recommends
        op.valid(),
{
    let num = wp.a * op.num;
    let den = 255 * op.den;
    Pixel {
        r: blend_channel_spec(bp.r, wp.r, num, den) as u8,
        g: blend_channel_spec(bp.g, wp.g, num, den) as u8,
        b: blend_channel_spec(bp.b, wp.b, num, den) as u8,
        a: 255,
    }
}

/// Blends a base pixel with a watermark pixel: the watermark's own alpha
/// channel scaled by the opacity factor weighs each color channel, and the
/// output is fully opaque.
pub fn blend_pixel(bp: Pixel, wp: Pixel, op: Opacity) -> (r: Pixel)
    requires
        op.valid(),
    ensures
        r == blend_pixel_spec(bp, wp, op),
{
    proof {
        lemma_mul_inequality(wp.a as int, 255, op.num as int);
        lemma_mul_inequality(op.num as int, op.den as int, 255);
    }
    let num: u64 = (wp.a as u64) * (op.num as u64);
    let den: u64 = 255u64 * (op.den as u64);
    Pixel {
        r: blend_channel(bp.r, wp.r, num, den),
        g: blend_channel(bp.g, wp.g, num, den),
        b: blend_channel(bp.b, wp.b, num, den),
        a: 255,
    }
}

/// Law: blending with alpha 0 returns the base channel unchanged, and
/// blending with alpha 1 (numerator equal to the denominator) returns the
/// watermark channel unchanged.
pub proof fn lemma_blend_channel_identities(b: u8, w: u8, den: int)
    requires
        0 < den,
    ensures
        blend_channel_spec(b, w, 0, den) == b,
        blend_channel_spec(b, w, den, den) == w,
{
    lemma_div_multiples_vanish(b as int, den);
    lemma_div_multiples_vanish(w as int, den);
    assert(b * (den - 0) + w * 0 == den * b) by (nonlinear_arith);
    assert(b * (den - den) + w * den == den * w) by (nonlinear_arith);
}

} // verus!
