//! The compositor: places the watermark at the bottom-right of the base
//! image (with a margin, collapsing to the edge when the watermark does not
//! fit) and blends every covered pixel, copying every other pixel unchanged.

use vstd::prelude::*;
use crate::pixel::{blend_pixel, blend_pixel_spec, Opacity, Pixel};
use crate::raster::{lemma_flat_index, Image, ImageModel};
use vstd::arithmetic::mul::lemma_mul_is_commutative;

verus! {

/// One axis of the placement anchor: `base - wm - margin`, saturating at 0
/// when the watermark plus margin does not fit.
pub open spec fn anchor_coord(base: int, wm: int, margin: int) -> int {
    if base > wm + margin {
        base - wm - margin
    } else {
        0
    }
}

/// `(x, y)` lies inside the rectangle anchored at `(ax, ay)` with extent
/// `w` x `h`.
pub open spec fn in_rect(x: int, y: int, ax: int, ay: int, w: int, h: int) -> bool {
    ax <= x < ax + w && ay <= y < ay + h
}

/// One axis of the watermark anchor, saturating at 0.
fn anchor_1d(base: u32, wm: u32, margin: u32) -> (r: u32)
    ensures
        r == anchor_coord(base as int, wm as int, margin as int),
{
    let need: u64 = wm as u64 + margin as u64;
    if (base as u64) > need {
        (base as u64 - need) as u32
    } else {
        0
    }
}

/// Computes the watermark's top-left anchor inside the base image:
/// bottom-right alignment at `margin` pixels from the edge, collapsing to 0
/// on an axis where the watermark plus margin exceeds the base.
pub fn compute_position(
    base_width: u32,
    base_height: u32,
    wm_width: u32,
    wm_height: u32,
    margin: u32,
) -> (r: (u32, u32))
    ensures
        r.0 == anchor_coord(base_width as int, wm_width as int, margin as int),
        r.1 == anchor_coord(base_height as int, wm_height as int, margin as int),
{
    (anchor_1d(base_width, wm_width, margin), anchor_1d(base_height, wm_height, margin))
}

/// Law: on an axis where the watermark plus margin is at least as large as
/// the base, the anchor is exactly 0 — never negative, never wrapped.
pub proof fn lemma_oversized_anchor_is_zero(base: int, wm: int, margin: int)
    requires
        wm + margin >= base,
    ensures
        anchor_coord(base, wm, margin) == 0,
{
}

/// The output pixel at `(x, y)`: the blend of the base and watermark pixels
/// where the placed watermark rectangle covers `(x, y)`, the base pixel
/// unchanged everywhere else.
pub open spec fn composite_px(
    base: ImageModel,
    wm: ImageModel,
    op: Opacity,
    margin: u32,
    x: int,
    y: int,
) -> Pixel
    recommends
        base.wf(),
        wm.wf(),
        op.valid(),
        0 <= x < base.width,
        0 <= y < base.height,
{
    let ax = anchor_coord(base.width as int, wm.width as int, margin as int);
    let ay = anchor_coord(base.height as int, wm.height as int, margin as int);
    if in_rect(x, y, ax, ay, wm.width as int, wm.height as int) {
        blend_pixel_spec(base.px(x, y), wm.px(x - ax, y - ay), op)
    } else {
        base.px(x, y)
    }
}

/// The whole composited image: same dimensions as the base, each pixel given
/// by `composite_px`.
pub open spec fn composite_model(
    base: ImageModel,
    wm: ImageModel,
    op: Opacity,
    margin: u32,
) -> ImageModel
    recommends
        base.wf(),
        wm.wf(),
        op.valid(),
{
    ImageModel {
        width: base.width,
        height: base.height,
        pixels: Seq::new(
            base.width * base.height,
            |i: int|
                composite_px(
                    base,
                    wm,
                    op,
                    margin,
                    i % base.width as int,
                    i / base.width as int,
                ),
        ),
    }
}

/// Law: a pixel strictly outside the placed watermark rectangle is identical
/// to the corresponding base pixel — the watermark never bleeds.
pub proof fn lemma_outside_rect_unchanged(
    base: ImageModel,
    wm: ImageModel,
    op: Opacity,
    margin: u32,
    x: int,
    y: int,
)
    requires
        0 <= x < base.width,
        0 <= y < base.height,
        !in_rect(
            x,
            y,
            anchor_coord(base.width as int, wm.width as int, margin as int),
            anchor_coord(base.height as int, wm.height as int, margin as int),
            wm.width as int,
            wm.height as int,
        ),
    ensures
        composite_px(base, wm, op, margin, x, y) == base.px(x, y),
{
}

/// Overlays `watermark` onto `base`: every pixel inside the placed rectangle
/// is blended under the watermark's alpha scaled by `opacity`, every pixel
/// outside it is copied unchanged, and the output has the base's dimensions.
pub fn apply_watermark(base: &Image, watermark: &Image, opacity: Opacity, margin: u32) -> (out:
    Image)
    requires
        base.wf(),
        watermark.wf(),
        opacity.valid(),
    ensures
        out.wf(),
        out@.width == base@.width,
        out@.height == base@.height,
        out@ == composite_model(base@, watermark@, opacity, margin),
        forall|x: int, y: int|
            0 <= x < base@.width && 0 <= y < base@.height ==> out@.px(x, y) == composite_px(
                base@,
                watermark@,
                opacity,
                margin,
                x,
                y,
            ),
{
    let bw = base.width;
    let bh = base.height;
    let (ax, ay) = compute_position(bw, bh, watermark.width, watermark.height, margin);
    let ww = watermark.width;
    let wh = watermark.height;
    let mut pixels: Vec<Pixel> = Vec::new();
    let mut y: u32 = 0;
    while y < bh
        invariant
            base.wf(),
            watermark.wf(),
            opacity.valid(),
            bw == base@.width,
            bh == base@.height,
            ww == watermark@.width,
            wh == watermark@.height,
            ax == anchor_coord(bw as int, ww as int, margin as int),
            ay == anchor_coord(bh as int, wh as int, margin as int),
            y <= bh,
            pixels@.len() == y * bw,
            forall|k: int|
                0 <= k < pixels@.len() ==> pixels@[k] == composite_px(
                    base@,
                    watermark@,
                    opacity,
                    margin,
                    k % bw as int,
                    k / bw as int,
                ),
        decreases bh - y,
    {
        let mut x: u32 = 0;
        while x < bw
            invariant
                base.wf(),
                watermark.wf(),
                opacity.valid(),
                bw == base@.width,
                bh == base@.height,
                ww == watermark@.width,
                wh == watermark@.height,
                ax == anchor_coord(bw as int, ww as int, margin as int),
                ay == anchor_coord(bh as int, wh as int, margin as int),
                y < bh,
                x <= bw,
                pixels@.len() == y * bw + x,
                forall|k: int|
                    0 <= k < pixels@.len() ==> pixels@[k] == composite_px(
                        base@,
                        watermark@,
                        opacity,
                        margin,
                        k % bw as int,
                        k / bw as int,
                    ),
            decreases bw - x,
        {
            let inside = x >= ax && (x as u64) < (ax as u64) + (ww as u64) && y >= ay && (
            y as u64) < (ay as u64) + (wh as u64);
            let p = if inside {
                blend_pixel(base.get(x, y), watermark.get(x - ax, y - ay), opacity)
            } else {
                base.get(x, y)
            };
            proof {
                lemma_flat_index(bw as nat, bh as nat, x as int, y as int);
            }
            pixels.push(p);
            x = x + 1;
        }
        proof {
            assert((y as int + 1) * (bw as int) == y as int * (bw as int) + bw as int)
                by (nonlinear_arith);
        }
        y = y + 1;
    }
    proof {
        lemma_mul_is_commutative(bh as int, bw as int);
    }
    let out = Image { width: bw, height: bh, pixels };
    proof {
        assert(out@.pixels =~= composite_model(base@, watermark@, opacity, margin).pixels);
        assert(out@ =~= composite_model(base@, watermark@, opacity, margin));
        assert forall|x: int, y: int|
            0 <= x < base@.width && 0 <= y < base@.height implies out@.px(x, y) == composite_px(
            base@,
            watermark@,
            opacity,
            margin,
            x,
            y,
        ) by {
            lemma_flat_index(bw as nat, bh as nat, x, y);
        }
    }
    out
}

} // verus!
