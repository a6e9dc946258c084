use watermark::compose::{apply_watermark, compute_position};
use watermark::pixel::{Opacity, Pixel};
use watermark::raster::Image;

const RED: Pixel = Pixel { r: 255, g: 0, b: 0, a: 255 };
const BLUE: Pixel = Pixel { r: 0, g: 0, b: 255, a: 255 };
const WHITE: Pixel = Pixel { r: 255, g: 255, b: 255, a: 255 };

#[test]
fn position_bottom_right_with_margin() {
    assert_eq!(compute_position(100, 100, 20, 20, 10), (70, 70));
    assert_eq!(compute_position(100, 80, 30, 20, 0), (70, 60));
}

#[test]
fn oversized_watermark_anchors_at_zero() {
    // Larger than the base on one axis.
    assert_eq!(compute_position(100, 100, 200, 50, 0), (0, 50));
    // Larger on both axes.
    assert_eq!(compute_position(10, 10, 200, 200, 0), (0, 0));
    // Exactly filling: base - wm - margin == 0 collapses to 0 too.
    assert_eq!(compute_position(100, 100, 90, 90, 10), (0, 0));
    // A huge margin never wraps or goes negative.
    assert_eq!(compute_position(100, 100, 20, 20, u32::MAX), (0, 0));
}

#[test]
fn output_dimensions_equal_base() {
    let base = Image::solid(33, 21, RED);
    let small = Image::solid(5, 4, BLUE);
    let large = Image::solid(100, 100, BLUE);
    let a = apply_watermark(&base, &small, Opacity::opaque(), 3);
    assert_eq!((a.width, a.height), (33, 21));
    let b = apply_watermark(&base, &large, Opacity::opaque(), 3);
    assert_eq!((b.width, b.height), (33, 21));
}

#[test]
fn pixels_outside_rectangle_are_untouched() {
    let base = Image::solid(50, 40, WHITE);
    let wm = Image::solid(10, 10, BLUE);
    let out = apply_watermark(&base, &wm, Opacity { num: 1, den: 2 }, 5);
    // Anchor is (50-10-5, 40-10-5) = (35, 25); rectangle spans 35..45 x 25..35.
    for y in 0..40u32 {
        for x in 0..50u32 {
            let inside = x >= 35 && x < 45 && y >= 25 && y < 35;
            if !inside {
                assert_eq!(out.get(x, y), base.get(x, y));
            }
        }
    }
}

#[test]
fn opaque_blue_block_on_red_base() {
    // 100 x 100 opaque red base, 20 x 20 fully opaque blue watermark,
    // opacity 1, margin 10: pure blue exactly on (70,70)..(89,89).
    let base = Image::solid(100, 100, RED);
    let wm = Image::solid(20, 20, BLUE);
    let out = apply_watermark(&base, &wm, Opacity::opaque(), 10);
    assert_eq!((out.width, out.height), (100, 100));
    for y in 0..100u32 {
        for x in 0..100u32 {
            let inside = x >= 70 && x <= 89 && y >= 70 && y <= 89;
            let px = out.get(x, y);
            if inside {
                assert_eq!(px, BLUE);
            } else {
                assert_eq!(px, RED);
            }
        }
    }
}
