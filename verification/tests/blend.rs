use watermark::pixel::{blend_channel, blend_pixel, Opacity, Pixel};

#[test]
fn alpha_zero_returns_base() {
    for b in [0u8, 1, 17, 128, 254, 255] {
        for w in [0u8, 3, 200, 255] {
            assert_eq!(blend_channel(b, w, 0, 255), b);
            assert_eq!(blend_channel(b, w, 0, 1000), b);
        }
    }
}

#[test]
fn alpha_one_returns_watermark() {
    for b in [0u8, 1, 17, 128, 254, 255] {
        for w in [0u8, 3, 200, 255] {
            assert_eq!(blend_channel(b, w, 255, 255), w);
            assert_eq!(blend_channel(b, w, 1000, 1000), w);
        }
    }
}

#[test]
fn blend_truncates_toward_zero() {
    // (0 * 2 + 1 * 1) / 3 = 0 remainder 1
    assert_eq!(blend_channel(0, 1, 1, 3), 0);
    // (10 * 3 + 20 * 1) / 4 = 50 / 4 = 12 remainder 2
    assert_eq!(blend_channel(10, 20, 1, 4), 12);
    // (100 * 1 + 200 * 1) / 2 = 150 exactly
    assert_eq!(blend_channel(100, 200, 1, 2), 150);
}

#[test]
fn blend_pixel_full_opacity_opaque_watermark() {
    let base = Pixel { r: 10, g: 20, b: 30, a: 40 };
    let wm = Pixel { r: 200, g: 210, b: 220, a: 255 };
    let out = blend_pixel(base, wm, Opacity::opaque());
    assert_eq!(out, Pixel { r: 200, g: 210, b: 220, a: 255 });
}

#[test]
fn blend_pixel_zero_opacity_keeps_base_colors() {
    let base = Pixel { r: 10, g: 20, b: 30, a: 40 };
    let wm = Pixel { r: 200, g: 210, b: 220, a: 255 };
    let out = blend_pixel(base, wm, Opacity { num: 0, den: 1 });
    // Colors stay, but the output alpha is forced to fully opaque.
    assert_eq!(out, Pixel { r: 10, g: 20, b: 30, a: 255 });
}

#[test]
fn half_alpha_watermark_on_white() {
    // Watermark alpha 128 at full opacity: alpha fraction is 128/255, so a
    // channel blends to (255 * 127 + w * 128) / 255, about
    // round(255 * 0.5 + w * 0.5).
    for w in [0u8, 64, 128, 200, 255] {
        let base = Pixel { r: 255, g: 255, b: 255, a: 255 };
        let wm = Pixel { r: w, g: w, b: w, a: 128 };
        let out = blend_pixel(base, wm, Opacity::opaque());
        let exact = ((255u32 * 127 + w as u32 * 128) / 255) as u8;
        assert_eq!(out.r, exact);
        let approx = (255.0f64 * 0.5 + w as f64 * 0.5).round();
        assert!((out.r as f64 - approx).abs() <= 1.0);
        assert_eq!(out.a, 255);
    }
}
