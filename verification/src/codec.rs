//! Image codecs: decoding raw bytes into a pixel grid and encoding a pixel
//! grid back to PNG bytes. The codecs themselves are the `image` crate's,
//! reached through trusted wrappers; the conversion between the flat RGBA
//! byte buffer and the pixel grid is verified here.

use vstd::prelude::*;
use vstd::arithmetic::div_mod::{
    lemma_div_multiples_vanish, lemma_fundamental_div_mod_converse_div,
    lemma_fundamental_div_mod_converse_mod,
};
use crate::pixel::Pixel;
use crate::raster::{Image, ImageModel};

verus! {

/// What the `image` crate decodes the given bytes to, as an RGBA8 buffer:
/// `None` when the bytes are not a parseable image, else the dimensions and
/// the flat row-major RGBA bytes. A function of the bytes alone.
pub uninterp spec fn decoded_raw(bytes: Seq<u8>) -> Option<(u32, u32, Seq<u8>)>;

/// What the `image` crate encodes a `width` x `height` RGBA8 buffer to in
/// PNG format: `None` when encoding fails. A function of the arguments
/// alone.
pub uninterp spec fn png_of(width: u32, height: u32, raw: Seq<u8>) -> Option<Seq<u8>>;

/// The pixel grid held in a flat RGBA byte buffer: four consecutive bytes
/// per pixel, in channel order red, green, blue, alpha.
pub open spec fn pixels_of_raw(raw: Seq<u8>) -> Seq<Pixel> {
    Seq::new(
        (raw.len() / 4) as nat,
        |i: int|
            Pixel { r: raw[4 * i], g: raw[4 * i + 1], b: raw[4 * i + 2], a: raw[4 * i + 3] },
    )
}

/// The flat RGBA byte buffer holding a pixel grid: the inverse of
/// `pixels_of_raw` for well-formed buffers.
pub open spec fn raw_of_pixels(px: Seq<Pixel>) -> Seq<u8> {
    Seq::new(
        (4 * px.len()) as nat,
        |i: int|
            {
                let p = px[i / 4];
                let c = i % 4;
                if c == 0 {
                    p.r
                } else if c == 1 {
                    p.g
                } else if c == 2 {
                    p.b
                } else {
                    p.a
                }
            },
    )
}

/// What the given bytes decode to as an image of this library: the `image`
/// crate's RGBA8 result read as a pixel grid.
pub open spec fn decoded(bytes: Seq<u8>) -> Option<ImageModel> {
    match decoded_raw(bytes) {
        Some((w, h, raw)) => Some(
            ImageModel { width: w as nat, height: h as nat, pixels: pixels_of_raw(raw) },
        ),
        None => None,
    }
}

/// What an image of this library encodes to as PNG bytes.
pub open spec fn png_encoding(img: ImageModel) -> Option<Seq<u8>>
    recommends
        img.wf(),
        img.width <= u32::MAX,
        img.height <= u32::MAX,
{
    png_of(img.width as u32, img.height as u32, raw_of_pixels(img.pixels))
}

/// Relies on `image::load_from_memory` to parse the bytes, and on
/// `DynamicImage::to_rgba8` / `ImageBuffer::into_raw` to hand the result out
/// as a flat RGBA8 buffer of exactly `4 * width * height` bytes.
#[verifier::external_body]
fn decode_rgba_raw(bytes: &Vec<u8>) -> (r: Option<(u32, u32, Vec<u8>)>)
    ensures
        match r {
            Some(t) => decoded_raw(bytes@) == Some((t.0, t.1, t.2@)) && t.2@.len() == 4 * t.0
                * t.1,
            None => decoded_raw(bytes@) is None,
        },
{
    match image::load_from_memory(bytes.as_slice()) {
        Ok(img) => {
            let rgba = img.to_rgba8();
            let (w, h) = rgba.dimensions();
            Some((w, h, rgba.into_raw()))
        },
        Err(_) => None,
    }
}

/// Relies on `image::DynamicImage::write_to` with `ImageFormat::Png` (and on
/// `RgbaImage::from_raw`, which accepts a buffer of exactly
/// `4 * width * height` bytes) to encode the buffer as PNG.
#[verifier::external_body]
fn png_encode_raw(width: u32, height: u32, raw: Vec<u8>) -> (r: Option<Vec<u8>>)
    requires
        raw@.len() == 4 * width * height,
    ensures
        match r {
            Some(v) => png_of(width, height, raw@) == Some(v@),
            None => png_of(width, height, raw@) is None,
        },
{
    let buf = match image::RgbaImage::from_raw(width, height, raw) {
        Some(b) => b,
        None => {
            return None;
        },
    };
    let mut out = std::io::Cursor::new(Vec::new());
    match image::DynamicImage::ImageRgba8(buf).write_to(&mut out, image::ImageFormat::Png) {
        Ok(()) => Some(out.into_inner()),
        Err(_) => None,
    }
}

/// Reads a flat RGBA byte buffer into a pixel vector, four bytes per pixel.
fn pixels_from_raw(raw: &Vec<u8>) -> (r: Vec<Pixel>)
    ensures
        r@ == pixels_of_raw(raw@),
{
    let total: usize = raw.len() / 4;
    let mut out: Vec<Pixel> = Vec::new();
    let mut k: usize = 0;
    while k < total
        invariant
            raw@.len() <= usize::MAX,
            total == raw@.len() / 4,
            k <= total,
            out@.len() == k,
            forall|j: int| 0 <= j < k ==> out@[j] == pixels_of_raw(raw@)[j],
        decreases total - k,
    {
        proof {
            vstd::arithmetic::div_mod::lemma_fundamental_div_mod(raw@.len() as int, 4);
            vstd::arithmetic::mul::lemma_mul_inequality(k as int + 1, raw@.len() as int / 4, 4);
        }
        let p = Pixel {
            r: raw[4 * k],
            g: raw[4 * k + 1],
            b: raw[4 * k + 2],
            a: raw[4 * k + 3],
        };
        out.push(p);
        k = k + 1;
    }
    proof {
        assert(out@ =~= pixels_of_raw(raw@));
    }
    out
}

/// Writes a pixel vector out as a flat RGBA byte buffer, four bytes per
/// pixel.
fn raw_from_pixels(px: &Vec<Pixel>) -> (r: Vec<u8>)
    requires
        4 * px@.len() <= usize::MAX,
    ensures
        r@ == raw_of_pixels(px@),
{
    let mut out: Vec<u8> = Vec::new();
    let mut k: usize = 0;
    while k < px.len()
        invariant
            4 * px@.len() <= usize::MAX,
            k <= px@.len(),
            out@.len() == 4 * k,
            forall|j: int| 0 <= j < out@.len() ==> out@[j] == raw_of_pixels(px@)[j],
        decreases px@.len() - k,
    {
        let p = px[k];
        proof {
            let base = 4 * (k as int);
            lemma_fundamental_div_mod_converse_div(base, 4, k as int, 0);
            lemma_fundamental_div_mod_converse_mod(base, 4, k as int, 0);
            lemma_fundamental_div_mod_converse_div(base + 1, 4, k as int, 1);
            lemma_fundamental_div_mod_converse_mod(base + 1, 4, k as int, 1);
            lemma_fundamental_div_mod_converse_div(base + 2, 4, k as int, 2);
            lemma_fundamental_div_mod_converse_mod(base + 2, 4, k as int, 2);
            lemma_fundamental_div_mod_converse_div(base + 3, 4, k as int, 3);
            lemma_fundamental_div_mod_converse_mod(base + 3, 4, k as int, 3);
        }
        out.push(p.r);
        out.push(p.g);
        out.push(p.b);
        out.push(p.a);
        k = k + 1;
    }
    proof {
        assert(out@ =~= raw_of_pixels(px@));
    }
    out
}

/// Decodes image bytes into an `Image`: returns the decoded pixel grid, or
/// `None` exactly when the `image` crate cannot parse the bytes.
pub fn decode_image(bytes: &Vec<u8>) -> (r: Option<Image>)
    ensures
        match r {
            Some(img) => img.wf() && decoded(bytes@) == Some(img@) && 4 * img@.width
                * img@.height <= usize::MAX,
            None => decoded(bytes@) is None,
        },
{
    match decode_rgba_raw(bytes) {
        Some((w, h, raw)) => {
            let nbytes: usize = raw.len();
            let pixels = pixels_from_raw(&raw);
            proof {
                assert(4 * w * h == nbytes <= usize::MAX);
                lemma_div_multiples_vanish((w as int) * (h as int), 4);
                assert(4 * ((w as int) * (h as int)) == 4 * w * h) by (nonlinear_arith);
            }
            let img = Image { width: w, height: h, pixels };
            proof {
                assert(img@ =~= decoded(bytes@)->Some_0);
            }
            Some(img)
        },
        None => None,
    }
}

/// Encodes an `Image` as PNG bytes: returns the encoding, or `None` exactly
/// when the `image` crate cannot encode the grid.
pub fn encode_png(img: &Image) -> (r: Option<Vec<u8>>)
    requires
        img.wf(),
        4 * img@.width * img@.height <= usize::MAX,
    ensures
        match r {
            Some(v) => png_encoding(img@) == Some(v@),
            None => png_encoding(img@) is None,
        },
{
    proof {
        assert(4 * (img@.width * img@.height) == 4 * img@.width * img@.height)
            by (nonlinear_arith);
    }
    let raw = raw_from_pixels(&img.pixels);
    png_encode_raw(img.width, img.height, raw)
}

} // verus!
