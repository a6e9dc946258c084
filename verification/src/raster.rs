//! The image type: a rectangular grid of RGBA pixels stored row-major, with
//! its mathematical model (`ImageModel`) used by every contract.

use vstd::prelude::*;
use crate::pixel::Pixel;

verus! {

/// The mathematical model of an image: dimensions and the row-major pixel
/// sequence.
#[verifier::ext_equal]
pub ghost struct ImageModel {
    pub width: nat,
    pub height: nat,
    pub pixels: Seq<Pixel>,
}

impl ImageModel {
    /// The grid is rectangular: one pixel per coordinate.
    pub open spec fn wf(self) -> bool {
        self.pixels.len() == self.width * self.height
    }

    /// The pixel at column `x`, row `y`.
    pub open spec fn px(self, x: int, y: int) -> Pixel
        recommends
            0 <= x < self.width,
            0 <= y < self.height,
    {
        self.pixels[y * self.width as int + x]
    }
}

/// A decoded image: a `width` x `height` grid of pixels, row-major.
pub struct Image {
    pub width: u32,
    pub height: u32,
    pub pixels: Vec<Pixel>,
}

impl View for Image {
    type V = ImageModel;

    open spec fn view(&self) -> ImageModel {
        ImageModel {
            width: self.width as nat,
            height: self.height as nat,
            pixels: self.pixels@,
        }
    }
}

impl Image {
    /// The stored grid matches the declared dimensions.
    pub open spec fn wf(self) -> bool {
        self@.wf()
    }

    /// Builds a solid image: every pixel is `fill`.
    pub fn solid(width: u32, height: u32, fill: Pixel) -> (r: Image)
        requires
            width * height <= usize::MAX,
        ensures
            r.wf(),
            r@.width == width,
            r@.height == height,
            forall|i: int| 0 <= i < r@.pixels.len() ==> r@.pixels[i] == fill,
    {
        let total: usize = (width as usize) * (height as usize);
        let mut pixels: Vec<Pixel> = Vec::new();
        let mut i: usize = 0;
        while i < total
            invariant
                i <= total,
                pixels@.len() == i,
                forall|j: int| 0 <= j < i ==> pixels@[j] == fill,
            decreases total - i,
        {
            pixels.push(fill);
            i = i + 1;
        }
        Image { width, height, pixels }
    }

    /// Reads the pixel at column `x`, row `y`.
    pub fn get(&self, x: u32, y: u32) -> (r: Pixel)
        requires
            self.wf(),
            x < self@.width,
            y < self@.height,
        ensures
            r == self@.px(x as int, y as int),
    {
        proof {
            lemma_flat_index(self@.width, self@.height, x as int, y as int);
        }
        let n: usize = self.pixels.len();
        let idx: usize = (y as usize) * (self.width as usize) + (x as usize);
        assert(idx < n);
        self.pixels[idx]
    }
}

/// The row-major index of `(x, y)` lies inside a `w` x `h` grid, below
/// `w * h`.
pub proof fn lemma_flat_index(w: nat, h: nat, x: int, y: int)
    requires
        0 <= x < w,
        0 <= y < h,
    ensures
        0 <= y * w + x < w * h,
        (y * w + x) % (w as int) == x,
        (y * w + x) / (w as int) == y,
{
    assert(y * w + x < w * h) by (nonlinear_arith)
        requires 0 <= x < w, 0 <= y < h,
    ;
    assert(0 <= y * w) by (nonlinear_arith)
        requires 0 <= y, 0 <= w,
    ;
    vstd::arithmetic::div_mod::lemma_fundamental_div_mod_converse_mod(
        y * w + x, w as int, y, x);
    vstd::arithmetic::div_mod::lemma_fundamental_div_mod_converse_div(
        y * w + x, w as int, y, x);
}

} // verus!
