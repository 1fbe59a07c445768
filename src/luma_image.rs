use vstd::prelude::*;

verus! {

/// An 8-bit grayscale image, its pixels stored row by row.
#[derive(Debug)]
pub struct LumaImage {
    pub width: u32,
    pub height: u32,
    pub pixels: Vec<u8>,
}

impl LumaImage {
    pub open spec fn wf(&self) -> bool {
        self.pixels@.len() == self.width * self.height
    }

    /// The pixel in column `x` of row `y`.
    pub open spec fn pixel_at(&self, x: int, y: int) -> u8 {
        self.pixels@[y * self.width + x]
    }
}

/// `v` clamped into `0 .. n`.
pub open spec fn clamp(v: int, n: int) -> int {
    if v < 0 {
        0
    } else if v > n - 1 {
        n - 1
    } else {
        v
    }
}

/// The index of the pixel `(x, y)` lies within an image of that size.
pub proof fn lemma_pixel_index(x: int, y: int, width: int, height: int)
    requires
        0 <= x < width,
        0 <= y < height,
    ensures
        0 <= y * width + x < width * height,
        (y * width + x) / width == y,
        (y * width + x) % width == x,
{
    assert(0 <= y * width + x < width * height) by (nonlinear_arith)
        requires
            0 <= x < width,
            0 <= y < height,
    ;
    vstd::arithmetic::div_mod::lemma_fundamental_div_mod_converse(y * width + x, width, y, x);
}

/// Relies on `imageproc::geometric_transformations::translate` over an
/// `image::GrayImage` built from the same buffer: the pixel at `(x, y)` of
/// the result is the input's pixel at `(x - tx, y - ty)`, each coordinate
/// clamped into the image, so that the border pixels fill what is uncovered.
#[verifier::external_body]
pub(crate) fn translate(img: &LumaImage, tx: i32, ty: i32) -> (r: LumaImage)
    requires
        img.wf(),
        -0x10000 <= tx <= 0x10000,
        -0x10000 <= ty <= 0x10000,
        1 <= img.width <= 0x7fff_0000,
        img.height <= 0x7fff_0000,
    ensures
        r.wf(),
        r.width == img.width,
        r.height == img.height,
        forall|x: int, y: int|
            0 <= x < r.width && 0 <= y < r.height ==> #[trigger] r.pixel_at(x, y) == img.pixel_at(
                clamp(x - tx, img.width as int),
                clamp(y - ty, img.height as int),
            ),
{
    let buffer = image::GrayImage::from_raw(img.width, img.height, img.pixels.clone()).unwrap();
    let out = imageproc::geometric_transformations::translate(&buffer, (tx, ty));
    LumaImage { width: img.width, height: img.height, pixels: out.into_raw() }
}

} // verus!
