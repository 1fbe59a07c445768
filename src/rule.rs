use vstd::prelude::*;

use crate::bits::bit64;
use crate::information::{Information, MAX_ROWS, MAX_WIDTH, WHITE};
use crate::luma_image::{lemma_pixel_index, LumaImage};

verus! {

/// Pixel in column `x` of a rule's drawing, for rows `int_row` and `i_row`
/// of words `width` bits wide.
pub open spec fn rule_pixel(int_row: u64, i_row: u64, width: int, x: int) -> u8 {
    if (x < width && bit64(int_row, x)) || (x >= width && bit64(i_row, x - width)) {
        WHITE
    } else {
        0
    }
}

/// Pixel `k`, row by row, of the drawing of `rule` with words `width` bits
/// wide.
pub open spec fn drawn_pixel(rule: &Rule, width: int, k: int) -> u8 {
    let row = k / (2 * width);
    rule_pixel(rule.interp.data@[row], rule.i.data@[row], width, k % (2 * width))
}

/// A rule: the source information `i`, which has a single set bit, and the
/// interpretation `interp` that the bit was seen to lead to.
#[derive(Debug)]
pub struct Rule {
    pub i: Information,
    pub interp: Information,
}

impl Rule {
    /// The rows of the source and of the interpretation.
    pub open spec fn view(&self) -> (Seq<u64>, Seq<u64>) {
        (self.i.data@, self.interp.data@)
    }

    /// A rule holding copies of the two informations.
    pub fn new(i: &Information, interp: &Information) -> (r: Rule)
        ensures
            r.view() == (i.data@, interp.data@),
            r.i.width == i.width,
            r.i.name@ == i.name@,
            r.interp.width == interp.width,
            r.interp.name@ == interp.name@,
    {
        Rule { i: i.duplicate(), interp: interp.duplicate() }
    }

    /// Draws the rule as an image twice as wide as its informations: the
    /// interpretation on the left, the source on the right, bit `c` of a
    /// row in column `c` of its half; white where a bit is set.
    pub fn to_image(&self) -> (r: LumaImage)
        requires
            1 <= self.i.width <= MAX_WIDTH,
            self.interp.width == self.i.width,
            self.i.data@.len() <= MAX_ROWS,
            self.interp.data@.len() == self.i.data@.len(),
        ensures
            r.wf(),
            r.width == 2 * self.i.width,
            r.height == self.i.data@.len(),
            forall|x: int, y: int|
                0 <= x < r.width && 0 <= y < r.height ==> #[trigger] r.pixel_at(x, y) == rule_pixel(
                    self.interp.data@[y],
                    self.i.data@[y],
                    self.i.width as int,
                    x,
                ),
    {
        let w = self.i.width;
        let full_w = 2 * w;
        let h = self.i.data.len() as u32;
        let mut pixels: Vec<u8> = Vec::new();
        let mut row: u32 = 0;
        while row < h
            invariant
                1 <= w <= MAX_WIDTH,
                full_w == 2 * w,
                w == self.i.width,
                h == self.i.data@.len() <= MAX_ROWS,
                self.interp.data@.len() == self.i.data@.len(),
                row <= h,
                pixels@.len() == row * full_w,
                forall|k: int|
                    0 <= k < pixels@.len() ==> #[trigger] pixels@[k] == drawn_pixel(self, w as int, k),
            decreases h - row,
        {
            let mut col: u32 = 0;
            while col < full_w
                invariant
                    1 <= w <= MAX_WIDTH,
                    full_w == 2 * w,
                    w == self.i.width,
                    h == self.i.data@.len() <= MAX_ROWS,
                    self.interp.data@.len() == self.i.data@.len(),
                    row < h,
                    col <= full_w,
                    pixels@.len() == row * full_w + col,
                    forall|k: int|
                        0 <= k < pixels@.len() ==> #[trigger] pixels@[k] == drawn_pixel(self, w as int, k),
                decreases full_w - col,
            {
                proof {
                    lemma_pixel_index(col as int, row as int, full_w as int, h as int);
                }
                let data_row = if col < w {
                    self.interp.data[row as usize]
                } else {
                    self.i.data[row as usize]
                };
                let shift = if col < w {
                    col
                } else {
                    col - w
                };
                let pixel: u8 = if (data_row >> shift as u64) & 1 == 1 {
                    WHITE
                } else {
                    0
                };
                pixels.push(pixel);
                col = col + 1;
            }
            assert((row + 1) * full_w == row * full_w + full_w) by (nonlinear_arith);
            row = row + 1;
        }
        let r = LumaImage { width: full_w, height: h, pixels };
        proof {
            assert forall|x: int, y: int| 0 <= x < full_w && 0 <= y < h implies #[trigger] r.pixel_at(
                x,
                y,
            ) == rule_pixel(self.interp.data@[y], self.i.data@[y], w as int, x) by {
                lemma_pixel_index(x, y, full_w as int, h as int);
                let k = y * full_w + x;
                assert(r.pixels@[k] == drawn_pixel(self, w as int, k));
            }
            assert(r.pixels@.len() == full_w * h) by (nonlinear_arith)
                requires
                    r.pixels@.len() == h * full_w,
            ;
        }
        r
    }
}

} // verus!
