use vstd::prelude::*;

use crate::bits::{
    bit64, count_ones64, lemma_bit64_and, lemma_bit64_or, lemma_bit64_single, lemma_bit64_zero,
    lemma_bits_determine, popcount64,
};
use crate::fraction::{Fraction, MAX_TERM};
use crate::luma_image::{lemma_pixel_index, LumaImage};

verus! {

/// Widest supported row word.
pub const MAX_WIDTH: u32 = 64;

/// Most rows of an information (2^24). Bit counts then stay within
/// `MAX_TERM`, so accuracies and coherences are exact fractions whose
/// products fit in 64 bits and whose comparisons fit in 128.
pub const MAX_ROWS: usize = 0x100_0000;

/// A pixel brighter than this reads as a set bit.
pub const IMAGE_THRESHOLD: u8 = 50;

/// Brightness of a set bit in a rendered image.
pub const WHITE: u8 = 255;

/// The ways in which comparing two informations can fail.
#[derive(Clone, Copy, Debug, PartialEq, Eq, Structural)]
pub enum InformationError {
    LengthsDoNotMatch,
}

impl InformationError {
    /// The error's description.
    pub fn message(&self) -> (r: &'static str)
        ensures
            r@ == "Lengths do not match"@,
    {
        match self {
            InformationError::LengthsDoNotMatch => "Lengths do not match",
        }
    }
}

/// Sum of the populations of the first `n` words.
pub open spec fn ones_count(data: Seq<u64>, n: int) -> nat
    decreases n,
{
    if n <= 0 {
        0
    } else {
        ones_count(data, n - 1) + popcount64(data[n - 1])
    }
}

/// Sum of the populations of the first `n` row-wise conjunctions.
pub open spec fn conj_count(a: Seq<u64>, b: Seq<u64>, n: int) -> nat
    decreases n,
{
    if n <= 0 {
        0
    } else {
        conj_count(a, b, n - 1) + popcount64(a[n - 1] & b[n - 1])
    }
}

/// Coherence of `a` to `b` (of as many rows): the share of the set bits of
/// `b` that are set in `a` too, or zero when `b` has none.
pub open spec fn coherence_of(a: Seq<u64>, b: Seq<u64>) -> Fraction {
    let n = a.len() as int;
    if ones_count(b, n) == 0 {
        Fraction { numerator: 0, denominator: 1 }
    } else {
        Fraction { numerator: conj_count(a, b, n) as u64, denominator: ones_count(b, n) as u64 }
    }
}

/// Every word holds its bits below `width`.
pub open spec fn rows_fit(data: Seq<u64>, width: int) -> bool {
    forall|r: int, i: int| 0 <= r < data.len() && width <= i < 64 ==> !#[trigger] bit64(data[r], i)
}

/// `data` reads image `img` with `threshold`: bit `c` of row `r` is set
/// exactly when the pixel at `(width - 1 - c, r)` is brighter than it.
pub open spec fn reads_image(data: Seq<u64>, img: LumaImage, threshold: u8) -> bool {
    &&& data.len() == img.height
    &&& forall|r: int, c: int|
        0 <= r < data.len() && 0 <= c < 64 ==> #[trigger] bit64(data[r], c) == (c < img.width
            && img.pixel_at(img.width - 1 - c, r) > threshold)
}

/// `img` renders `data` of `width`: the pixel at `(x, y)` is white when
/// bit `width - 1 - x` of row `y` is set, black otherwise.
pub open spec fn renders(img: LumaImage, data: Seq<u64>, width: u32) -> bool {
    &&& img.wf()
    &&& img.width == width
    &&& img.height == data.len()
    &&& forall|x: int, y: int|
        0 <= x < width && 0 <= y < data.len() ==> #[trigger] img.pixel_at(x, y) == if bit64(
            data[y],
            width - 1 - x,
        ) {
            WHITE
        } else {
            0
        }
}

/// A binary image: one word per row, of which the low `width` bits hold the
/// row's pixels, the leftmost pixel in the highest of them.
#[derive(Debug)]
pub struct Information {
    pub data: Vec<u64>,
    pub width: u32,
    pub name: String,
}

impl Information {
    pub open spec fn wf(&self) -> bool {
        &&& 1 <= self.width <= MAX_WIDTH
        &&& self.data@.len() <= MAX_ROWS
        &&& rows_fit(self.data@, self.width as int)
    }

    pub fn new(data: Vec<u64>, width: u32, name: String) -> (r: Information)
        ensures
            r.data@ == data@,
            r.width == width,
            r.name@ == name@,
    {
        Information { data, width, name }
    }

    /// A copy with the same rows, width and name.
    pub fn duplicate(&self) -> (r: Information)
        ensures
            r.data@ == self.data@,
            r.width == self.width,
            r.name@ == self.name@,
    {
        let mut data: Vec<u64> = Vec::new();
        let mut i: usize = 0;
        while i < self.data.len()
            invariant
                i <= self.data@.len(),
                data@ == self.data@.take(i as int),
            decreases self.data@.len() - i,
        {
            data.push(self.data[i]);
            proof {
                assert(self.data@.take(i + 1) =~= self.data@.take(i as int).push(
                    self.data@[i as int],
                ));
            }
            i = i + 1;
        }
        proof {
            assert(self.data@.take(i as int) =~= self.data@);
        }
        Information { data, width: self.width, name: self.name.clone() }
    }

    /// Share of the set bits of `to` that are set in `self` too:
    /// `Σ popcount(self[i] ∧ to[i]) / Σ popcount(to[i])`, or zero when `to`
    /// has no set bit; an error when the row counts differ.
    pub fn coherence_to(&self, to: &Information) -> (r: Result<Fraction, InformationError>)
        requires
            self.data@.len() <= MAX_ROWS,
        ensures
            r is Err <==> self.data@.len() != to.data@.len(),
            r is Err ==> r == Err::<Fraction, InformationError>(
                InformationError::LengthsDoNotMatch,
            ),
            r is Ok ==> r == Ok::<Fraction, InformationError>(coherence_of(self.data@, to.data@)),
            r is Ok ==> coherence_of(self.data@, to.data@).wf(),
    {
        if self.data.len() != to.data.len() {
            return Err(InformationError::LengthsDoNotMatch);
        }
        let mut to_ones_count: u64 = 0;
        let mut conj_ones_count: u64 = 0;
        let mut i: usize = 0;
        while i < self.data.len()
            invariant
                self.data@.len() == to.data@.len() <= MAX_ROWS,
                i <= self.data@.len(),
                to_ones_count == ones_count(to.data@, i as int),
                conj_ones_count == conj_count(self.data@, to.data@, i as int),
                conj_ones_count <= to_ones_count <= 64 * i,
                64 * MAX_ROWS <= MAX_TERM,
            decreases self.data@.len() - i,
        {
            let to_byte = to.data[i];
            let conj = self.data[i] & to_byte;
            let a = count_ones64(to_byte) as u64;
            let b = count_ones64(conj) as u64;
            proof {
                lemma_popcount_and_le64(self.data@[i as int], to_byte, 64);
            }
            to_ones_count = to_ones_count + a;
            conj_ones_count = conj_ones_count + b;
            i = i + 1;
        }
        if to_ones_count == 0 {
            return Ok(Fraction { numerator: 0, denominator: 1 });
        }
        Ok(Fraction { numerator: conj_ones_count, denominator: to_ones_count })
    }

    pub fn get_empty_elt(&self) -> (r: u64)
        ensures
            r == 0,
    {
        0
    }

    /// Reads an image with `IMAGE_THRESHOLD`.
    pub fn from_image(img: &LumaImage, name: String) -> (r: Information)
        requires
            img.wf(),
            1 <= img.width <= MAX_WIDTH,
        ensures
            r.width == img.width,
            r.name@ == name@,
            reads_image(r.data@, *img, IMAGE_THRESHOLD),
            rows_fit(r.data@, r.width as int),
    {
        Information::from_image_threshold(img, IMAGE_THRESHOLD, name)
    }

    /// Reads an image whose width is the word width: bit `c` of row `r` is
    /// set when the pixel at `(width - 1 - c, r)` is brighter than
    /// `threshold`.
    pub fn from_image_threshold(img: &LumaImage, threshold: u8, name: String) -> (r: Information)
        requires
            img.wf(),
            1 <= img.width <= MAX_WIDTH,
        ensures
            r.width == img.width,
            r.name@ == name@,
            reads_image(r.data@, *img, threshold),
            rows_fit(r.data@, r.width as int),
    {
        let h = img.height;
        let w = img.width;
        let n = img.pixels.len();
        let mut data: Vec<u64> = Vec::new();
        let mut row: u32 = 0;
        while row < h
            invariant
                img.wf(),
                n == img.pixels@.len(),
                h == img.height,
                w == img.width,
                1 <= w <= MAX_WIDTH,
                row <= h,
                data@.len() == row,
                forall|r: int, c: int|
                    0 <= r < row && 0 <= c < 64 ==> #[trigger] bit64(data@[r], c) == (c < w
                        && img.pixel_at(w - 1 - c, r) > threshold),
            decreases h - row,
        {
            let mut d: u64 = 0;
            let mut col: u32 = 0;
            proof {
                assert forall|i: int| 0 <= i < 64 implies !bit64(d, i) by {
                    lemma_bit64_zero(i);
                }
            }
            while col < w
                invariant
                    img.wf(),
                    n == img.pixels@.len(),
                    h == img.height,
                    w == img.width,
                    1 <= w <= MAX_WIDTH,
                    row < h,
                    col <= w,
                    forall|i: int|
                        0 <= i < 64 ==> #[trigger] bit64(d, i) == (i < col && img.pixel_at(
                            w - 1 - i,
                            row as int,
                        ) > threshold),
                decreases w - col,
            {
                let x = w - 1 - col;
                proof {
                    lemma_pixel_index(x as int, row as int, w as int, h as int);
                }
                let p = img.pixels[(row as usize) * (w as usize) + x as usize];
                let ghost before = d;
                if p > threshold {
                    d = d | (1u64 << col as u64);
                }
                proof {
                    assert forall|i: int| 0 <= i < 64 implies #[trigger] bit64(d, i) == (i < col + 1
                        && img.pixel_at(w - 1 - i, row as int) > threshold) by {
                        if p > threshold {
                            lemma_bit64_or(before, 1u64 << col as u64, i);
                            lemma_bit64_single(col as int, i);
                        }
                    }
                }
                col = col + 1;
            }
            data.push(d);
            row = row + 1;
        }
        let r = Information { data, width: w, name };
        proof {
            assert forall|rr: int, i: int|
                0 <= rr < r.data@.len() && r.width <= i < 64 implies !#[trigger] bit64(
                r.data@[rr],
                i,
            ) by {}
        }
        r
    }

    /// Renders the information as an image `width` pixels wide, white where
    /// a bit is set and black elsewhere.
    pub fn to_image(&self) -> (r: LumaImage)
        requires
            1 <= self.width <= MAX_WIDTH,
            self.data@.len() <= MAX_ROWS,
        ensures
            renders(r, self.data@, self.width),
    {
        let w = self.width;
        let h = self.data.len() as u32;
        let mut pixels: Vec<u8> = Vec::new();
        let mut row: u32 = 0;
        while row < h
            invariant
                1 <= w <= MAX_WIDTH,
                w == self.width,
                h == self.data@.len() <= MAX_ROWS,
                row <= h,
                pixels@.len() == row * w,
                forall|k: int|
                    0 <= k < pixels@.len() ==> #[trigger] pixels@[k] == if bit64(
                        self.data@[k / w as int],
                        w - 1 - k % w as int,
                    ) {
                        WHITE
                    } else {
                        0
                    },
            decreases h - row,
        {
            let mut col: u32 = 0;
            while col < w
                invariant
                    1 <= w <= MAX_WIDTH,
                    w == self.width,
                    h == self.data@.len() <= MAX_ROWS,
                    row < h,
                    col <= w,
                    pixels@.len() == row * w + col,
                    forall|k: int|
                        0 <= k < pixels@.len() ==> #[trigger] pixels@[k] == if bit64(
                            self.data@[k / w as int],
                            w - 1 - k % w as int,
                        ) {
                            WHITE
                        } else {
                            0
                        },
                decreases w - col,
            {
                proof {
                    lemma_pixel_index(col as int, row as int, w as int, h as int);
                }
                let set = (self.data[row as usize] >> (w - 1 - col) as u64) & 1 == 1;
                let pixel: u8 = if set {
                    WHITE
                } else {
                    0
                };
                pixels.push(pixel);
                col = col + 1;
            }
            assert((row + 1) * w == row * w + w) by (nonlinear_arith);
            row = row + 1;
        }
        let r = LumaImage { width: w, height: h, pixels };
        proof {
            assert forall|x: int, y: int| 0 <= x < w && 0 <= y < h implies #[trigger] r.pixel_at(
                x,
                y,
            ) == if bit64(self.data@[y], w - 1 - x) {
                WHITE
            } else {
                0
            } by {
                lemma_pixel_index(x, y, w as int, h as int);
                let k = y * w + x;
                assert(r.pixels@[k] == if bit64(self.data@[k / w as int], w - 1 - k % w as int) {
                    WHITE
                } else {
                    0
                });
            }
            assert(r.pixels@.len() == w * h) by (nonlinear_arith)
                requires
                    r.pixels@.len() == h * w,
            ;
        }
        r
    }
}

proof fn lemma_popcount_and_le64(a: u64, b: u64, n: int)
    requires
        0 <= n <= 64,
    ensures
        crate::bits::popcount64_upto(a & b, n) <= crate::bits::popcount64_upto(b, n),
    decreases n,
{
    if n > 0 {
        lemma_popcount_and_le64(a, b, n - 1);
        lemma_bit64_and(a, b, n - 1);
    }
}

impl PartialEq for Information {
    /// Same name, same width and the same rows.
    fn eq(&self, other: &Information) -> (r: bool)
        ensures
            r == (self.name@ == other.name@ && self.width == other.width && self.data@
                == other.data@),
    {
        if self.name != other.name || self.width != other.width || self.data.len()
            != other.data.len() {
            return false;
        }
        let mut i: usize = 0;
        while i < self.data.len()
            invariant
                self.data@.len() == other.data@.len(),
                i <= self.data@.len(),
                forall|j: int| 0 <= j < i ==> self.data@[j] == other.data@[j],
            decreases self.data@.len() - i,
        {
            if self.data[i] != other.data[i] {
                return false;
            }
            i = i + 1;
        }
        proof {
            assert(self.data@ =~= other.data@);
        }
        true
    }
}

impl vstd::std_specs::cmp::PartialEqSpecImpl for Information {
    open spec fn obeys_eq_spec() -> bool {
        true
    }

    open spec fn eq_spec(&self, other: &Information) -> bool {
        self.name@ == other.name@ && self.width == other.width && self.data@ == other.data@
    }
}

/// Rendering what was read from an image gives the image back thresholded:
/// white where it was brighter than `IMAGE_THRESHOLD`, black elsewhere; the
/// image itself when it is black and white.
pub proof fn lemma_image_threshold_round_trip(img: LumaImage, data: Seq<u64>, back: LumaImage)
    requires
        img.wf(),
        1 <= img.width <= MAX_WIDTH,
        reads_image(data, img, IMAGE_THRESHOLD),
        renders(back, data, img.width),
    ensures
        back.width == img.width,
        back.height == img.height,
        forall|x: int, y: int|
            0 <= x < img.width && 0 <= y < img.height ==> #[trigger] back.pixel_at(x, y) == if img.pixel_at(
                x,
                y,
            ) > IMAGE_THRESHOLD {
                WHITE
            } else {
                0
            },
{
    let w = img.width as int;
    assert forall|x: int, y: int| 0 <= x < w && 0 <= y < img.height implies #[trigger] back.pixel_at(
        x,
        y,
    ) == if img.pixel_at(x, y) > IMAGE_THRESHOLD {
        WHITE
    } else {
        0
    } by {
        assert(bit64(data[y], w - 1 - x) == (w - 1 - x < w && img.pixel_at(
            w - 1 - (w - 1 - x),
            y,
        ) > IMAGE_THRESHOLD));
    }
}

/// Reading the rendering of an information gives the information back.
pub proof fn lemma_image_round_trip(info: Information, img: LumaImage, back: Seq<u64>)
    requires
        info.wf(),
        renders(img, info.data@, info.width),
        reads_image(back, img, IMAGE_THRESHOLD),
    ensures
        back == info.data@,
{
    let w = info.width as int;
    assert forall|r: int| 0 <= r < back.len() implies back[r] == info.data@[r] by {
        assert forall|c: int| 0 <= c < 64 implies bit64(back[r], c) == bit64(info.data@[r], c) by {
            if c < w {
                assert(img.pixel_at(w - 1 - c, r) == if bit64(info.data@[r], w - 1 - (w - 1 - c)) {
                    WHITE
                } else {
                    0
                });
            }
        }
        lemma_bits_determine(back[r], info.data@[r]);
    }
    assert(back =~= info.data@);
}

} // verus!
