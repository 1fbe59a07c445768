use vstd::prelude::*;

use crate::bits::{
    bit64, lemma_bit64_and, lemma_bit64_or, lemma_bit64_single, lemma_bit64_zero,
    lemma_bits_determine,
};
use crate::information::{Information, MAX_ROWS, MAX_WIDTH, WHITE};
use crate::luma_image::{clamp, translate};

verus! {

/// Angles are whole steps of a twenty-fourth of a turn (15°, π/12 radians).
pub const ANGLE_STEPS_PER_TURN: i16 = 24;

/// A shift by `x` pixels to the right and `y` pixels up, and a
/// counter-clockwise rotation by `a` steps of `π/12` about the centre.
#[derive(Clone, Copy, Debug)]
pub struct Transformation {
    pub x: i16,
    pub y: i16,
    pub a: i16,
}

/// `out` is `src` of `width` shifted by `tx` columns to the right and `ty`
/// rows up, black where nothing was moved in: bit `c` of row `r` is bit
/// `c + tx` of row `r + ty` of the source when that lies in the image, and
/// clear otherwise.
pub open spec fn is_shift_of(out: Seq<u64>, src: Seq<u64>, width: int, tx: int, ty: int) -> bool {
    &&& out.len() == src.len()
    &&& forall|r: int, c: int|
        0 <= r < out.len() && 0 <= c < 64 ==> #[trigger] bit64(out[r], c) == (c < width && 0 <= r
            + ty < src.len() && 0 <= c + tx < width && bit64(src[r + ty], c + tx))
}

/// The bits `c` below `width` whose column `c + tx` lies in the image.
fn column_mask(width: u32, tx: i16) -> (m: u64)
    requires
        width <= MAX_WIDTH,
    ensures
        forall|i: int|
            0 <= i < 64 ==> #[trigger] bit64(m, i) == (i < width && 0 <= i + tx < width),
{
    let mut m: u64 = 0;
    let mut c: u32 = 0;
    proof {
        assert forall|i: int| 0 <= i < 64 implies !bit64(m, i) by {
            lemma_bit64_zero(i);
        }
    }
    while c < width
        invariant
            width <= MAX_WIDTH,
            c <= width,
            forall|i: int|
                0 <= i < 64 ==> #[trigger] bit64(m, i) == (i < c && 0 <= i + tx < width),
        decreases width - c,
    {
        let column = c as i32 + tx as i32;
        let ghost before = m;
        if 0 <= column && column < width as i32 {
            m = m | (1u64 << c as u64);
        }
        proof {
            assert forall|i: int| 0 <= i < 64 implies #[trigger] bit64(m, i) == (i < c + 1 && 0 <= i
                + tx < width) by {
                if 0 <= column && column < width as i32 {
                    lemma_bit64_or(before, 1u64 << c as u64, i);
                    lemma_bit64_single(c as int, i);
                }
            }
        }
        c = c + 1;
    }
    m
}

impl Transformation {
    pub fn new(x: i16, y: i16, a: i16) -> (r: Transformation)
        ensures
            r.x == x,
            r.y == y,
            r.a == a,
    {
        Transformation { x, y, a }
    }

    /// Whether the two transformations lie within the learning distance of
    /// each other. Shifts are whole pixels and angles whole steps of `π/12`,
    /// so two transformations that differ lie at least `π/12` apart, and
    /// only equal ones are that close.
    pub fn is_within_learning_distance(&self, to: &Transformation) -> (r: bool)
        ensures
            r == (self.x == to.x && self.y == to.y && self.a == to.a),
    {
        self.x == to.x && self.y == to.y && self.a == to.a
    }

    /// Applies the shift of the transformation to an information: its image
    /// is moved `x` pixels right and `y` pixels up, what is uncovered is
    /// black, and the image is read back under the same name. The rotation is
    /// left to the caller.
    pub fn apply_shift_to(&self, to: &Information) -> (r: Information)
        requires
            to.wf(),
        ensures
            r.wf(),
            r.width == to.width,
            r.name@ == to.name@,
            is_shift_of(r.data@, to.data@, to.width as int, self.x as int, self.y as int),
            self.x == 0 && self.y == 0 ==> r.data@ == to.data@,
    {
        let img = to.to_image();
        // the image library fills what it uncovers from the border pixels
        let moved = translate(&img, self.x as i32, -(self.y as i32));
        let clamped = Information::from_image(&moved, to.name.clone());
        let w = to.width;
        let h = to.data.len();
        proof {
            let w = to.width as int;
            let h = to.data@.len() as int;
            assert forall|row: int, c: int| 0 <= row < clamped.data@.len() && 0 <= c < 64 implies
                #[trigger] bit64(clamped.data@[row], c) == (c < w && bit64(
                    to.data@[clamp(row + self.y, h)],
                    w - 1 - clamp(w - 1 - c - self.x, w),
                )) by {
                if c < w {
                    let sx = clamp(w - 1 - c - self.x, w);
                    let sy = clamp(row + self.y, h);
                    assert(moved.pixel_at(w - 1 - c, row) == img.pixel_at(sx, sy));
                    assert(img.pixel_at(sx, sy) == if bit64(to.data@[sy], w - 1 - sx) {
                        WHITE
                    } else {
                        0
                    });
                }
            }
        }
        let keep = column_mask(w, self.x);
        let mut data: Vec<u64> = Vec::new();
        let mut row: usize = 0;
        while row < h
            invariant
                h == to.data@.len() == clamped.data@.len(),
                h <= MAX_ROWS,
                w == to.width,
                1 <= w <= MAX_WIDTH,
                row <= h,
                data@.len() == row,
                forall|i: int|
                    0 <= i < 64 ==> #[trigger] bit64(keep, i) == (i < w && 0 <= i + self.x < w),
                forall|rr: int, c: int|
                    0 <= rr < h && 0 <= c < 64 ==> #[trigger] bit64(clamped.data@[rr], c) == (c
                        < w && bit64(
                        to.data@[clamp(rr + self.y, h as int)],
                        w - 1 - clamp(w - 1 - c - self.x, w as int),
                    )),
                forall|rr: int, c: int|
                    0 <= rr < row && 0 <= c < 64 ==> #[trigger] bit64(data@[rr], c) == (c < w && 0
                        <= rr + self.y < h && 0 <= c + self.x < w && bit64(
                        to.data@[rr + self.y],
                        c + self.x,
                    )),
            decreases h - row,
        {
            let source_row = row as i64 + self.y as i64;
            let d = if 0 <= source_row && source_row < h as i64 {
                clamped.data[row] & keep
            } else {
                0
            };
            proof {
                assert forall|c: int| 0 <= c < 64 implies #[trigger] bit64(d, c) == (c < w && 0
                    <= row + self.y < h && 0 <= c + self.x < w && bit64(
                    to.data@[row + self.y],
                    c + self.x,
                )) by {
                    if 0 <= source_row && source_row < h as i64 {
                        lemma_bit64_and(clamped.data@[row as int], keep, c);
                        assert(bit64(clamped.data@[row as int], c) == (c < w && bit64(
                            to.data@[clamp(row + self.y, h as int)],
                            w - 1 - clamp(w - 1 - c - self.x, w as int),
                        )));
                    } else {
                        lemma_bit64_zero(c);
                    }
                }
            }
            data.push(d);
            row = row + 1;
        }
        let r = Information { data, width: w, name: clamped.name };
        proof {
            if self.x == 0 && self.y == 0 {
                assert forall|rr: int| 0 <= rr < h implies r.data@[rr] == to.data@[rr] by {
                    assert forall|c: int| 0 <= c < 64 implies bit64(r.data@[rr], c) == bit64(
                        to.data@[rr],
                        c,
                    ) by {
                        assert(bit64(r.data@[rr], c) == (c < w && 0 <= rr + self.y < h && 0 <= c
                            + self.x < w && bit64(to.data@[rr + self.y], c + self.x)));
                    }
                    lemma_bits_determine(r.data@[rr], to.data@[rr]);
                }
                assert(r.data@ =~= to.data@);
            }
        }
        r
    }
}

impl PartialEq for Transformation {
    /// Transformations are equal when they shift alike, whatever their angle.
    fn eq(&self, other: &Transformation) -> (r: bool)
        ensures
            r == (self.x == other.x && self.y == other.y),
    {
        self.y == other.y && self.x == other.x
    }
}

impl vstd::std_specs::cmp::PartialEqSpecImpl for Transformation {
    open spec fn obeys_eq_spec() -> bool {
        true
    }

    open spec fn eq_spec(&self, other: &Transformation) -> bool {
        self.x == other.x && self.y == other.y
    }
}

/// Two shifts compose into their sum when the first moves no set pixel out
/// of the image: shifting by `(t2x, t2y)` and then by `(t1x, t1y)` gives what
/// a single shift by `(t1x + t2x, t1y + t2y)` gives. (A pixel that the first
/// shift pushes out is lost, though the sum may have kept it.)
pub proof fn lemma_shifts_compose(
    src: Seq<u64>,
    mid: Seq<u64>,
    out: Seq<u64>,
    direct: Seq<u64>,
    width: int,
    t1x: int,
    t1y: int,
    t2x: int,
    t2y: int,
)
    requires
        1 <= width <= MAX_WIDTH,
        forall|r: int, c: int|
            0 <= r < src.len() && 0 <= c < width && #[trigger] bit64(src[r], c) ==> 0 <= r - t2y
                < src.len() && 0 <= c - t2x < width,
        is_shift_of(mid, src, width, t2x, t2y),
        is_shift_of(out, mid, width, t1x, t1y),
        is_shift_of(direct, src, width, t1x + t2x, t1y + t2y),
    ensures
        out == direct,
{
    let h = src.len() as int;
    assert forall|r: int| 0 <= r < out.len() implies out[r] == direct[r] by {
        assert forall|c: int| 0 <= c < 64 implies bit64(out[r], c) == bit64(direct[r], c) by {
            if c < width && 0 <= r + t1y < h && 0 <= c + t1x < width {
                assert(bit64(mid[r + t1y], c + t1x) == (0 <= r + t1y + t2y < h && 0 <= c + t1x
                    + t2x < width && bit64(src[r + t1y + t2y], c + t1x + t2x)));
            } else if c < width && 0 <= r + t1y + t2y < h && 0 <= c + t1x + t2x < width {
                if bit64(src[r + t1y + t2y], c + t1x + t2x) {
                    assert(0 <= r + t1y + t2y - t2y < h);
                }
            }
        }
        lemma_bits_determine(out[r], direct[r]);
    }
    assert(out =~= direct);
}

} // verus!
