use vstd::prelude::*;

use crate::transformation::Transformation;

verus! {

/// The angle `π/4` in steps of `π/12`.
pub const EIGHTH_TURN: i16 = 3;

/// The angle `π/2` in steps of `π/12`.
pub const QUARTER_TURN: i16 = 6;

/// The angle `3π/4` in steps of `π/12`.
pub const THREE_EIGHTHS_TURN: i16 = 9;

/// The transformations at shift `(x, y)`: no rotation, then, with
/// `use_rotation`, rotations by `π/4`, `π/2` and `3π/4`.
pub open spec fn transformations_at(x: i16, y: i16, use_rotation: bool) -> Seq<Transformation> {
    let plain = seq![Transformation { x, y, a: 0 }];
    if use_rotation {
        plain + seq![
            Transformation { x, y, a: EIGHTH_TURN },
            Transformation { x, y, a: QUARTER_TURN },
            Transformation { x, y, a: THREE_EIGHTHS_TURN },
        ]
    } else {
        plain
    }
}

/// The transformations of the quadrant point `(x, y)`: those at `(x, y)`,
/// `(x, -y)`, `(-x, y)` and `(-x, -y)`, each mirror image once.
pub open spec fn catalog_point(x: i16, y: i16, use_rotation: bool) -> Seq<Transformation> {
    let nx = (-x) as i16;
    let ny = (-y) as i16;
    transformations_at(x, y, use_rotation) + (if y != 0 {
        transformations_at(x, ny, use_rotation)
    } else {
        Seq::empty()
    }) + (if x != 0 {
        transformations_at(nx, y, use_rotation)
    } else {
        Seq::empty()
    }) + (if x != 0 && y != 0 {
        transformations_at(nx, ny, use_rotation)
    } else {
        Seq::empty()
    })
}

/// The catalog's part for row `y` of the quadrant, columns `0 .. x`.
pub open spec fn catalog_row(y: i16, x: int, use_rotation: bool) -> Seq<Transformation>
    decreases x,
{
    if x <= 0 {
        Seq::empty()
    } else {
        catalog_row(y, x - 1, use_rotation) + catalog_point((x - 1) as i16, y, use_rotation)
    }
}

/// The catalog for rows `0 .. y` of a quadrant `side` columns wide.
pub open spec fn catalog_rows(side: int, y: int, use_rotation: bool) -> Seq<Transformation>
    decreases y,
{
    if y <= 0 {
        Seq::empty()
    } else {
        catalog_rows(side, y - 1, use_rotation) + catalog_row((y - 1) as i16, side, use_rotation)
    }
}

/// Side of the quadrant of shifts for images of `size` pixels.
pub open spec fn quadrant_side(size: u8) -> int {
    size / 2 + 1
}

/// The transformations at shift `(x, y)`.
fn get_transformations(x: i16, y: i16, use_rotation: bool) -> (r: Vec<Transformation>)
    ensures
        r@ == transformations_at(x, y, use_rotation),
{
    let mut r: Vec<Transformation> = Vec::new();
    r.push(Transformation { x, y, a: 0 });
    if !use_rotation {
        proof {
            assert(r@ =~= transformations_at(x, y, use_rotation));
        }
        return r;
    }
    r.push(Transformation { x, y, a: EIGHTH_TURN });
    r.push(Transformation { x, y, a: QUARTER_TURN });
    r.push(Transformation { x, y, a: THREE_EIGHTHS_TURN });
    proof {
        assert(r@ =~= transformations_at(x, y, use_rotation));
    }
    r
}

/// The catalog of transformations swept over for images of `size` pixels:
/// for each `(x, y)` of the quadrant `0 <= x, y <= size / 2`, row by row,
/// the transformations at `(x, y)`, `(x, -y)`, `(-x, y)` and `(-x, -y)`,
/// each mirror image once.
pub fn build_transformations(size: u8, use_rotation: bool) -> (r: Vec<Transformation>)
    ensures
        r@ == catalog_rows(quadrant_side(size), quadrant_side(size), use_rotation),
{
    let mut transformations: Vec<Transformation> = Vec::new();
    let max_x_shift = ((size / 2) + 1) as i16;
    let max_y_shift = ((size / 2) + 1) as i16;
    let mut y_shift: i16 = 0;
    while y_shift < max_y_shift
        invariant
            max_x_shift == quadrant_side(size),
            max_y_shift == quadrant_side(size),
            0 <= y_shift <= max_y_shift,
            transformations@ == catalog_rows(quadrant_side(size), y_shift as int, use_rotation),
        decreases max_y_shift - y_shift,
    {
        let ghost rows_before = transformations@;
        let mut x_shift: i16 = 0;
        while x_shift < max_x_shift
            invariant
                max_x_shift == quadrant_side(size),
                max_y_shift == quadrant_side(size),
                0 <= y_shift < max_y_shift,
                0 <= x_shift <= max_x_shift,
                transformations@ == rows_before + catalog_row(
                    y_shift,
                    x_shift as int,
                    use_rotation,
                ),
            decreases max_x_shift - x_shift,
        {
            let ghost point_before = transformations@;
            let n_y_shift = -1 * y_shift;
            let n_x_shift = -1 * x_shift;
            let mut ts = get_transformations(x_shift, y_shift, use_rotation);
            transformations.append(&mut ts);
            if n_y_shift != 0 {
                let mut ts = get_transformations(x_shift, n_y_shift, use_rotation);
                transformations.append(&mut ts);
            }
            if n_x_shift != 0 {
                let mut ts = get_transformations(n_x_shift, y_shift, use_rotation);
                transformations.append(&mut ts);
            }
            if n_y_shift != 0 && n_x_shift != 0 {
                let mut ts = get_transformations(n_x_shift, n_y_shift, use_rotation);
                transformations.append(&mut ts);
            }
            proof {
                let point = catalog_point(x_shift, y_shift, use_rotation);
                assert(transformations@ =~= point_before + point);
                assert(catalog_row(y_shift, x_shift + 1, use_rotation) == catalog_row(
                    y_shift,
                    x_shift as int,
                    use_rotation,
                ) + point);
                assert(transformations@ =~= rows_before + catalog_row(
                    y_shift,
                    x_shift + 1,
                    use_rotation,
                ));
            }
            x_shift = x_shift + 1;
        }
        proof {
            let side = quadrant_side(size);
            assert(transformations@ =~= catalog_rows(side, y_shift + 1, use_rotation));
        }
        y_shift = y_shift + 1;
    }
    transformations
}

} // verus!
