use vstd::prelude::*;

use super::context::{memory_wf, Context};
use super::context_memory_item::ContextMemoryItem;

verus! {

/// A rectangular grid of context cells, held in an `ndarray::Array2`.
#[verifier::external_body]
pub struct ContextMap {
    cells: ndarray::Array2<Context>,
}

/// The memories of the map's cells, row by row.
pub uninterp spec fn context_map_cells(m: ContextMap) -> Seq<Seq<Seq<ContextMemoryItem>>>;

/// Number of columns of a grid given row by row.
pub open spec fn grid_cols<T>(cells: Seq<Seq<T>>) -> nat {
    if cells.len() > 0 {
        cells[0].len()
    } else {
        0
    }
}

/// A grid of cell memories is rectangular, addressable, and every memory is
/// well formed.
pub open spec fn grid_wf(cells: Seq<Seq<Seq<ContextMemoryItem>>>) -> bool {
    &&& forall|y: int| 0 <= y < cells.len() ==> #[trigger] cells[y].len() == grid_cols(cells)
    &&& cells.len() * grid_cols(cells) <= isize::MAX
    &&& forall|y: int, x: int|
        0 <= y < cells.len() && 0 <= x < grid_cols(cells) ==> memory_wf(#[trigger] cells[y][x])
}

impl ContextMap {
    pub open spec fn cells(self) -> Seq<Seq<Seq<ContextMemoryItem>>> {
        context_map_cells(self)
    }

    pub open spec fn rows(self) -> nat {
        self.cells().len()
    }

    pub open spec fn cols(self) -> nat {
        grid_cols(self.cells())
    }

    /// Rectangular, addressable, and every cell well formed.
    pub open spec fn wf(self) -> bool {
        grid_wf(self.cells())
    }

    /// Relies on `ndarray::Array2::from_shape_fn`, which fills each of the
    /// `rows × cols` positions with the value that the closure returns; it
    /// panics when the product of the non-zero sides exceeds `isize::MAX`.
    #[verifier::external_body]
    fn empty_grid(rows: usize, cols: usize) -> (r: ContextMap)
        requires
            rows <= isize::MAX,
            cols <= isize::MAX,
            rows * cols <= isize::MAX,
        ensures
            context_map_cells(r) == Seq::new(
                rows as nat,
                |y: int| Seq::new(cols as nat, |x: int| Seq::<ContextMemoryItem>::empty()),
            ),
    {
        ContextMap { cells: ndarray::Array2::from_shape_fn((rows, cols), |_| Context::new()) }
    }

    /// Relies on `ndarray::ArrayBase::dim`: the number of rows and columns.
    #[verifier::external_body]
    fn dims(&self) -> (r: (usize, usize))
        ensures
            r.0 == context_map_cells(*self).len(),
            forall|y: int| 0 <= y < r.0 ==> #[trigger] context_map_cells(*self)[y].len() == r.1,
    {
        self.cells.dim()
    }

    /// Relies on indexing an `ndarray::Array2` by `[row, column]`.
    #[verifier::external_body]
    fn cell_at(&self, y: usize, x: usize) -> (r: &Context)
        requires
            y < context_map_cells(*self).len(),
            x < context_map_cells(*self)[y as int].len(),
        ensures
            r.memory@ == context_map_cells(*self)[y as int][x as int],
    {
        &self.cells[[y, x]]
    }

    /// Number of rows and of columns.
    pub fn shape(&self) -> (r: (usize, usize))
        requires
            self.wf(),
        ensures
            r.0 == self.rows(),
            r.0 > 0 ==> r.1 == self.cols(),
    {
        let r = self.dims();
        proof {
            if r.0 > 0 {
                assert(self.cells()[0].len() == r.1);
            }
        }
        r
    }

    /// The cell in row `y` and column `x`.
    pub fn cell(&self, y: usize, x: usize) -> (r: &Context)
        requires
            self.wf(),
            y < self.rows(),
            x < self.cols(),
        ensures
            r.memory@ == self.cells()[y as int][x as int],
    {
        self.cell_at(y, x)
    }

    /// Relies on `std::mem::replace` over the element of an `ndarray::Array2`
    /// at `[row, column]`: the old cell comes back, the new one takes its place.
    #[verifier::external_body]
    pub(crate) fn replace_cell(&mut self, y: usize, x: usize, c: Context) -> (r: Context)
        requires
            y < context_map_cells(*old(self)).len(),
            x < context_map_cells(*old(self))[y as int].len(),
        ensures
            r.memory@ == context_map_cells(*old(self))[y as int][x as int],
            context_map_cells(*final(self)) == context_map_cells(*old(self)).update(
                y as int,
                context_map_cells(*old(self))[y as int].update(x as int, c.memory@),
            ),
    {
        std::mem::replace(&mut self.cells[[y, x]], c)
    }
}

/// A `max_dim × max_dim` map of empty cells.
pub fn generate_context_map(max_dim: usize) -> (r: ContextMap)
    requires
        max_dim * max_dim <= isize::MAX,
    ensures
        r.wf(),
        r.rows() == max_dim,
        r.cols() == max_dim,
        forall|y: int, x: int|
            0 <= y < max_dim && 0 <= x < max_dim ==> #[trigger] r.cells()[y][x].len() == 0,
{
    assert(max_dim <= isize::MAX) by (nonlinear_arith)
        requires
            max_dim * max_dim <= isize::MAX,
    ;
    ContextMap::empty_grid(max_dim, max_dim)
}

} // verus!
