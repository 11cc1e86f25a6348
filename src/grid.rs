//! A square two-dimensional boolean array kept in an `ndarray::Array2`.
use vstd::prelude::*;

verus! {

/// The cells of a grid, indexed `[x][y]`.
pub uninterp spec fn grid_cells(g: Grid) -> Seq<Seq<bool>>;

/// A square array of booleans. `ndarray::ArrayBase` cannot be declared to
/// Verus, since its `RawData` bound is a trait of that crate, so the array is
/// kept in an opaque field and reached through the methods below.
#[verifier::external_body]
pub struct Grid {
    cells: ndarray::Array2<bool>,
}

/// `cells` is a `size x size` array.
pub open spec fn is_square(cells: Seq<Seq<bool>>, size: int) -> bool {
    &&& cells.len() == size
    &&& forall|i: int| 0 <= i < size ==> (#[trigger] cells[i]).len() == size
}

impl Grid {
    /// Relies on `Array2::default`: a `size x size` array of `false`; it
    /// panics when the element count overflows `isize`.
    #[verifier::external_body]
    pub(crate) fn blank(size: usize) -> (r: Grid)
        requires
            size * size <= isize::MAX,
        ensures
            is_square(grid_cells(r), size as int),
            forall|i: int, j: int|
                0 <= i < size && 0 <= j < size ==> !#[trigger] grid_cells(r)[i][j],
    {
        Grid { cells: ndarray::Array2::default((size, size)) }
    }

    /// Relies on indexing an `Array2` by `[[x, y]]`.
    #[verifier::external_body]
    pub(crate) fn get(&self, x: usize, y: usize) -> (r: bool)
        requires
            x < grid_cells(*self).len(),
            y < grid_cells(*self)[x as int].len(),
        ensures
            r == grid_cells(*self)[x as int][y as int],
    {
        self.cells[[x, y]]
    }

    /// Relies on assigning through `IndexMut` of an `Array2` at `[[x, y]]`.
    #[verifier::external_body]
    pub(crate) fn set(&mut self, x: usize, y: usize, v: bool)
        requires
            x < grid_cells(*old(self)).len(),
            y < grid_cells(*old(self))[x as int].len(),
        ensures
            grid_cells(*final(self)) == grid_cells(*old(self)).update(
                x as int,
                grid_cells(*old(self))[x as int].update(y as int, v),
            ),
    {
        self.cells[[x, y]] = v;
    }
}

} // verus!
