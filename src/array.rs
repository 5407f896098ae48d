//! The two-dimensional `ndarray` arrays that masks and boards are stored in.
//!
//! Each array is held in a private field of a struct whose contents Verus
//! sees only through the names below, row by row.

use crate::grid::Cell;
use vstd::prelude::*;

verus! {

#[verifier::external_type_specification]
#[verifier::external_body]
pub struct ExShapeError(ndarray::ShapeError);

/// A rectangular array of flags, one per cell.
#[verifier::external_body]
#[derive(Debug)]
pub struct FlagArray {
    inner: ndarray::Array2<bool>,
}

/// A rectangular array of board cells.
#[verifier::external_body]
#[derive(Debug)]
pub struct CellArray {
    inner: ndarray::Array2<Cell>,
}

/// The rows of a flag array, top to bottom.
pub uninterp spec fn flag_rows(a: FlagArray) -> Seq<Seq<bool>>;

/// The rows of a cell array, top to bottom.
pub uninterp spec fn cell_rows(a: CellArray) -> Seq<Seq<Cell>>;

/// `rows` has `height` rows of `width` entries each.
pub open spec fn is_rect<T>(rows: Seq<Seq<T>>, height: int, width: int) -> bool {
    &&& rows.len() == height
    &&& forall|i: int| 0 <= i < height ==> #[trigger] rows[i].len() == width
}

/// Whether `ndarray` accepts the shape `height` by `width`.
pub open spec fn shape_fits(height: int, width: int) -> bool {
    height <= isize::MAX && width <= isize::MAX && height * width <= isize::MAX
}

impl FlagArray {
    /// Relies on `ndarray::Array2::from_shape_vec`: it fails unless the
    /// vector holds exactly `height * width` flags and the shape fits, and
    /// otherwise reads the vector row by row.
    #[verifier::external_body]
    pub(crate) fn from_vec(height: usize, width: usize, v: Vec<bool>) -> (r: Result<
        FlagArray,
        ndarray::ShapeError,
    >)
        ensures
            r.is_ok() <==> (v@.len() == height * width && shape_fits(height as int, width as int)),
            r.is_ok() ==> is_rect(flag_rows(r->Ok_0), height as int, width as int),
            r.is_ok() ==> forall|i: int, j: int|
                0 <= i < height && 0 <= j < width ==> #[trigger] flag_rows(r->Ok_0)[i][j]
                    == v@[i * width + j],
    {
        match ndarray::Array2::from_shape_vec((height, width), v) {
            Ok(inner) => Ok(FlagArray { inner }),
            Err(e) => Err(e),
        }
    }

    /// Relies on indexing an `ndarray::Array2` by `[row, column]`, which
    /// panics outside the array.
    #[verifier::external_body]
    pub(crate) fn get(&self, y: usize, x: usize) -> (r: bool)
        requires
            y < flag_rows(*self).len(),
            x < flag_rows(*self)[y as int].len(),
        ensures
            r == flag_rows(*self)[y as int][x as int],
    {
        self.inner[[y, x]]
    }

    /// Relies on `PartialEq` of `ndarray::Array2`: equal shapes and equal
    /// elements. With at least one row and one column the shape is read
    /// off the rows.
    #[verifier::external_body]
    pub(crate) fn same_as(&self, other: &FlagArray) -> (r: bool)
        requires
            flag_rows(*self).len() > 0,
            flag_rows(*self)[0].len() > 0,
            flag_rows(*other).len() > 0,
            flag_rows(*other)[0].len() > 0,
        ensures
            r == (flag_rows(*self) == flag_rows(*other)),
    {
        self.inner == other.inner
    }

    /// Relies on `Clone` of `ndarray::Array2`: an equal array.
    #[verifier::external_body]
    pub(crate) fn copy(&self) -> (r: FlagArray)
        ensures
            flag_rows(r) == flag_rows(*self),
    {
        FlagArray { inner: self.inner.clone() }
    }
}

impl CellArray {
    /// Relies on `ndarray::Array2::from_elem`: every cell holds `c`. It
    /// panics unless the shape fits.
    #[verifier::external_body]
    pub(crate) fn filled(height: usize, width: usize, c: Cell) -> (r: CellArray)
        requires
            shape_fits(height as int, width as int),
        ensures
            uniform_rect(cell_rows(r), height as int, width as int, c),
    {
        CellArray { inner: ndarray::Array2::from_elem((height, width), c) }
    }

    /// Relies on indexing an `ndarray::Array2` by `[row, column]`, which
    /// panics outside the array.
    #[verifier::external_body]
    pub(crate) fn get(&self, y: usize, x: usize) -> (r: Cell)
        requires
            y < cell_rows(*self).len(),
            x < cell_rows(*self)[y as int].len(),
        ensures
            r == cell_rows(*self)[y as int][x as int],
    {
        self.inner[[y, x]]
    }

    /// Relies on assigning through `IndexMut` of an `ndarray::Array2`: that
    /// one cell changes. It panics outside the array.
    #[verifier::external_body]
    pub(crate) fn set(&mut self, y: usize, x: usize, c: Cell)
        requires
            y < cell_rows(*old(self)).len(),
            x < cell_rows(*old(self))[y as int].len(),
        ensures
            cell_rows(*final(self)) == cell_rows(*old(self)).update(
                y as int,
                cell_rows(*old(self))[y as int].update(x as int, c),
            ),
    {
        self.inner[[y, x]] = c;
    }

    /// Relies on `Clone` of `ndarray::Array2`: an equal array.
    #[verifier::external_body]
    pub(crate) fn copy(&self) -> (r: CellArray)
        ensures
            cell_rows(r) == cell_rows(*self),
    {
        CellArray { inner: self.inner.clone() }
    }
}

/// `rows` has `height` rows of `width` entries, each `c`.
pub open spec fn uniform_rect(rows: Seq<Seq<Cell>>, height: int, width: int, c: Cell) -> bool {
    &&& is_rect(rows, height, width)
    &&& forall|i: int, j: int| 0 <= i < height && 0 <= j < width ==> #[trigger] rows[i][j] == c
}

} // verus!
