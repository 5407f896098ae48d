//! Part shapes: rectangular occupancy masks, their quarter turns and their
//! bounding boxes.

use crate::array::{flag_rows, is_rect, shape_fits, FlagArray};
use vstd::prelude::*;

verus! {

/// Index of row `i`, column `j` in a row-major buffer `w` columns wide.
pub open spec fn flat(i: int, j: int, w: int) -> int {
    i * w + j
}

/// Earlier cells of a row-major buffer come before later ones.
pub proof fn lemma_flat_order(i: int, j: int, i2: int, w: int)
    requires
        0 <= j < w,
        0 <= i < i2,
    ensures
        flat(i, j, w) < flat(i2, 0, w),
{
    assert(i * w + j < i2 * w) by (nonlinear_arith)
        requires
            0 <= j < w,
            0 <= i < i2,
    ;
}

/// The end of row `i` is the start of row `i + 1`.
pub proof fn lemma_flat_next(i: int, w: int)
    ensures
        flat(i, w, w) == flat(i + 1, 0, w),
{
    assert(i * w + w == (i + 1) * w) by (nonlinear_arith);
}

/// The cells of `rows` (`h` rows of `w`) after a quarter turn clockwise:
/// the transpose, with each row reversed. The result has `w` rows of `h`.
pub open spec fn rot90(rows: Seq<Seq<bool>>, h: nat, w: nat) -> Seq<Seq<bool>> {
    Seq::new(w, |i: int| Seq::new(h, |j: int| rows[h - 1 - j][i]))
}

/// The height and width of an `h` by `w` shape after `n` quarter turns.
pub open spec fn turned_dims(h: nat, w: nat, n: nat) -> (nat, nat) {
    if n % 2 == 0 {
        (h, w)
    } else {
        (w, h)
    }
}

/// The cells of `rows` (`h` rows of `w`) after `n` quarter turns.
pub open spec fn turned(rows: Seq<Seq<bool>>, h: nat, w: nat, n: nat) -> Seq<Seq<bool>>
    decreases n,
{
    if n == 0 {
        rows
    } else {
        let d = turned_dims(h, w, (n - 1) as nat);
        rot90(turned(rows, h, w, (n - 1) as nat), d.0, d.1)
    }
}

/// Row `i` of `rows` has an occupied cell among its first `w`.
pub open spec fn row_has(rows: Seq<Seq<bool>>, w: int, i: int) -> bool {
    exists|j: int| 0 <= j < w && #[trigger] rows[i][j]
}

/// Column `j` of `rows` has an occupied cell among its first `h` rows.
pub open spec fn col_has(rows: Seq<Seq<bool>>, h: int, j: int) -> bool {
    exists|i: int| 0 <= i < h && #[trigger] rows[i][j]
}

/// Some cell of the `h` by `w` rectangle `rows` is occupied.
pub open spec fn any_set(rows: Seq<Seq<bool>>, h: int, w: int) -> bool {
    exists|i: int, j: int| 0 <= i < h && 0 <= j < w && #[trigger] rows[i][j]
}

/// `t` is the first occupied row.
pub open spec fn is_first_row(rows: Seq<Seq<bool>>, h: int, w: int, t: int) -> bool {
    0 <= t < h && row_has(rows, w, t) && forall|k: int| 0 <= k < t ==> !row_has(rows, w, k)
}

/// `b` is the last occupied row.
pub open spec fn is_last_row(rows: Seq<Seq<bool>>, h: int, w: int, b: int) -> bool {
    0 <= b < h && row_has(rows, w, b) && forall|k: int| b < k < h ==> !row_has(rows, w, k)
}

/// `l` is the first occupied column.
pub open spec fn is_first_col(rows: Seq<Seq<bool>>, h: int, w: int, l: int) -> bool {
    0 <= l < w && col_has(rows, h, l) && forall|k: int| 0 <= k < l ==> !col_has(rows, h, k)
}

/// `r` is the last occupied column.
pub open spec fn is_last_col(rows: Seq<Seq<bool>>, h: int, w: int, r: int) -> bool {
    0 <= r < w && col_has(rows, h, r) && forall|k: int| r < k < w ==> !col_has(rows, h, k)
}

/// The smallest box holding every occupied cell, as top row, bottom row,
/// left column and right column, the last two of each exclusive. With no
/// occupied cell it is the whole rectangle.
pub open spec fn trim_box(rows: Seq<Seq<bool>>, h: int, w: int) -> (int, int, int, int) {
    if any_set(rows, h, w) {
        (
            choose|t: int| is_first_row(rows, h, w, t),
            (choose|b: int| is_last_row(rows, h, w, b)) + 1,
            choose|l: int| is_first_col(rows, h, w, l),
            (choose|r: int| is_last_col(rows, h, w, r)) + 1,
        )
    } else {
        (0, h, 0, w)
    }
}

/// The cells of `rows` in rows `top..bottom` and columns `left..right`.
pub open spec fn sub_rect(rows: Seq<Seq<bool>>, top: int, bottom: int, left: int, right: int) -> Seq<
    Seq<bool>,
> {
    Seq::new((bottom - top) as nat, |i: int| Seq::new((right - left) as nat, |j: int| rows[top + i][left + j]))
}

/// The height and width of the trimmed rectangle.
pub open spec fn trim_dims(rows: Seq<Seq<bool>>, h: int, w: int) -> (int, int) {
    let bx = trim_box(rows, h, w);
    (bx.1 - bx.0, bx.3 - bx.2)
}

/// The cells of the trimmed rectangle.
pub open spec fn trim(rows: Seq<Seq<bool>>, h: int, w: int) -> Seq<Seq<bool>> {
    let bx = trim_box(rows, h, w);
    sub_rect(rows, bx.0, bx.1, bx.2, bx.3)
}

/// Why a mask could not be built.
#[derive(Clone, Copy, Debug, PartialEq, Eq, Structural)]
pub enum MaskError {
    /// The height and width multiply to more cells than can be held.
    Overflow,
    /// The number of cells given differs from the height times the width.
    IncompatibleShape,
}

/// The error building an `h` by `w` mask from `len` cells, if any.
pub open spec fn shape_error(h: usize, w: usize, len: int) -> Option<MaskError> {
    if !shape_fits(h as int, w as int) {
        Some(MaskError::Overflow)
    } else if len != h * w {
        Some(MaskError::IncompatibleShape)
    } else {
        None
    }
}

/// The boolean occupancy grid of one part shape.
#[derive(Debug)]
pub struct Mask {
    height: usize,
    width: usize,
    cells: FlagArray,
}

impl View for Mask {
    type V = Seq<Seq<bool>>;

    /// The cells, row by row.
    closed spec fn view(&self) -> Seq<Seq<bool>> {
        flag_rows(self.cells)
    }
}

impl Mask {
    pub closed spec fn spec_height(&self) -> nat {
        self.height as nat
    }

    pub closed spec fn spec_width(&self) -> nat {
        self.width as nat
    }

    #[verifier::type_invariant]
    spec fn inv(&self) -> bool {
        self.wf()
    }

    /// The cells form a `spec_height` by `spec_width` rectangle that
    /// `ndarray` can hold.
    pub open spec fn wf(&self) -> bool {
        is_rect(self@, self.spec_height() as int, self.spec_width() as int) && shape_fits(
            self.spec_height() as int,
            self.spec_width() as int,
        )
    }

    /// Two masks are structurally equal: same dimensions, same cells.
    pub open spec fn same(&self, other: &Mask) -> bool {
        &&& self.spec_height() == other.spec_height()
        &&& self.spec_width() == other.spec_width()
        &&& self@ == other@
    }

    /// A mask of `shape.0` rows and `shape.1` columns, read row by row from
    /// `cells`. Fails unless `cells` has exactly that many entries.
    pub fn new(shape: (usize, usize), cells: Vec<bool>) -> (r: Result<Mask, MaskError>)
        ensures
            r.is_ok() <==> shape_error(shape.0, shape.1, cells@.len() as int) is None,
            r matches Err(e) ==> shape_error(shape.0, shape.1, cells@.len() as int) == Some(e),
            r.is_ok() ==> {
                let m = r->Ok_0;
                &&& m.wf()
                &&& m.spec_height() == shape.0
                &&& m.spec_width() == shape.1
                &&& forall|i: int, j: int|
                    0 <= i < shape.0 && 0 <= j < shape.1 ==> #[trigger] m@[i][j] == cells@[flat(
                        i,
                        j,
                        shape.1 as int,
                    )]
            },
    {
        let mut fits = false;
        if shape.0 <= isize::MAX as usize && shape.1 <= isize::MAX as usize {
            proof {
                let a = shape.0 as int;
                let b = shape.1 as int;
                assert(a * b <= 0x4000_0000_0000_0000_0000_0000_0000_0000) by (nonlinear_arith)
                    requires
                        0 <= a <= 0x8000_0000_0000_0000,
                        0 <= b <= 0x8000_0000_0000_0000,
                ;
            }
            fits = shape.0 as u128 * shape.1 as u128 <= isize::MAX as u128;
        }
        match FlagArray::from_vec(shape.0, shape.1, cells) {
            Ok(a) => Ok(Mask { height: shape.0, width: shape.1, cells: a }),
            Err(_) => if fits {
                Err(MaskError::IncompatibleShape)
            } else {
                Err(MaskError::Overflow)
            },
        }
    }

    /// The number of rows and of columns.
    pub fn dims(&self) -> (r: (usize, usize))
        ensures
            r.0 == self.spec_height(),
            r.1 == self.spec_width(),
            self.wf(),
    {
        proof {
            use_type_invariant(self);
        }
        (self.height, self.width)
    }

    /// Whether row `y`, column `x` is occupied.
    pub fn get(&self, y: usize, x: usize) -> (r: bool)
        requires
            y < self.spec_height(),
            x < self.spec_width(),
        ensures
            r == self@[y as int][x as int],
    {
        proof {
            use_type_invariant(self);
        }
        self.cells.get(y, x)
    }

    /// A mask from `v`, which holds `h * w` cells row by row.
    fn from_flat(h: usize, w: usize, v: Vec<bool>, Ghost(rows): Ghost<Seq<Seq<bool>>>) -> (r: Mask)
        requires
            v@.len() == h * w,
            shape_fits(h as int, w as int),
            is_rect(rows, h as int, w as int),
            forall|i: int, j: int|
                0 <= i < h && 0 <= j < w ==> v@[#[trigger] flat(i, j, w as int)] == rows[i][j],
        ensures
            r.spec_height() == h,
            r.spec_width() == w,
            r@ == rows,
    {
        let a = FlagArray::from_vec(h, w, v).unwrap();
        assert(flag_rows(a) =~~= rows) by {
            assert forall|i: int| 0 <= i < h implies flag_rows(a)[i] =~= rows[i] by {
                assert forall|j: int| 0 <= j < w implies flag_rows(a)[i][j] == rows[i][j] by {
                    assert(flag_rows(a)[i][j] == v@[flat(i, j, w as int)]);
                }
            }
        }
        Mask { height: h, width: w, cells: a }
    }
}


impl Mask {
    /// The mask turned a quarter clockwise: transposed, then each row
    /// reversed.
    pub fn rotate90(&self) -> (r: Mask)
        ensures
            r.spec_height() == self.spec_width(),
            r.spec_width() == self.spec_height(),
            r@ == rot90(self@, self.spec_height(), self.spec_width()),
    {
        let (h, w) = self.dims();
        let ghost target = rot90(self@, h as nat, w as nat);
        let mut v: Vec<bool> = Vec::new();
        let mut i: usize = 0;
        while i < w
            invariant
                self.wf(),
                h == self.spec_height(),
                w == self.spec_width(),
                target == rot90(self@, h as nat, w as nat),
                i <= w,
                v@.len() == flat(i as int, 0, h as int),
                forall|a: int, b: int|
                    0 <= a < i && 0 <= b < h ==> v@[#[trigger] flat(a, b, h as int)] == target[a][b],
            decreases w - i,
        {
            let mut j: usize = 0;
            while j < h
                invariant
                    self.wf(),
                    h == self.spec_height(),
                    w == self.spec_width(),
                    target == rot90(self@, h as nat, w as nat),
                    i < w,
                    j <= h,
                    v@.len() == flat(i as int, j as int, h as int),
                    forall|a: int, b: int|
                        0 <= a < i && 0 <= b < h ==> v@[#[trigger] flat(a, b, h as int)]
                            == target[a][b],
                    forall|b: int| 0 <= b < j ==> v@[#[trigger] flat(i as int, b, h as int)] == target[i as int][b],
                decreases h - j,
            {
                let c = self.get(h - 1 - j, i);
                proof {
                    assert forall|a: int, b: int| 0 <= a < i && 0 <= b < h implies flat(a, b, h as int) < v@.len() by {
                        lemma_flat_order(a, b, i as int, h as int);
                    }
                }
                v.push(c);
                j = j + 1;
            }
            proof {
                lemma_flat_next(i as int, h as int);
            }
            i = i + 1;
        }
        proof {
            assert(h * w == w * h) by (nonlinear_arith);
            assert(is_rect(target, w as int, h as int));
        }
        Mask::from_flat(w, h, v, Ghost(target))
    }
}

impl Mask {
    /// A mask equal to this one.
    pub fn copy(&self) -> (r: Mask)
        ensures
            r.same(self),
    {
        proof {
            use_type_invariant(self);
        }
        Mask { height: self.height, width: self.width, cells: self.cells.copy() }
    }

    /// The mask after `num` quarter turns clockwise.
    pub fn rotate(&self, num: usize) -> (r: Mask)
        ensures
            (r.spec_height(), r.spec_width()) == turned_dims(
                self.spec_height(),
                self.spec_width(),
                num as nat,
            ),
            r@ == turned(self@, self.spec_height(), self.spec_width(), num as nat),
    {
        let mut m = self.copy();
        let mut k: usize = 0;
        while k < num
            invariant
                k <= num,
                (m.spec_height(), m.spec_width()) == turned_dims(
                    self.spec_height(),
                    self.spec_width(),
                    k as nat,
                ),
                m@ == turned(self@, self.spec_height(), self.spec_width(), k as nat),
            decreases num - k,
        {
            m = m.rotate90();
            k = k + 1;
        }
        m
    }

    /// Whether row `i` has an occupied cell.
    fn row_occupied(&self, i: usize) -> (r: bool)
        requires
            i < self.spec_height(),
        ensures
            r == row_has(self@, self.spec_width() as int, i as int),
    {
        let (h, w) = self.dims();
        let mut j: usize = 0;
        while j < w
            invariant
                self.wf(),
                h == self.spec_height(),
                w == self.spec_width(),
                i < h,
                j <= w,
                forall|k: int| 0 <= k < j ==> !self@[i as int][k],
            decreases w - j,
        {
            if self.get(i, j) {
                return true;
            }
            j = j + 1;
        }
        false
    }

    /// Whether column `j` has an occupied cell.
    fn col_occupied(&self, j: usize) -> (r: bool)
        requires
            j < self.spec_width(),
        ensures
            r == col_has(self@, self.spec_height() as int, j as int),
    {
        let (h, w) = self.dims();
        let mut i: usize = 0;
        while i < h
            invariant
                self.wf(),
                h == self.spec_height(),
                w == self.spec_width(),
                j < w,
                i <= h,
                forall|k: int| 0 <= k < i ==> !self@[k][j as int],
            decreases h - i,
        {
            if self.get(i, j) {
                return true;
            }
            i = i + 1;
        }
        false
    }

    /// The first occupied row, or the height where there is none.
    fn first_occupied_row(&self) -> (r: usize)
        ensures
            r <= self.spec_height(),
            forall|k: int| 0 <= k < r ==> !row_has(self@, self.spec_width() as int, k),
            r < self.spec_height() ==> row_has(self@, self.spec_width() as int, r as int),
    {
        let (h, _w) = self.dims();
        let mut i: usize = 0;
        while i < h
            invariant
                h == self.spec_height(),
                i <= h,
                forall|k: int| 0 <= k < i ==> !row_has(self@, self.spec_width() as int, k),
            ensures
                i <= h,
                forall|k: int| 0 <= k < i ==> !row_has(self@, self.spec_width() as int, k),
                i < h ==> row_has(self@, self.spec_width() as int, i as int),
            decreases h - i,
        {
            if self.row_occupied(i) {
                break;
            }
            i = i + 1;
        }
        i
    }

    /// One past the last occupied row, or zero where there is none.
    fn last_occupied_row(&self) -> (r: usize)
        ensures
            r <= self.spec_height(),
            forall|k: int| r <= k < self.spec_height() ==> !row_has(self@, self.spec_width() as int, k),
            r > 0 ==> row_has(self@, self.spec_width() as int, r - 1),
    {
        let (h, _w) = self.dims();
        let mut i: usize = h;
        while i > 0
            invariant
                h == self.spec_height(),
                i <= h,
                forall|k: int| i <= k < h ==> !row_has(self@, self.spec_width() as int, k),
            ensures
                i <= h,
                forall|k: int| i <= k < h ==> !row_has(self@, self.spec_width() as int, k),
                i > 0 ==> row_has(self@, self.spec_width() as int, i - 1),
            decreases i,
        {
            if self.row_occupied(i - 1) {
                break;
            }
            i = i - 1;
        }
        i
    }

    /// The first occupied column, or the width where there is none.
    fn first_occupied_col(&self) -> (r: usize)
        ensures
            r <= self.spec_width(),
            forall|k: int| 0 <= k < r ==> !col_has(self@, self.spec_height() as int, k),
            r < self.spec_width() ==> col_has(self@, self.spec_height() as int, r as int),
    {
        let (_h, w) = self.dims();
        let mut j: usize = 0;
        while j < w
            invariant
                w == self.spec_width(),
                j <= w,
                forall|k: int| 0 <= k < j ==> !col_has(self@, self.spec_height() as int, k),
            ensures
                j <= w,
                forall|k: int| 0 <= k < j ==> !col_has(self@, self.spec_height() as int, k),
                j < w ==> col_has(self@, self.spec_height() as int, j as int),
            decreases w - j,
        {
            if self.col_occupied(j) {
                break;
            }
            j = j + 1;
        }
        j
    }

    /// One past the last occupied column, or zero where there is none.
    fn last_occupied_col(&self) -> (r: usize)
        ensures
            r <= self.spec_width(),
            forall|k: int| r <= k < self.spec_width() ==> !col_has(self@, self.spec_height() as int, k),
            r > 0 ==> col_has(self@, self.spec_height() as int, r - 1),
    {
        let (_h, w) = self.dims();
        let mut j: usize = w;
        while j > 0
            invariant
                w == self.spec_width(),
                j <= w,
                forall|k: int| j <= k < w ==> !col_has(self@, self.spec_height() as int, k),
            ensures
                j <= w,
                forall|k: int| j <= k < w ==> !col_has(self@, self.spec_height() as int, k),
                j > 0 ==> col_has(self@, self.spec_height() as int, j - 1),
            decreases j,
        {
            if self.col_occupied(j - 1) {
                break;
            }
            j = j - 1;
        }
        j
    }
}

impl Mask {
    /// The cells in rows `top..bottom` and columns `left..right`.
    fn window(&self, top: usize, bottom: usize, left: usize, right: usize) -> (r: Mask)
        requires
            top <= bottom <= self.spec_height(),
            left <= right <= self.spec_width(),
        ensures
            r.spec_height() == bottom - top,
            r.spec_width() == right - left,
            r@ == sub_rect(self@, top as int, bottom as int, left as int, right as int),
    {
        let (h, w) = self.dims();
        let nh = bottom - top;
        let nw = right - left;
        let ghost target = sub_rect(self@, top as int, bottom as int, left as int, right as int);
        let mut v: Vec<bool> = Vec::new();
        let mut i: usize = 0;
        while i < nh
            invariant
                self.wf(),
                h == self.spec_height(),
                w == self.spec_width(),
                top <= bottom <= h,
                left <= right <= w,
                nh == bottom - top,
                nw == right - left,
                target == sub_rect(self@, top as int, bottom as int, left as int, right as int),
                i <= nh,
                v@.len() == flat(i as int, 0, nw as int),
                forall|a: int, b: int|
                    0 <= a < i && 0 <= b < nw ==> v@[#[trigger] flat(a, b, nw as int)] == target[a][b],
            decreases nh - i,
        {
            let mut j: usize = 0;
            while j < nw
                invariant
                    self.wf(),
                    h == self.spec_height(),
                    w == self.spec_width(),
                    top <= bottom <= h,
                    left <= right <= w,
                    nh == bottom - top,
                    nw == right - left,
                    target == sub_rect(self@, top as int, bottom as int, left as int, right as int),
                    i < nh,
                    j <= nw,
                    v@.len() == flat(i as int, j as int, nw as int),
                    forall|a: int, b: int|
                        0 <= a < i && 0 <= b < nw ==> v@[#[trigger] flat(a, b, nw as int)]
                            == target[a][b],
                    forall|b: int|
                        0 <= b < j ==> v@[#[trigger] flat(i as int, b, nw as int)]
                            == target[i as int][b],
                decreases nw - j,
            {
                let c = self.get(top + i, left + j);
                proof {
                    assert forall|a: int, b: int|
                        0 <= a < i && 0 <= b < nw implies flat(a, b, nw as int) < v@.len() by {
                        lemma_flat_order(a, b, i as int, nw as int);
                    }
                }
                v.push(c);
                j = j + 1;
            }
            proof {
                lemma_flat_next(i as int, nw as int);
            }
            i = i + 1;
        }
        proof {
            assert(nh * nw <= h * w) by (nonlinear_arith)
                requires
                    nh <= h,
                    nw <= w,
            ;
            assert(is_rect(target, nh as int, nw as int));
        }
        Mask::from_flat(nh, nw, v, Ghost(target))
    }

    /// The mask cut down to the smallest box that holds all its occupied
    /// cells; a mask with none stays whole.
    pub fn trimmed(&self) -> (r: Mask)
        ensures
            (r.spec_height() as int, r.spec_width() as int) == trim_dims(
                self@,
                self.spec_height() as int,
                self.spec_width() as int,
            ),
            r@ == trim(self@, self.spec_height() as int, self.spec_width() as int),
    {
        let (h, w) = self.dims();
        let ghost rows = self@;
        let top = self.first_occupied_row();
        if top == h {
            assert(!any_set(rows, h as int, w as int)) by {
                if any_set(rows, h as int, w as int) {
                    let (i, j) = choose|i: int, j: int| 0 <= i < h && 0 <= j < w && #[trigger] rows[i][j];
                    assert(row_has(rows, w as int, i));
                }
            }
            return self.window(0, h, 0, w);
        }
        let bottom = self.last_occupied_row();
        let left = self.first_occupied_col();
        let right = self.last_occupied_col();
        proof {
            let j0 = choose|j: int| 0 <= j < w && #[trigger] rows[top as int][j];
            assert(any_set(rows, h as int, w as int));
            assert(col_has(rows, h as int, j0));
            assert(top < bottom);
            assert(left <= j0 < right);
            assert(is_first_row(rows, h as int, w as int, top as int));
            assert(is_last_row(rows, h as int, w as int, bottom - 1));
            assert(is_first_col(rows, h as int, w as int, left as int));
            assert(is_last_col(rows, h as int, w as int, right - 1));
            let t = choose|t: int| is_first_row(rows, h as int, w as int, t);
            let b = choose|b: int| is_last_row(rows, h as int, w as int, b);
            let l = choose|l: int| is_first_col(rows, h as int, w as int, l);
            let r = choose|r: int| is_last_col(rows, h as int, w as int, r);
            assert(t == top);
            assert(b == bottom - 1);
            assert(l == left);
            assert(r == right - 1);
        }
        self.window(top, bottom, left, right)
    }
}

impl Clone for Mask {
    fn clone(&self) -> Self {
        self.copy()
    }
}

impl PartialEq for Mask {
    fn eq(&self, other: &Mask) -> bool {
        proof {
            use_type_invariant(self);
            use_type_invariant(other);
        }
        if self.height != other.height || self.width != other.width {
            return false;
        }
        if self.height == 0 || self.width == 0 {
            assert(self@ =~~= other@) by {
                assert forall|i: int| 0 <= i < self.height implies self@[i] =~= other@[i] by {}
            }
            return true;
        }
        self.cells.same_as(&other.cells)
    }
}

impl vstd::std_specs::cmp::PartialEqSpecImpl for Mask {
    open spec fn obeys_eq_spec() -> bool {
        true
    }

    open spec fn eq_spec(&self, other: &Mask) -> bool {
        self.same(other)
    }
}

/// Four quarter turns bring every mask back to itself, cell for cell and
/// with the same dimensions.
pub proof fn lemma_four_turns(rows: Seq<Seq<bool>>, h: nat, w: nat)
    requires
        is_rect(rows, h as int, w as int),
    ensures
        turned_dims(h, w, 4) == (h, w),
        turned(rows, h, w, 4) == rows,
{
    let r1 = turned(rows, h, w, 1);
    let r2 = turned(rows, h, w, 2);
    let r3 = turned(rows, h, w, 3);
    let r4 = turned(rows, h, w, 4);
    reveal_with_fuel(turned, 5);
    assert(r1 == rot90(rows, h, w));
    assert(r2 == rot90(r1, w, h));
    assert(r3 == rot90(r2, h, w));
    assert(r4 == rot90(r3, w, h));
    assert forall|i: int, j: int| 0 <= i < h && 0 <= j < w implies r2[i][j] == rows[h - 1 - i][w - 1 - j] by {}
    assert forall|i: int, j: int| 0 <= i < w && 0 <= j < h implies r3[i][j] == rows[j][w - 1 - i] by {}
    assert(r4 =~~= rows) by {
        assert forall|i: int| 0 <= i < h implies r4[i] =~= rows[i] by {
            assert forall|j: int| 0 <= j < w implies r4[i][j] == rows[i][j] by {
                assert(r4[i][j] == r3[w - 1 - j][i]);
            }
        }
    }
}

/// Trimming a trimmed mask changes nothing.
pub proof fn lemma_trim_idempotent(rows: Seq<Seq<bool>>, h: int, w: int)
    requires
        h >= 0,
        w >= 0,
        is_rect(rows, h, w),
    ensures
        ({
            let d = trim_dims(rows, h, w);
            let t = trim(rows, h, w);
            trim_dims(t, d.0, d.1) == d && trim(t, d.0, d.1) == t
        }),
{
    let bx = trim_box(rows, h, w);
    let d = trim_dims(rows, h, w);
    let t = trim(rows, h, w);
    if !any_set(rows, h, w) {
        assert(t =~~= rows) by {
            assert forall|i: int| 0 <= i < h implies t[i] =~= rows[i] by {}
        }
    } else {
        let (i0, j0) = choose|i: int, j: int| 0 <= i < h && 0 <= j < w && #[trigger] rows[i][j];
        assert(row_has(rows, w, i0));
        assert(col_has(rows, h, j0));
        let top = choose|x: int| is_first_row(rows, h, w, x);
        let bot = choose|x: int| is_last_row(rows, h, w, x);
        let left = choose|x: int| is_first_col(rows, h, w, x);
        let right = choose|x: int| is_last_col(rows, h, w, x);
        assert(exists|x: int| is_first_row(rows, h, w, x)) by {
            lemma_first_exists(rows, h, w, i0);
        }
        assert(exists|x: int| is_last_row(rows, h, w, x)) by {
            lemma_last_exists(rows, h, w, i0);
        }
        assert(exists|x: int| is_first_col(rows, h, w, x)) by {
            lemma_first_col_exists(rows, h, w, j0);
        }
        assert(exists|x: int| is_last_col(rows, h, w, x)) by {
            lemma_last_col_exists(rows, h, w, j0);
        }
        assert(bx == (top, bot + 1, left, right + 1));
        let th = bot + 1 - top;
        let tw = right + 1 - left;
        // an occupied cell in each bounding row and column lies inside the box
        let ja = choose|j: int| 0 <= j < w && #[trigger] rows[top][j];
        assert(col_has(rows, h, ja));
        let jb = choose|j: int| 0 <= j < w && #[trigger] rows[bot][j];
        assert(col_has(rows, h, jb));
        let ia = choose|i: int| 0 <= i < h && #[trigger] rows[i][left];
        assert(row_has(rows, w, ia));
        let ib = choose|i: int| 0 <= i < h && #[trigger] rows[i][right];
        assert(row_has(rows, w, ib));
        assert(t[0][ja - left]);
        assert(t[th - 1][jb - left]);
        assert(t[ia - top][0]);
        assert(t[ib - top][tw - 1]);
        assert(any_set(t, th, tw));
        assert(is_first_row(t, th, tw, 0));
        assert(is_last_row(t, th, tw, th - 1));
        assert(is_first_col(t, th, tw, 0));
        assert(is_last_col(t, th, tw, tw - 1));
        let t0 = choose|x: int| is_first_row(t, th, tw, x);
        let t1 = choose|x: int| is_last_row(t, th, tw, x);
        let t2 = choose|x: int| is_first_col(t, th, tw, x);
        let t3 = choose|x: int| is_last_col(t, th, tw, x);
        assert(t0 == 0);
        assert(t1 == th - 1);
        assert(t2 == 0);
        assert(t3 == tw - 1);
        assert(trim(t, th, tw) =~~= t) by {
            assert forall|i: int| 0 <= i < th implies trim(t, th, tw)[i] =~= t[i] by {}
        }
    }
}

/// A mask that is the trimmed form of another is its own trimmed form:
/// trimming it again keeps its dimensions and its cells.
pub proof fn lemma_trimmed_mask_idempotent(m: Mask, t: Mask)
    requires
        m.wf(),
        (t.spec_height() as int, t.spec_width() as int) == trim_dims(
            m@,
            m.spec_height() as int,
            m.spec_width() as int,
        ),
        t@ == trim(m@, m.spec_height() as int, m.spec_width() as int),
    ensures
        trim_dims(t@, t.spec_height() as int, t.spec_width() as int) == (
            t.spec_height() as int,
            t.spec_width() as int,
        ),
        trim(t@, t.spec_height() as int, t.spec_width() as int) == t@,
{
    lemma_trim_idempotent(m@, m.spec_height() as int, m.spec_width() as int);
}

proof fn lemma_first_exists(rows: Seq<Seq<bool>>, h: int, w: int, i: int)
    requires
        0 <= i < h,
        row_has(rows, w, i),
    ensures
        exists|x: int| is_first_row(rows, h, w, x),
    decreases i,
{
    if forall|k: int| 0 <= k < i ==> !row_has(rows, w, k) {
        assert(is_first_row(rows, h, w, i));
    } else {
        let k = choose|k: int| 0 <= k < i && row_has(rows, w, k);
        lemma_first_exists(rows, h, w, k);
    }
}

proof fn lemma_last_exists(rows: Seq<Seq<bool>>, h: int, w: int, i: int)
    requires
        0 <= i < h,
        row_has(rows, w, i),
    ensures
        exists|x: int| is_last_row(rows, h, w, x),
    decreases h - i,
{
    if forall|k: int| i < k < h ==> !row_has(rows, w, k) {
        assert(is_last_row(rows, h, w, i));
    } else {
        let k = choose|k: int| i < k < h && row_has(rows, w, k);
        lemma_last_exists(rows, h, w, k);
    }
}

proof fn lemma_first_col_exists(rows: Seq<Seq<bool>>, h: int, w: int, j: int)
    requires
        0 <= j < w,
        col_has(rows, h, j),
    ensures
        exists|x: int| is_first_col(rows, h, w, x),
    decreases j,
{
    if forall|k: int| 0 <= k < j ==> !col_has(rows, h, k) {
        assert(is_first_col(rows, h, w, j));
    } else {
        let k = choose|k: int| 0 <= k < j && col_has(rows, h, k);
        lemma_first_col_exists(rows, h, w, k);
    }
}

proof fn lemma_last_col_exists(rows: Seq<Seq<bool>>, h: int, w: int, j: int)
    requires
        0 <= j < w,
        col_has(rows, h, j),
    ensures
        exists|x: int| is_last_col(rows, h, w, x),
    decreases w - j,
{
    if forall|k: int| j < k < w ==> !col_has(rows, h, k) {
        assert(is_last_col(rows, h, w, j));
    } else {
        let k = choose|k: int| j < k < w && col_has(rows, h, k);
        lemma_last_col_exists(rows, h, w, k);
    }
}

} // verus!
