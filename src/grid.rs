//! The board: which cells are free, forbidden, or covered by a placed part,
//! and the all-or-nothing placement of one mask onto it.

use crate::array::{cell_rows, is_rect, shape_fits, CellArray};
use crate::mask::Mask;
use vstd::prelude::*;

verus! {

/// What a board cell holds.
#[derive(Clone, Copy, Debug, PartialEq, Eq, Structural)]
pub enum Cell {
    Empty,
    /// Covered by the part placed for this requirement.
    Placed(usize),
    /// Outside the usable area.
    Forbidden,
}

/// Where a mask's top-left corner goes on the board; either coordinate may
/// be negative.
#[derive(Clone, Copy, Debug, PartialEq, Eq, Structural)]
pub struct Position {
    pub x: isize,
    pub y: isize,
}

/// The board's dimensions, whether its four corners are out of bounds, and
/// which row is the command line.
#[derive(Clone, Copy, Debug, PartialEq, Eq, Structural)]
pub struct GridSettings {
    pub height: usize,
    pub width: usize,
    pub has_oob: bool,
    pub command_line_row: usize,
}

/// Why a placement was rejected.
#[derive(Clone, Copy, Debug, PartialEq, Eq, Structural)]
pub enum PlaceError {
    /// The mask's dimensions differ from the board's.
    ShapesMismatched {
        grid_height: usize,
        grid_width: usize,
        mask_height: usize,
        mask_width: usize,
    },
    /// An occupied cell of the mask would land on a cell that is not empty.
    DestinationClobbered,
    /// An occupied cell of the mask would land off the board.
    SourceClipped,
}

impl GridSettings {
    /// A board of these dimensions can be built.
    pub open spec fn fits(&self) -> bool {
        &&& shape_fits(self.height as int, self.width as int)
        &&& self.has_oob ==> self.height > 0 && self.width > 0
    }

    /// The board can be built, and where either flag asks about the
    /// command line, the command line is one of its rows.
    pub open spec fn ready_for(&self, on_command_line: Option<bool>, bugged: Option<bool>) -> bool {
        &&& self.fits()
        &&& (on_command_line.is_some() || bugged.is_some()) ==> self.command_line_row < self.height
    }
}

/// Row `r`, column `c` is one of the four corners of an `h` by `w` board.
pub open spec fn is_corner(r: int, c: int, h: int, w: int) -> bool {
    (r == 0 || r == h - 1) && (c == 0 || c == w - 1)
}

/// The cells of a new board: forbidden corners when `has_oob`, all else
/// empty.
pub open spec fn fresh_board(s: GridSettings) -> Seq<Seq<Cell>> {
    Seq::new(
        s.height as nat,
        |r: int|
            Seq::new(
                s.width as nat,
                |c: int|
                    if s.has_oob && is_corner(r, c, s.height as int, s.width as int) {
                        Cell::Forbidden
                    } else {
                        Cell::Empty
                    },
            ),
    )
}

/// Board cell `r`, `c` lies under an occupied cell of `mask` (`mh` by
/// `mw`) placed at `pos`.
pub open spec fn covers(mask: Seq<Seq<bool>>, mh: int, mw: int, pos: Position, r: int, c: int) -> bool {
    &&& 0 <= r - pos.y < mh
    &&& 0 <= c - pos.x < mw
    &&& mask[r - pos.y][c - pos.x]
}

/// Some occupied cell of `mask` at `pos` would fall off an `h` by `w` board.
pub open spec fn clipped(mask: Seq<Seq<bool>>, mh: int, mw: int, pos: Position, h: int, w: int) -> bool {
    exists|y: int, x: int|
        0 <= y < mh && 0 <= x < mw && #[trigger] mask[y][x] && !(0 <= y + pos.y < h && 0 <= x
            + pos.x < w)
}

/// Some cell of `board` under `mask` at `pos` is not empty.
pub open spec fn clobbers(
    board: Seq<Seq<Cell>>,
    h: int,
    w: int,
    mask: Seq<Seq<bool>>,
    mh: int,
    mw: int,
    pos: Position,
) -> bool {
    exists|r: int, c: int|
        0 <= r < h && 0 <= c < w && covers(mask, mh, mw, pos, r, c) && #[trigger] board[r][c]
            != Cell::Empty
}

/// `board` with every cell under `mask` at `pos` set to `Placed(idx)`.
pub open spec fn stamped(
    board: Seq<Seq<Cell>>,
    h: int,
    w: int,
    mask: Seq<Seq<bool>>,
    mh: int,
    mw: int,
    pos: Position,
    idx: usize,
) -> Seq<Seq<Cell>> {
    Seq::new(
        h as nat,
        |r: int|
            Seq::new(
                w as nat,
                |c: int|
                    if covers(mask, mh, mw, pos, r, c) {
                        Cell::Placed(idx)
                    } else {
                        board[r][c]
                    },
            ),
    )
}

/// The verdict on placing `mask` (`mh` by `mw`) at `pos` on `board` (`h`
/// by `w`): first the dimensions, then clipping, then overlap.
pub open spec fn place_verdict(
    board: Seq<Seq<Cell>>,
    h: usize,
    w: usize,
    mask: Seq<Seq<bool>>,
    mh: usize,
    mw: usize,
    pos: Position,
) -> Result<(), PlaceError> {
    if mh != h || mw != w {
        Err(
            PlaceError::ShapesMismatched {
                grid_height: h,
                grid_width: w,
                mask_height: mh,
                mask_width: mw,
            },
        )
    } else if clipped(mask, mh as int, mw as int, pos, h as int, w as int) {
        Err(PlaceError::SourceClipped)
    } else if clobbers(board, h as int, w as int, mask, mh as int, mw as int, pos) {
        Err(PlaceError::DestinationClobbered)
    } else {
        Ok(())
    }
}

/// The board that parts are placed on.
#[derive(Debug)]
pub struct Grid {
    has_oob: bool,
    command_line_row: usize,
    height: usize,
    width: usize,
    cells: CellArray,
}

impl View for Grid {
    type V = Seq<Seq<Cell>>;

    /// The cells, row by row.
    closed spec fn view(&self) -> Seq<Seq<Cell>> {
        cell_rows(self.cells)
    }
}

impl Grid {
    /// The settings the board was made with.
    pub closed spec fn spec_settings(&self) -> GridSettings {
        GridSettings {
            height: self.height,
            width: self.width,
            has_oob: self.has_oob,
            command_line_row: self.command_line_row,
        }
    }

    #[verifier::type_invariant]
    spec fn inv(&self) -> bool {
        self.wf()
    }

    /// The cells form a rectangle of the settings' dimensions.
    pub open spec fn wf(&self) -> bool {
        is_rect(self@, self.spec_settings().height as int, self.spec_settings().width as int)
            && shape_fits(self.spec_settings().height as int, self.spec_settings().width as int)
    }

    /// A board with every cell empty, except the four corners when
    /// `has_oob`, which are forbidden.
    pub fn new(settings: &GridSettings) -> (r: Grid)
        requires
            settings.fits(),
        ensures
            r.spec_settings() == *settings,
            r@ == fresh_board(*settings),
    {
        let h = settings.height;
        let w = settings.width;
        let mut cells = CellArray::filled(h, w, Cell::Empty);
        if settings.has_oob {
            cells.set(0, 0, Cell::Forbidden);
            cells.set(0, w - 1, Cell::Forbidden);
            cells.set(h - 1, 0, Cell::Forbidden);
            cells.set(h - 1, w - 1, Cell::Forbidden);
        }
        assert(cell_rows(cells) =~~= fresh_board(*settings)) by {
            assert forall|r: int| 0 <= r < h implies cell_rows(cells)[r] =~= fresh_board(
                *settings,
            )[r] by {}
        }
        Grid {
            has_oob: settings.has_oob,
            command_line_row: settings.command_line_row,
            height: h,
            width: w,
            cells,
        }
    }

    /// The settings the board was made with.
    pub fn settings(&self) -> (r: GridSettings)
        ensures
            r == self.spec_settings(),
            self.wf(),
    {
        proof {
            use_type_invariant(self);
        }
        GridSettings {
            height: self.height,
            width: self.width,
            has_oob: self.has_oob,
            command_line_row: self.command_line_row,
        }
    }

    /// The cell at row `y`, column `x`.
    pub fn cell(&self, y: usize, x: usize) -> (r: Cell)
        requires
            y < self.spec_settings().height,
            x < self.spec_settings().width,
        ensures
            r == self@[y as int][x as int],
    {
        proof {
            use_type_invariant(self);
        }
        self.cells.get(y, x)
    }

    /// The cells, row by row.
    pub fn rows(&self) -> (r: Vec<Vec<Cell>>)
        ensures
            r@.len() == self@.len(),
            forall|i: int| 0 <= i < r@.len() ==> (#[trigger] r@[i])@ == self@[i],
    {
        proof {
            use_type_invariant(self);
        }
        let mut out: Vec<Vec<Cell>> = Vec::new();
        let mut y: usize = 0;
        while y < self.height
            invariant
                self.wf(),
                y <= self.height,
                out@.len() == y,
                forall|i: int| 0 <= i < y ==> (#[trigger] out@[i])@ == self@[i],
            decreases self.height - y,
        {
            let mut row: Vec<Cell> = Vec::new();
            let mut x: usize = 0;
            while x < self.width
                invariant
                    self.wf(),
                    y < self.height,
                    x <= self.width,
                    row@ == self@[y as int].take(x as int),
                decreases self.width - x,
            {
                row.push(self.cells.get(y, x));
                assert(row@ =~= self@[y as int].take(x + 1));
                x = x + 1;
            }
            assert(row@ =~= self@[y as int]);
            out.push(row);
            y = y + 1;
        }
        out
    }

    /// A board equal to this one.
    pub fn copy(&self) -> (r: Grid)
        ensures
            r.spec_settings() == self.spec_settings(),
            r@ == self@,
    {
        proof {
            use_type_invariant(self);
        }
        Grid {
            has_oob: self.has_oob,
            command_line_row: self.command_line_row,
            height: self.height,
            width: self.width,
            cells: self.cells.copy(),
        }
    }
}

impl Grid {
    /// Whether board cell `r`, `c` lies under an occupied cell of `mask` at
    /// `pos`.
    fn covers_at(mask: &Mask, pos: Position, r: usize, c: usize) -> (b: bool)
        ensures
            b == covers(mask@, mask.spec_height() as int, mask.spec_width() as int, pos, r as int, c as int),
    {
        let (mh, mw) = mask.dims();
        let my = r as i128 - pos.y as i128;
        let mx = c as i128 - pos.x as i128;
        if my < 0 || my >= mh as i128 || mx < 0 || mx >= mw as i128 {
            return false;
        }
        mask.get(my as usize, mx as usize)
    }

    /// Places `mask` with its top-left corner at `pos`, marking each cell
    /// under an occupied mask cell as placed for `requirement_index`. The
    /// board must have the mask's dimensions, no occupied cell may fall
    /// off the board, and every cell it covers must be empty; otherwise
    /// the board is left exactly as it was.
    pub fn place(&mut self, mask: &Mask, pos: Position, requirement_index: usize) -> (r: Result<
        (),
        PlaceError,
    >)
        ensures
            final(self).spec_settings() == old(self).spec_settings(),
            r == place_verdict(
                old(self)@,
                old(self).spec_settings().height,
                old(self).spec_settings().width,
                mask@,
                mask.spec_height() as usize,
                mask.spec_width() as usize,
                pos,
            ),
            r.is_ok() ==> final(self)@ == stamped(
                old(self)@,
                old(self).spec_settings().height as int,
                old(self).spec_settings().width as int,
                mask@,
                mask.spec_height() as int,
                mask.spec_width() as int,
                pos,
                requirement_index,
            ),
            r.is_err() ==> final(self)@ == old(self)@,
    {
        proof {
            use_type_invariant(&*self);
        }
        let ghost before = self@;
        let (mh, mw) = mask.dims();
        let h = self.height;
        let w = self.width;
        if mh != h || mw != w {
            return Err(
                PlaceError::ShapesMismatched {
                    grid_height: h,
                    grid_width: w,
                    mask_height: mh,
                    mask_width: mw,
                },
            );
        }
        let ghost m = mask@;
        // Every occupied mask cell must land on the board.

        let mut y: usize = 0;
        while y < mh
            invariant
                mask.wf(),
                m == mask@,
                before == old(self)@,
                mh == h,
                mw == w,
                h == old(self).spec_settings().height,
                w == old(self).spec_settings().width,
                mh == mask.spec_height(),
                mw == mask.spec_width(),
                y <= mh,
                forall|a: int, b: int|
                    0 <= a < y && 0 <= b < mw && #[trigger] m[a][b] ==> (0 <= a + pos.y < h && 0
                        <= b + pos.x < w),
            decreases mh - y,
        {
            let mut x: usize = 0;
            while x < mw
                invariant
                    mask.wf(),
                    m == mask@,
                    before == old(self)@,
                    mh == h,
                    mw == w,
                    h == old(self).spec_settings().height,
                    w == old(self).spec_settings().width,
                    mh == mask.spec_height(),
                    mw == mask.spec_width(),
                    y < mh,
                    x <= mw,
                    forall|a: int, b: int|
                        0 <= a < y && 0 <= b < mw && #[trigger] m[a][b] ==> (0 <= a + pos.y < h
                            && 0 <= b + pos.x < w),
                    forall|b: int|
                        0 <= b < x && #[trigger] m[y as int][b] ==> (0 <= y + pos.y < h && 0 <= b
                            + pos.x < w),
                decreases mw - x,
            {
                if mask.get(y, x) {
                    let ty = y as i128 + pos.y as i128;
                    let tx = x as i128 + pos.x as i128;
                    if ty < 0 || ty >= h as i128 || tx < 0 || tx >= w as i128 {
                        assert(m[y as int][x as int]);
                        assert(clipped(m, mh as int, mw as int, pos, h as int, w as int));
                        return Err(PlaceError::SourceClipped);
                    }
                }
                x = x + 1;
            }
            y = y + 1;
        }
        assert(!clipped(m, mh as int, mw as int, pos, h as int, w as int));
        // Every covered board cell must be empty.
        let mut r: usize = 0;
        while r < h
            invariant
                self.wf(),
                self@ == before,
                !clipped(m, mh as int, mw as int, pos, h as int, w as int),
                self.spec_settings().height == h,
                self.spec_settings().width == w,
                m == mask@,
                before == old(self)@,
                mh == h,
                mw == w,
                h == old(self).spec_settings().height,
                w == old(self).spec_settings().width,
                mh == mask.spec_height(),
                mw == mask.spec_width(),
                r <= h,
                forall|a: int, b: int|
                    0 <= a < r && 0 <= b < w && covers(m, mh as int, mw as int, pos, a, b)
                        ==> #[trigger] before[a][b] == Cell::Empty,
            decreases h - r,
        {
            let mut c: usize = 0;
            while c < w
                invariant
                    self.wf(),
                    self@ == before,
                    !clipped(m, mh as int, mw as int, pos, h as int, w as int),
                !clipped(m, mh as int, mw as int, pos, h as int, w as int),
                    self.spec_settings().height == h,
                    self.spec_settings().width == w,
                    m == mask@,
                    before == old(self)@,
                    mh == h,
                    mw == w,
                    h == old(self).spec_settings().height,
                    w == old(self).spec_settings().width,
                    mh == mask.spec_height(),
                    mw == mask.spec_width(),
                    r < h,
                    c <= w,
                    forall|a: int, b: int|
                        0 <= a < r && 0 <= b < w && covers(m, mh as int, mw as int, pos, a, b)
                            ==> #[trigger] before[a][b] == Cell::Empty,
                    forall|b: int|
                        0 <= b < c && covers(m, mh as int, mw as int, pos, r as int, b)
                            ==> #[trigger] before[r as int][b] == Cell::Empty,
                decreases w - c,
            {
                if Self::covers_at(mask, pos, r, c) {
                    let cell = self.cells.get(r, c);
                    if !matches!(cell, Cell::Empty) {
                        assert(before[r as int][c as int] != Cell::Empty);
                        assert(clobbers(before, h as int, w as int, m, mh as int, mw as int, pos));
                        return Err(PlaceError::DestinationClobbered);
                    }
                }
                c = c + 1;
            }
            r = r + 1;
        }
        // Both checks passed: mark the covered cells.
        let ghost target = stamped(
            before,
            h as int,
            w as int,
            m,
            mh as int,
            mw as int,
            pos,
            requirement_index,
        );
        let mut cells = self.cells.copy();
        let mut r: usize = 0;
        while r < h
            invariant
                is_rect(cell_rows(cells), h as int, w as int),
                is_rect(before, h as int, w as int),
                shape_fits(h as int, w as int),
                m == mask@,
                before == old(self)@,
                mh == h,
                mw == w,
                h == old(self).spec_settings().height,
                w == old(self).spec_settings().width,
                mh == mask.spec_height(),
                mw == mask.spec_width(),
                r <= h,
                forall|a: int, b: int|
                    0 <= a < h && 0 <= b < w ==> #[trigger] cell_rows(cells)[a][b] == if a
                        < r && covers(m, mh as int, mw as int, pos, a, b) {
                        Cell::Placed(requirement_index)
                    } else {
                        before[a][b]
                    },
            decreases h - r,
        {
            let mut c: usize = 0;
            while c < w
                invariant
                    is_rect(cell_rows(cells), h as int, w as int),
                    is_rect(before, h as int, w as int),
                    shape_fits(h as int, w as int),
                    m == mask@,
                    before == old(self)@,
                    mh == h,
                    mw == w,
                    h == old(self).spec_settings().height,
                    w == old(self).spec_settings().width,
                    mh == mask.spec_height(),
                    mw == mask.spec_width(),
                    r < h,
                    c <= w,
                    forall|a: int, b: int|
                        0 <= a < h && 0 <= b < w ==> #[trigger] cell_rows(cells)[a][b] == if (
                        a < r || (a == r && b < c)) && covers(m, mh as int, mw as int, pos, a, b) {
                            Cell::Placed(requirement_index)
                        } else {
                            before[a][b]
                        },
                decreases w - c,
            {
                if Self::covers_at(mask, pos, r, c) {
                    cells.set(r, c, Cell::Placed(requirement_index));
                }
                c = c + 1;
            }
            r = r + 1;
        }
        assert(cell_rows(cells) =~~= target) by {
            assert forall|a: int| 0 <= a < h implies cell_rows(cells)[a] =~= target[a] by {}
        }
        self.cells = cells;
        Ok(())
    }
}

/// A placement that lands on a forbidden cell, and clips nowhere, is
/// rejected as clobbering, never as clipped.
pub proof fn lemma_forbidden_rejected(
    board: Seq<Seq<Cell>>,
    h: usize,
    w: usize,
    mask: Seq<Seq<bool>>,
    pos: Position,
    r: int,
    c: int,
)
    requires
        is_rect(board, h as int, w as int),
        0 <= r < h,
        0 <= c < w,
        board[r][c] == Cell::Forbidden,
        covers(mask, h as int, w as int, pos, r, c),
        !clipped(mask, h as int, w as int, pos, h as int, w as int),
    ensures
        place_verdict(board, h, w, mask, h, w, pos) == Err::<(), PlaceError>(
            PlaceError::DestinationClobbered,
        ),
{
    assert(board[r][c] != Cell::Empty);
}

/// A successful placement never overwrites a forbidden cell.
pub proof fn lemma_forbidden_kept(
    board: Seq<Seq<Cell>>,
    h: usize,
    w: usize,
    mask: Seq<Seq<bool>>,
    pos: Position,
    idx: usize,
    r: int,
    c: int,
)
    requires
        is_rect(board, h as int, w as int),
        0 <= r < h,
        0 <= c < w,
        board[r][c] == Cell::Forbidden,
        place_verdict(board, h, w, mask, h, w, pos).is_ok(),
    ensures
        stamped(board, h as int, w as int, mask, h as int, w as int, pos, idx)[r][c] == Cell::Forbidden,
{
    if covers(mask, h as int, w as int, pos, r, c) {
        assert(board[r][c] != Cell::Empty);
        assert(clobbers(board, h as int, w as int, mask, h as int, w as int, pos));
    }
}

/// A new board with out-of-bounds corners has exactly its four corners
/// forbidden.
pub proof fn lemma_fresh_corners(s: GridSettings, r: int, c: int)
    requires
        s.fits(),
        0 <= r < s.height,
        0 <= c < s.width,
    ensures
        (fresh_board(s)[r][c] == Cell::Forbidden) <==> (s.has_oob && is_corner(
            r,
            c,
            s.height as int,
            s.width as int,
        )),
{
}

} // verus!
