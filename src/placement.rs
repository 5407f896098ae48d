//! Where a single part may go: the admissible positions and rotations of
//! one mask on an otherwise empty board.

use crate::grid::{covers, fresh_board, place_verdict, Cell, Grid, GridSettings, Position};
use crate::mask::{trim, trim_dims, turned, turned_dims, Mask};
use vstd::prelude::*;

verus! {

/// A position together with the number of quarter turns applied to the
/// mask before it is placed.
#[derive(Clone, Copy, Debug, PartialEq, Eq, Structural)]
pub struct Location {
    pub position: Position,
    pub rotation: usize,
}

/// One concrete outcome for a requirement: where it goes and which of the
/// part's two masks is used.
#[derive(Clone, Copy, Debug, PartialEq, Eq, Structural)]
pub struct Placement {
    pub loc: Location,
    pub compressed: bool,
}

/// The flags a requirement may set on its placement.
#[derive(Clone, Copy, Debug, PartialEq, Eq, Structural)]
pub struct Constraint {
    /// Which mask to use; either when unset.
    pub compressed: Option<bool>,
    /// Whether the part must (or must not) touch the command line.
    pub on_command_line: Option<bool>,
    /// Whether the part is expected to be bugged.
    pub bugged: Option<bool>,
}

/// A request to place one copy of `parts[part_index]`.
#[derive(Clone, Copy, Debug, PartialEq, Eq, Structural)]
pub struct Requirement {
    pub part_index: usize,
    pub constraint: Constraint,
}

/// A placeable tile: whether it is solid, its color, and its compressed
/// and uncompressed masks.
#[derive(Clone, Debug)]
pub struct Part {
    pub is_solid: bool,
    pub color: usize,
    pub compressed_mask: Mask,
    pub uncompressed_mask: Mask,
}

/// `mask` at `pos` covers some cell of the outer ring of the board.
pub open spec fn touches_ring(mask: Seq<Seq<bool>>, mh: int, mw: int, pos: Position, h: int, w: int) -> bool {
    exists|r: int, c: int|
        0 <= r < h && 0 <= c < w && (r == 0 || r == h - 1 || c == 0 || c == w - 1) && #[trigger] covers(
            mask,
            mh,
            mw,
            pos,
            r,
            c,
        )
}

/// `mask` at `pos` covers some cell of board row `row`.
pub open spec fn touches_row(mask: Seq<Seq<bool>>, mh: int, mw: int, pos: Position, row: int, w: int) -> bool {
    exists|c: int| 0 <= c < w && #[trigger] covers(mask, mh, mw, pos, row, c)
}

/// Whether `mask` (`mh` by `mw`) alone may stand at `pos`: it fits on a
/// new board; when it must not be bugged on a board with out-of-bounds
/// corners, it stays off the outer ring; when either flag is set, it
/// touches the command line as `on_command_line` asks, and, when it must
/// not be bugged, exactly when the part is solid.
pub open spec fn admissible(
    mask: Seq<Seq<bool>>,
    mh: usize,
    mw: usize,
    pos: Position,
    solid: bool,
    s: GridSettings,
    on_command_line: Option<bool>,
    bugged: Option<bool>,
) -> bool {
    let on_line = touches_row(mask, mh as int, mw as int, pos, s.command_line_row as int, s.width as int);
    &&& place_verdict(fresh_board(s), s.height, s.width, mask, mh, mw, pos).is_ok()
    &&& !(bugged == Some(false) && s.has_oob && touches_ring(
        mask,
        mh as int,
        mw as int,
        pos,
        s.height as int,
        s.width as int,
    ))
    &&& (on_command_line.is_some() || bugged.is_some()) ==> {
        &&& (on_command_line matches Some(v) ==> v == on_line)
        &&& (bugged == Some(false) ==> solid == on_line)
    }
}

/// Some cell of row `row` of `board` holds `Placed(idx)`.
pub open spec fn row_holds(board: Seq<Seq<Cell>>, row: int, w: int, idx: usize) -> bool {
    exists|c: int| 0 <= c < w && #[trigger] board[row][c] == Cell::Placed(idx)
}

/// Some cell of column `col` of `board` holds `Placed(idx)`.
pub open spec fn col_holds(board: Seq<Seq<Cell>>, col: int, h: int, idx: usize) -> bool {
    exists|r: int| 0 <= r < h && #[trigger] board[r][col] == Cell::Placed(idx)
}

/// Whether row `row` of the board holds `Placed(idx)` somewhere.
fn row_has_placed(grid: &Grid, row: usize, idx: usize) -> (b: bool)
    requires
        row < grid.spec_settings().height,
    ensures
        b == row_holds(grid@, row as int, grid.spec_settings().width as int, idx),
{
    let s = grid.settings();
    let mut c: usize = 0;
    while c < s.width
        invariant
            s == grid.spec_settings(),
            grid.wf(),
            row < s.height,
            c <= s.width,
            forall|k: int| 0 <= k < c ==> grid@[row as int][k] != Cell::Placed(idx),
        decreases s.width - c,
    {
        if grid.cell(row, c) == Cell::Placed(idx) {
            return true;
        }
        c = c + 1;
    }
    false
}

/// Whether column `col` of the board holds `Placed(idx)` somewhere.
fn col_has_placed(grid: &Grid, col: usize, idx: usize) -> (b: bool)
    requires
        col < grid.spec_settings().width,
    ensures
        b == col_holds(grid@, col as int, grid.spec_settings().height as int, idx),
{
    let s = grid.settings();
    let mut r: usize = 0;
    while r < s.height
        invariant
            s == grid.spec_settings(),
            grid.wf(),
            col < s.width,
            r <= s.height,
            forall|k: int| 0 <= k < r ==> grid@[k][col as int] != Cell::Placed(idx),
        decreases s.height - r,
    {
        if grid.cell(r, col) == Cell::Placed(idx) {
            return true;
        }
        r = r + 1;
    }
    false
}

/// Whether `mask` alone may stand at `pos` on a board of `grid_settings`,
/// under the optional command-line and bug flags.
pub fn placement_is_admissible(
    mask: &Mask,
    pos: Position,
    part_is_solid: bool,
    grid_settings: &GridSettings,
    on_command_line: Option<bool>,
    bugged: Option<bool>,
) -> (r: bool)
    requires
        grid_settings.ready_for(on_command_line, bugged),
    ensures
        r == admissible(
            mask@,
            mask.spec_height() as usize,
            mask.spec_width() as usize,
            pos,
            part_is_solid,
            *grid_settings,
            on_command_line,
            bugged,
        ),
{
    let (mh, mw) = mask.dims();
    let mut grid = Grid::new(grid_settings);
    let h = grid_settings.height;
    let w = grid_settings.width;
    let ghost fresh = grid@;
    let ghost m = mask@;
    if grid.place(mask, pos, 0).is_err() {
        return false;
    }
    let ghost board = grid@;
    proof {
        assert forall|r: int, c: int| 0 <= r < h && 0 <= c < w implies (#[trigger] board[r][c]
            == Cell::Placed(0)) == covers(m, mh as int, mw as int, pos, r, c) by {}
    }
    if bugged == Some(false) && grid_settings.has_oob {
        let ring = row_has_placed(&grid, 0, 0) || col_has_placed(&grid, 0, 0) || row_has_placed(
            &grid,
            h - 1,
            0,
        ) || col_has_placed(&grid, w - 1, 0);
        proof {
            if ring {
                if row_holds(board, 0, w as int, 0) {
                    let c = choose|c: int| 0 <= c < w && #[trigger] board[0][c] == Cell::Placed(0);
                    assert(covers(m, mh as int, mw as int, pos, 0, c));
                } else if col_holds(board, 0, h as int, 0) {
                    let r = choose|r: int| 0 <= r < h && #[trigger] board[r][0] == Cell::Placed(0);
                    assert(covers(m, mh as int, mw as int, pos, r, 0));
                } else if row_holds(board, h - 1, w as int, 0) {
                    let c = choose|c: int| 0 <= c < w && #[trigger] board[h - 1][c] == Cell::Placed(0);
                    assert(covers(m, mh as int, mw as int, pos, h - 1, c));
                } else {
                    let r = choose|r: int| 0 <= r < h && #[trigger] board[r][w - 1] == Cell::Placed(0);
                    assert(covers(m, mh as int, mw as int, pos, r, w - 1));
                }
            } else {
                assert forall|r: int, c: int|
                    0 <= r < h && 0 <= c < w && (r == 0 || r == h - 1 || c == 0 || c == w - 1)
                        implies !covers(m, mh as int, mw as int, pos, r, c) by {
                    if r == 0 {
                        assert(!(board[0][c] == Cell::Placed(0)));
                    } else if r == h - 1 {
                        assert(!(board[h - 1][c] == Cell::Placed(0)));
                    } else if c == 0 {
                        assert(!(board[r][0] == Cell::Placed(0)));
                    } else {
                        assert(!(board[r][w - 1] == Cell::Placed(0)));
                    }
                }
            }
        }
        if ring {
            return false;
        }
    }
    if on_command_line.is_some() || bugged.is_some() {
        let on_line = row_has_placed(&grid, grid_settings.command_line_row, 0);
        proof {
            let row = grid_settings.command_line_row as int;
            if on_line {
                let c = choose|c: int| 0 <= c < w && #[trigger] board[row][c] == Cell::Placed(0);
                assert(covers(m, mh as int, mw as int, pos, row, c));
            } else {
                assert forall|c: int| 0 <= c < w implies !covers(m, mh as int, mw as int, pos, row, c) by {
                    assert(!(board[row][c] == Cell::Placed(0)));
                }
            }
        }
        if let Some(v) = on_command_line {
            if v != on_line {
                return false;
            }
        }
        if let Some(b) = bugged {
            if !b && part_is_solid != on_line {
                return false;
            }
        }
    }
    true
}

/// The admissible positions of `mask` (`mh` by `mw`) from row offset `y`,
/// column offset `x` on, in row-major order, where row offsets run up to
/// `mh - 1` and each row's column offsets run from `1 - mw` up to `mw - 1`.
pub open spec fn scan(
    mask: Seq<Seq<bool>>,
    mh: usize,
    mw: usize,
    solid: bool,
    s: GridSettings,
    on_command_line: Option<bool>,
    bugged: Option<bool>,
    y: int,
    x: int,
) -> Seq<Position>
    decreases mh - y, mw - x,
{
    if y >= mh {
        Seq::empty()
    } else if x >= mw {
        scan(mask, mh, mw, solid, s, on_command_line, bugged, y + 1, 1 - mw)
    } else {
        let p = Position { x: x as isize, y: y as isize };
        let rest = scan(mask, mh, mw, solid, s, on_command_line, bugged, y, x + 1);
        if admissible(mask, mh, mw, p, solid, s, on_command_line, bugged) {
            seq![p] + rest
        } else {
            rest
        }
    }
}

/// Every admissible position of `mask` whose offsets are both less than
/// the mask's size in magnitude, in row-major order.
pub open spec fn positions_of(
    mask: Seq<Seq<bool>>,
    mh: usize,
    mw: usize,
    solid: bool,
    s: GridSettings,
    on_command_line: Option<bool>,
    bugged: Option<bool>,
) -> Seq<Position> {
    scan(mask, mh, mw, solid, s, on_command_line, bugged, 1 - mh, 1 - mw)
}

/// The admissible positions of `mask`, row offsets from `1 - h` to `h - 1`
/// and column offsets from `1 - w` to `w - 1`, in row-major order.
pub fn placement_positions_for_mask(
    mask: &Mask,
    part_is_solid: bool,
    grid_settings: &GridSettings,
    on_command_line: Option<bool>,
    bugged: Option<bool>,
) -> (r: Vec<Position>)
    requires
        grid_settings.ready_for(on_command_line, bugged),
    ensures
        r@ == positions_of(
            mask@,
            mask.spec_height() as usize,
            mask.spec_width() as usize,
            part_is_solid,
            *grid_settings,
            on_command_line,
            bugged,
        ),
{
    let (mh, mw) = mask.dims();
    let ghost m = mask@;
    let ghost total = positions_of(m, mh, mw, part_is_solid, *grid_settings, on_command_line, bugged);
    let hi_y = mh as isize;
    let hi_x = mw as isize;
    let mut positions: Vec<Position> = Vec::new();
    let mut y: isize = 1 - hi_y;
    while y < hi_y
        invariant
            m == mask@,
            mh == mask.spec_height(),
            mw == mask.spec_width(),
            mask.wf(),
            hi_y == mh,
            hi_x == mw,
            grid_settings.ready_for(on_command_line, bugged),
            1 - hi_y <= y <= hi_y || (hi_y == 0 && y == 1),
            total == positions_of(m, mh, mw, part_is_solid, *grid_settings, on_command_line, bugged),
            positions@ + scan(m, mh, mw, part_is_solid, *grid_settings, on_command_line, bugged, y as int, 1 - mw) == total,
        decreases hi_y - y,
    {
        let mut x: isize = 1 - hi_x;
        while x < hi_x
            invariant
                m == mask@,
                mh == mask.spec_height(),
                mw == mask.spec_width(),
                mask.wf(),
                hi_y == mh,
                hi_x == mw,
                grid_settings.ready_for(on_command_line, bugged),
                1 - hi_y <= y < hi_y,
                1 - hi_x <= x <= hi_x || (hi_x == 0 && x == 1),
                total == positions_of(m, mh, mw, part_is_solid, *grid_settings, on_command_line, bugged),
                positions@ + scan(m, mh, mw, part_is_solid, *grid_settings, on_command_line, bugged, y as int, x as int) == total,
            decreases hi_x - x,
        {
            let pos = Position { x, y };
            let ghost rest = scan(m, mh, mw, part_is_solid, *grid_settings, on_command_line, bugged, y as int, x + 1);
            if placement_is_admissible(mask, pos, part_is_solid, grid_settings, on_command_line, bugged) {
                assert(positions@.push(pos) + rest =~= positions@ + (seq![pos] + rest));
                positions.push(pos);
            }
            x = x + 1;
        }
        y = y + 1;
    }
    assert(positions@ =~= total);
    positions
}

/// `ps`, each at `rotation` quarter turns.
pub open spec fn tag(ps: Seq<Position>, rotation: usize) -> Seq<Location> {
    ps.map_values(|p: Position| Location { position: p, rotation })
}

/// Appends each of `ps` at `rotation` quarter turns.
fn append_tagged(out: &mut Vec<Location>, ps: &Vec<Position>, rotation: usize)
    ensures
        final(out)@ == old(out)@ + tag(ps@, rotation),
{
    let mut k: usize = 0;
    while k < ps.len()
        invariant
            k <= ps@.len(),
            out@ == old(out)@ + tag(ps@.take(k as int), rotation),
        decreases ps@.len() - k,
    {
        out.push(Location { position: ps[k], rotation });
        assert(tag(ps@.take(k + 1), rotation) =~= tag(ps@.take(k as int), rotation).push(
            Location { position: ps@[k as int], rotation },
        ));
        k = k + 1;
    }
    assert(ps@.take(ps@.len() as int) =~= ps@);
}

/// The height, width and cells of the `k` times turned mask once trimmed.
pub open spec fn trimmed_turn(rows: Seq<Seq<bool>>, h: nat, w: nat, k: nat) -> (int, int, Seq<Seq<bool>>) {
    let d = turned_dims(h, w, k);
    let t = turned(rows, h, w, k);
    let td = trim_dims(t, d.0 as int, d.1 as int);
    (td.0, td.1, trim(t, d.0 as int, d.1 as int))
}

/// The `k` times turned mask trims to the same shape as an earlier turn.
pub open spec fn repeats(rows: Seq<Seq<bool>>, h: nat, w: nat, k: nat) -> bool {
    exists|j: nat| j < k && #[trigger] trimmed_turn(rows, h, w, j) == trimmed_turn(rows, h, w, k)
}

/// How many quarter turns give distinct shapes: turning stops at the
/// first that repeats an earlier one, and after three at most.
pub open spec fn turn_count(rows: Seq<Seq<bool>>, h: nat, w: nat) -> nat {
    if repeats(rows, h, w, 1) {
        1
    } else if repeats(rows, h, w, 2) {
        2
    } else if repeats(rows, h, w, 3) {
        3
    } else {
        4
    }
}

/// The locations of the first `n` turns of `rows`, turn by turn.
pub open spec fn locations_upto(
    rows: Seq<Seq<bool>>,
    h: nat,
    w: nat,
    solid: bool,
    s: GridSettings,
    on_command_line: Option<bool>,
    bugged: Option<bool>,
    n: nat,
) -> Seq<Location>
    decreases n,
{
    if n == 0 {
        Seq::empty()
    } else {
        let k = (n - 1) as nat;
        let d = turned_dims(h, w, k);
        locations_upto(rows, h, w, solid, s, on_command_line, bugged, k) + tag(
            positions_of(
                turned(rows, h, w, k),
                d.0 as usize,
                d.1 as usize,
                solid,
                s,
                on_command_line,
                bugged,
            ),
            k as usize,
        )
    }
}

/// The admissible locations of a mask: its positions at each distinct
/// turn, turn by turn.
pub open spec fn locations_of(
    mask: &Mask,
    solid: bool,
    s: GridSettings,
    on_command_line: Option<bool>,
    bugged: Option<bool>,
) -> Seq<Location> {
    let h = mask.spec_height();
    let w = mask.spec_width();
    locations_upto(mask@, h, w, solid, s, on_command_line, bugged, turn_count(mask@, h, w))
}

/// Whether `known` holds a mask equal to `m`.
fn holds_mask(known: &Vec<Mask>, m: &Mask) -> (r: bool)
    ensures
        r == exists|j: int| 0 <= j < known@.len() && #[trigger] known@[j].same(m),
{
    let mut j: usize = 0;
    while j < known.len()
        invariant
            j <= known@.len(),
            forall|a: int| 0 <= a < j ==> !(#[trigger] known@[a].same(m)),
        decreases known@.len() - j,
    {
        if known[j] == *m {
            return true;
        }
        j = j + 1;
    }
    false
}

/// The admissible locations of `mask` at each of its distinct quarter
/// turns: the positions at no turn, then at one turn, and so on, stopping
/// at the first turn whose trimmed shape was already seen.
pub fn placement_locations_for_mask(
    mask: &Mask,
    part_is_solid: bool,
    grid_settings: &GridSettings,
    on_command_line: Option<bool>,
    bugged: Option<bool>,
) -> (r: Vec<Location>)
    requires
        grid_settings.ready_for(on_command_line, bugged),
    ensures
        r@ == locations_of(mask, part_is_solid, *grid_settings, on_command_line, bugged),
{
    let ghost rows = mask@;
    let ghost h = mask.spec_height();
    let ghost w = mask.spec_width();
    let mut locations: Vec<Location> = Vec::new();
    let first = placement_positions_for_mask(mask, part_is_solid, grid_settings, on_command_line, bugged);
    append_tagged(&mut locations, &first, 0);
    proof {
        reveal_with_fuel(locations_upto, 2);
        assert(locations@ =~= locations_upto(rows, h, w, part_is_solid, *grid_settings, on_command_line, bugged, 1));
    }
    let mut known: Vec<Mask> = Vec::new();
    known.push(mask.trimmed());
    let mut cur = mask.copy();
    let mut i: usize = 1;
    while i < 4
        invariant
            1 <= i <= 4,
            grid_settings.ready_for(on_command_line, bugged),
            rows == mask@,
            h == mask.spec_height(),
            w == mask.spec_width(),
            (cur.spec_height(), cur.spec_width()) == turned_dims(h, w, (i - 1) as nat),
            cur@ == turned(rows, h, w, (i - 1) as nat),
            known@.len() == i,
            forall|j: int|
                0 <= j < i ==> (#[trigger] known@[j]).spec_height() as int == trimmed_turn(rows, h, w, j as nat).0
                    && known@[j].spec_width() as int == trimmed_turn(rows, h, w, j as nat).1
                    && known@[j]@ == trimmed_turn(rows, h, w, j as nat).2,
            forall|k: nat| 1 <= k < i ==> !#[trigger] repeats(rows, h, w, k),
            locations@ == locations_upto(rows, h, w, part_is_solid, *grid_settings, on_command_line, bugged, i as nat),
            i == 4 ==> turn_count(rows, h, w) == 4,
        ensures
            locations@ == locations_of(mask, part_is_solid, *grid_settings, on_command_line, bugged),
        decreases 4 - i,
    {
        let next = cur.rotate90();
        let t = next.trimmed();
        proof {
            reveal_with_fuel(turned, 2);
            assert(next@ == turned(rows, h, w, i as nat));
            assert((next.spec_height(), next.spec_width()) == turned_dims(h, w, i as nat));
            assert(trimmed_turn(rows, h, w, i as nat) == (t.spec_height() as int, t.spec_width() as int, t@));
        }
        if holds_mask(&known, &t) {
            proof {
                let j = choose|j: int| 0 <= j < known@.len() && #[trigger] known@[j].same(&t);
                let jj = j as nat;
                assert(trimmed_turn(rows, h, w, jj) == trimmed_turn(rows, h, w, i as nat));
                assert(repeats(rows, h, w, i as nat));
                assert(turn_count(rows, h, w) == i);
            }
            break;
        }
        cur = next;
        proof {
            assert(!repeats(rows, h, w, i as nat)) by {
                if repeats(rows, h, w, i as nat) {
                    let j = choose|j: nat| j < i && #[trigger] trimmed_turn(rows, h, w, j) == trimmed_turn(rows, h, w, i as nat);
                    assert(known@[j as int].same(&t));
                }
            }
        }
        known.push(t);
        let more = placement_positions_for_mask(&cur, part_is_solid, grid_settings, on_command_line, bugged);
        append_tagged(&mut locations, &more, i);
        i = i + 1;
    }
    locations
}

/// `ls`, each tagged with the mask variant used.
pub open spec fn tag_variant(ls: Seq<Location>, compressed: bool) -> Seq<Placement> {
    ls.map_values(|l: Location| Placement { loc: l, compressed })
}

/// The candidate placements of `part` under `c`: the locations of the
/// requested mask, or of both masks (compressed first) when none is
/// requested and they differ.
pub open spec fn placements_of(part: Part, s: GridSettings, c: Constraint) -> Seq<Placement> {
    let comp = tag_variant(
        locations_of(&part.compressed_mask, part.is_solid, s, c.on_command_line, c.bugged),
        true,
    );
    let uncomp = tag_variant(
        locations_of(&part.uncompressed_mask, part.is_solid, s, c.on_command_line, c.bugged),
        false,
    );
    match c.compressed {
        Some(true) => comp,
        Some(false) => uncomp,
        None => if part.compressed_mask.same(&part.uncompressed_mask) {
            comp
        } else {
            comp + uncomp
        },
    }
}

/// Appends each of `ls` as a placement of the given mask variant.
fn append_variant(out: &mut Vec<Placement>, ls: &Vec<Location>, compressed: bool)
    ensures
        final(out)@ == old(out)@ + tag_variant(ls@, compressed),
{
    let mut k: usize = 0;
    while k < ls.len()
        invariant
            k <= ls@.len(),
            out@ == old(out)@ + tag_variant(ls@.take(k as int), compressed),
        decreases ls@.len() - k,
    {
        out.push(Placement { loc: ls[k], compressed });
        assert(tag_variant(ls@.take(k + 1), compressed) =~= tag_variant(
            ls@.take(k as int),
            compressed,
        ).push(Placement { loc: ls@[k as int], compressed }));
        k = k + 1;
    }
    assert(ls@.take(ls@.len() as int) =~= ls@);
}

/// Every candidate placement of `part` on a board of `grid_settings`
/// under the requirement flags `constraint`.
pub fn placements(part: &Part, grid_settings: &GridSettings, constraint: &Constraint) -> (r: Vec<
    Placement,
>)
    requires
        grid_settings.ready_for(constraint.on_command_line, constraint.bugged),
    ensures
        r@ == placements_of(*part, *grid_settings, *constraint),
{
    let mut out: Vec<Placement> = Vec::new();
    let use_compressed = match constraint.compressed {
        Some(v) => v,
        None => true,
    };
    let use_uncompressed = match constraint.compressed {
        Some(v) => !v,
        None => !(part.compressed_mask == part.uncompressed_mask),
    };
    if use_compressed {
        let ls = placement_locations_for_mask(
            &part.compressed_mask,
            part.is_solid,
            grid_settings,
            constraint.on_command_line,
            constraint.bugged,
        );
        append_variant(&mut out, &ls, true);
    }
    if use_uncompressed {
        let ls = placement_locations_for_mask(
            &part.uncompressed_mask,
            part.is_solid,
            grid_settings,
            constraint.on_command_line,
            constraint.bugged,
        );
        append_variant(&mut out, &ls, false);
    }
    assert(out@ =~= placements_of(*part, *grid_settings, *constraint));
    out
}

} // verus!
