//! The backtracking search that gives every requirement a placement.

use crate::array::is_rect;
use crate::grid::{clobbers, covers, fresh_board, place_verdict, stamped, Cell, Grid, GridSettings, Position};
use crate::order::{
    insert_desc,
    lemma_insert_desc_at,
    lemma_insert_desc_is_insert,
    lemma_sort_desc_len,
    lemma_sort_desc_members,
    lemma_sort_desc_push,
    sort_desc,
};
use crate::mask::{flat, lemma_flat_next, turned, turned_dims, Mask};
use crate::placement::{
    admissible,
    placement_is_admissible,
    placements,
    placements_of,
    Part,
    Placement,
    Requirement,
};
use vstd::prelude::*;

verus! {

/// The occupied cells among the first `n` of `row`.
pub open spec fn count_row(row: Seq<bool>, n: int) -> int
    decreases n,
{
    if n <= 0 {
        0
    } else {
        count_row(row, n - 1) + if row[n - 1] {
            1int
        } else {
            0
        }
    }
}

/// The occupied cells among the first `m` rows of `rows`, `w` wide.
pub open spec fn count_rows(rows: Seq<Seq<bool>>, m: int, w: int) -> int
    decreases m,
{
    if m <= 0 {
        0
    } else {
        count_rows(rows, m - 1, w) + count_row(rows[m - 1], w)
    }
}

/// The number of occupied cells of a mask.
pub open spec fn occupied(m: Mask) -> int {
    count_rows(m@, m.spec_height() as int, m.spec_width() as int)
}

/// The mask a requirement asks for: the uncompressed one only when it
/// says so.
pub open spec fn required_mask(parts: Seq<Part>, req: Requirement) -> Mask {
    if req.constraint.compressed == Some(false) {
        parts[req.part_index as int].uncompressed_mask
    } else {
        parts[req.part_index as int].compressed_mask
    }
}

/// The requirements among the first `n` that must touch the command line.
pub open spec fn count_on_line(reqs: Seq<Requirement>, n: int) -> int
    decreases n,
{
    if n <= 0 {
        0
    } else {
        count_on_line(reqs, n - 1) + if reqs[n - 1].constraint.on_command_line == Some(true) {
            1int
        } else {
            0
        }
    }
}

/// The cells the first `n` requirements occupy in all.
pub open spec fn total_cells(parts: Seq<Part>, reqs: Seq<Requirement>, n: int) -> int
    decreases n,
{
    if n <= 0 {
        0
    } else {
        total_cells(parts, reqs, n - 1) + occupied(required_mask(parts, reqs[n - 1]))
    }
}

/// The requirements might be met at all: no more of them must touch the
/// command line than it has cells, and their parts together occupy fewer
/// cells than the board has usable ones.
pub open spec fn requirements_fit(parts: Seq<Part>, reqs: Seq<Requirement>, s: GridSettings) -> bool {
    let usable = s.width * s.height - if s.has_oob {
        4int
    } else {
        0
    };
    &&& count_on_line(reqs, reqs.len() as int) <= s.width
    &&& total_cells(parts, reqs, reqs.len() as int) < usable
}

/// Every requirement names one of the parts.
pub open spec fn parts_named(parts: Seq<Part>, reqs: Seq<Requirement>) -> bool {
    forall|i: int| 0 <= i < reqs.len() ==> (#[trigger] reqs[i]).part_index < parts.len()
}

proof fn lemma_count_row_bound(row: Seq<bool>, n: int)
    requires
        n >= 0,
    ensures
        0 <= count_row(row, n) <= n,
    decreases n,
{
    if n > 0 {
        lemma_count_row_bound(row, n - 1);
    }
}

/// The occupied cells of a mask.
fn occupied_cells(m: &Mask) -> (r: usize)
    ensures
        r == occupied(*m),
{
    let (h, w) = m.dims();
    let ghost rows = m@;
    let mut count: usize = 0;
    let mut i: usize = 0;
    while i < h
        invariant
            m.wf(),
            rows == m@,
            h == m.spec_height(),
            w == m.spec_width(),
            i <= h,
            count == count_rows(rows, i as int, w as int),
            count <= flat(i as int, 0, w as int),
            flat(h as int, 0, w as int) <= isize::MAX,
        decreases h - i,
    {
        let mut j: usize = 0;
        while j < w
            invariant
                m.wf(),
                rows == m@,
                h == m.spec_height(),
                w == m.spec_width(),
                i < h,
                j <= w,
                count == count_rows(rows, i as int, w as int) + count_row(rows[i as int], j as int),
                count <= flat(i as int, j as int, w as int),
                flat(h as int, 0, w as int) <= isize::MAX,
            decreases w - j,
        {
            proof {
                assert(flat(i as int, j as int, w as int) < flat(h as int, 0, w as int)) by {
                    crate::mask::lemma_flat_order(i as int, j as int, h as int, w as int);
                }
            }
            if m.get(i, j) {
                count = count + 1;
            }
            j = j + 1;
        }
        proof {
            lemma_flat_next(i as int, w as int);
        }
        i = i + 1;
    }
    count
}

/// Whether the requirements might be met at all: at most as many must
/// touch the command line as the board is wide, and the cells their
/// masks occupy are fewer than the usable cells of the board.
pub fn requirements_are_admissible(
    parts: &[Part],
    requirements: &[Requirement],
    grid_settings: &GridSettings,
) -> (r: bool)
    requires
        parts_named(parts@, requirements@),
        grid_settings.fits(),
    ensures
        r == requirements_fit(parts@, requirements@, *grid_settings),
{
    let n = requirements.len();
    let mut on_line: usize = 0;
    let mut i: usize = 0;
    while i < n
        invariant
            n == requirements@.len(),
            i <= n,
            on_line == count_on_line(requirements@, i as int),
            on_line <= i,
        decreases n - i,
    {
        if requirements[i].constraint.on_command_line == Some(true) {
            on_line = on_line + 1;
        }
        i = i + 1;
    }
    let ghost usable = grid_settings.width * grid_settings.height - if grid_settings.has_oob {
        4int
    } else {
        0
    };
    if on_line > grid_settings.width {
        return false;
    }
    proof {
        assert(grid_settings.width * grid_settings.height == grid_settings.height * grid_settings.width) by (nonlinear_arith);
        assert(on_line == count_on_line(requirements@, requirements@.len() as int));
    }
    let cells: u128 = grid_settings.width as u128 * grid_settings.height as u128;
    let corners: u128 = if grid_settings.has_oob {
        4
    } else {
        0
    };
    if cells <= corners {
        proof {
            lemma_total_cells_nonneg(parts@, requirements@, n as int);
        }
        return false;
    }
    let usable_cells = cells - corners;
    let mut total: u128 = 0;
    let mut i: usize = 0;
    while i < n
        invariant
            n == requirements@.len(),
            parts_named(parts@, requirements@),
            i <= n,
            total == total_cells(parts@, requirements@, i as int),
            total < usable_cells,
            usable_cells == usable,
            usable == grid_settings.width * grid_settings.height - if grid_settings.has_oob {
                4int
            } else {
                0
            },
            usable_cells <= isize::MAX,
        decreases n - i,
    {
        let req = &requirements[i];
        let mask = if req.constraint.compressed == Some(false) {
            &parts[req.part_index].uncompressed_mask
        } else {
            &parts[req.part_index].compressed_mask
        };
        let c = occupied_cells(mask);
        assert(*mask == required_mask(parts@, requirements@[i as int]));
        assert(total_cells(parts@, requirements@, i + 1) == total_cells(parts@, requirements@, i as int) + occupied(required_mask(parts@, requirements@[i as int])));
        total = total + c as u128;
        if total >= usable_cells {
            proof {
                lemma_total_cells_mono(parts@, requirements@, i + 1, n as int);
                assert(total_cells(parts@, requirements@, n as int) >= usable);
                assert(!requirements_fit(parts@, requirements@, *grid_settings));
            }
            return false;
        }
        i = i + 1;
    }
    true
}

proof fn lemma_total_cells_nonneg(parts: Seq<Part>, reqs: Seq<Requirement>, n: int)
    ensures
        total_cells(parts, reqs, n) >= 0,
    decreases n,
{
    if n > 0 {
        lemma_total_cells_nonneg(parts, reqs, n - 1);
        lemma_occupied_nonneg(required_mask(parts, reqs[n - 1]));
    }
}

proof fn lemma_occupied_nonneg(m: Mask)
    ensures
        occupied(m) >= 0,
{
    lemma_count_rows_nonneg(m@, m.spec_height() as int, m.spec_width() as int);
}

proof fn lemma_count_rows_nonneg(rows: Seq<Seq<bool>>, k: int, w: int)
    requires
        w >= 0,
    ensures
        count_rows(rows, k, w) >= 0,
    decreases k,
{
    if k > 0 {
        lemma_count_rows_nonneg(rows, k - 1, w);
        lemma_count_row_bound(rows[k - 1], w);
    }
}

proof fn lemma_total_cells_mono(parts: Seq<Part>, reqs: Seq<Requirement>, a: int, b: int)
    requires
        a <= b,
    ensures
        total_cells(parts, reqs, a) <= total_cells(parts, reqs, b),
    decreases b - a,
{
    if a < b {
        lemma_total_cells_mono(parts, reqs, a, b - 1);
        if b > 0 {
            lemma_occupied_nonneg(required_mask(parts, reqs[b - 1]));
        }
    }
}

/// Every placed cell of `board` names one of `n` requirements.
pub open spec fn names_requirements(board: Seq<Seq<Cell>>, h: int, w: int, n: int) -> bool {
    forall|r: int, c: int|
        0 <= r < h && 0 <= c < w ==> (#[trigger] board[r][c] matches Cell::Placed(i) ==> i < n)
}

/// Cell `nr`, `nc` is on the board and holds a different part of the
/// same color as requirement `ri`'s.
pub open spec fn same_color_at(
    parts: Seq<Part>,
    reqs: Seq<Requirement>,
    board: Seq<Seq<Cell>>,
    h: int,
    w: int,
    nr: int,
    nc: int,
    ri: usize,
) -> bool {
    &&& 0 <= nr < h
    &&& 0 <= nc < w
    &&& match board[nr][nc] {
        Cell::Placed(ni) => reqs[ni as int].part_index != reqs[ri as int].part_index
            && parts[reqs[ni as int].part_index as int].color == parts[reqs[ri as int].part_index as int].color,
        _ => false,
    }
}

/// Cell `r`, `c`, placed for requirement `ri`, touches a different part
/// of the same color on one of its four sides.
pub open spec fn touches_same_color(
    parts: Seq<Part>,
    reqs: Seq<Requirement>,
    board: Seq<Seq<Cell>>,
    h: int,
    w: int,
    r: int,
    c: int,
    ri: usize,
) -> bool {
    same_color_at(parts, reqs, board, h, w, r, c - 1, ri) || same_color_at(
        parts,
        reqs,
        board,
        h,
        w,
        r,
        c + 1,
        ri,
    ) || same_color_at(parts, reqs, board, h, w, r - 1, c, ri) || same_color_at(
        parts,
        reqs,
        board,
        h,
        w,
        r + 1,
        c,
        ri,
    )
}

/// Every placed cell whose requirement expects a bug state touches a
/// different part of the same color exactly when that state is bugged.
pub open spec fn colors_ok(parts: Seq<Part>, reqs: Seq<Requirement>, board: Seq<Seq<Cell>>, h: int, w: int) -> bool {
    forall|r: int, c: int|
        0 <= r < h && 0 <= c < w ==> match #[trigger] board[r][c] {
            Cell::Placed(ri) => reqs[ri as int].constraint.bugged matches Some(b) ==> b
                == touches_same_color(parts, reqs, board, h, w, r, c, ri),
            _ => true,
        }
}

/// Whether cell `nr`, `nc` holds a different part of the same color as
/// requirement `ri`'s.
fn same_color_exec(
    parts: &[Part],
    requirements: &[Requirement],
    grid: &Grid,
    nr: usize,
    nc: usize,
    ri: usize,
) -> (b: bool)
    requires
        parts_named(parts@, requirements@),
        ri < requirements@.len(),
        nr < grid.spec_settings().height,
        nc < grid.spec_settings().width,
        names_requirements(
            grid@,
            grid.spec_settings().height as int,
            grid.spec_settings().width as int,
            requirements@.len() as int,
        ),
    ensures
        b == same_color_at(
            parts@,
            requirements@,
            grid@,
            grid.spec_settings().height as int,
            grid.spec_settings().width as int,
            nr as int,
            nc as int,
            ri,
        ),
{
    match grid.cell(nr, nc) {
        Cell::Placed(ni) => {
            assert(grid@[nr as int][nc as int] == Cell::Placed(ni));
            let own = requirements[ri].part_index;
            let other = requirements[ni].part_index;
            other != own && parts[other].color == parts[own].color
        },
        _ => false,
    }
}

/// Whether every placed cell whose requirement expects a bug state touches
/// a different part of the same color exactly when that state is bugged.
pub fn solution_is_admissible(parts: &[Part], requirements: &[Requirement], grid: &Grid) -> (r: bool)
    requires
        parts_named(parts@, requirements@),
        names_requirements(
            grid@,
            grid.spec_settings().height as int,
            grid.spec_settings().width as int,
            requirements@.len() as int,
        ),
    ensures
        r == colors_ok(
            parts@,
            requirements@,
            grid@,
            grid.spec_settings().height as int,
            grid.spec_settings().width as int,
        ),
{
    let s = grid.settings();
    let h = s.height;
    let w = s.width;
    let ghost board = grid@;
    let mut y: usize = 0;
    while y < h
        invariant
            s == grid.spec_settings(),
            h == s.height,
            w == s.width,
            grid.wf(),
            board == grid@,
            parts_named(parts@, requirements@),
            names_requirements(board, h as int, w as int, requirements@.len() as int),
            y <= h,
            forall|r: int, c: int|
                0 <= r < y && 0 <= c < w ==> match #[trigger] board[r][c] {
                    Cell::Placed(ri) => requirements@[ri as int].constraint.bugged matches Some(b)
                        ==> b == touches_same_color(parts@, requirements@, board, h as int, w as int, r, c, ri),
                    _ => true,
                },
        decreases h - y,
    {
        let mut x: usize = 0;
        while x < w
            invariant
                s == grid.spec_settings(),
                h == s.height,
                w == s.width,
                grid.wf(),
                board == grid@,
                parts_named(parts@, requirements@),
                names_requirements(board, h as int, w as int, requirements@.len() as int),
                y < h,
                x <= w,
                forall|r: int, c: int|
                    0 <= r < y && 0 <= c < w ==> match #[trigger] board[r][c] {
                        Cell::Placed(ri) => requirements@[ri as int].constraint.bugged matches Some(b)
                            ==> b == touches_same_color(parts@, requirements@, board, h as int, w as int, r, c, ri),
                        _ => true,
                    },
                forall|c: int|
                    0 <= c < x ==> match #[trigger] board[y as int][c] {
                        Cell::Placed(ri) => requirements@[ri as int].constraint.bugged matches Some(b)
                            ==> b == touches_same_color(parts@, requirements@, board, h as int, w as int, y as int, c, ri),
                        _ => true,
                    },
            decreases w - x,
        {
            if let Cell::Placed(ri) = grid.cell(y, x) {
                assert(board[y as int][x as int] == Cell::Placed(ri));
                let touching = (x > 0 && same_color_exec(parts, requirements, grid, y, x - 1, ri)) || (
                x + 1 < w && same_color_exec(parts, requirements, grid, y, x + 1, ri)) || (y > 0
                    && same_color_exec(parts, requirements, grid, y - 1, x, ri)) || (y + 1 < h
                    && same_color_exec(parts, requirements, grid, y + 1, x, ri));
                assert(touching == touches_same_color(parts@, requirements@, board, h as int, w as int, y as int, x as int, ri));
                if let Some(b) = requirements[ri].constraint.bugged {
                    if b != touching {
                        assert(!colors_ok(parts@, requirements@, board, h as int, w as int)) by {
                            let bb = board[y as int][x as int];
                            assert(bb == Cell::Placed(ri));
                        }
                        return false;
                    }
                }
            }
            x = x + 1;
        }
        y = y + 1;
    }
    true
}

/// A board as seen by its parts: each placed cell holds the part index of
/// its requirement, so that boards which differ only in which of two
/// equal requirements went where look the same.
pub type Signature = Seq<Seq<Option<usize>>>;

pub open spec fn board_sig(board: Seq<Seq<Cell>>, reqs: Seq<Requirement>) -> Signature {
    board.map_values(
        |row: Seq<Cell>|
            row.map_values(
                |c: Cell|
                    match c {
                        Cell::Placed(i) => Some(reqs[i as int].part_index),
                        _ => None,
                    },
            ),
    )
}

pub open spec fn sig_view(v: Vec<Vec<Option<usize>>>) -> Signature {
    v@.map_values(|row: Vec<Option<usize>>| row@)
}

/// A memo entry: how many requirements were left to place, and the board
/// as seen by its parts.
pub type MemoKey = (nat, Signature);

pub open spec fn visited_view(v: Seq<(usize, Vec<Vec<Option<usize>>>)>) -> Seq<MemoKey> {
    v.map_values(|e: (usize, Vec<Vec<Option<usize>>>)| (e.0 as nat, sig_view(e.1)))
}

/// A requirement index with its candidate placements.
pub type Candidates = (usize, Vec<Placement>);

pub open spec fn stack_view(v: Seq<Candidates>) -> Seq<(usize, Seq<Placement>)> {
    v.map_values(|e: Candidates| (e.0, e.1@))
}

pub open spec fn results_view(v: Seq<Vec<(usize, Placement)>>) -> Seq<Seq<(usize, Placement)>> {
    v.map_values(|s: Vec<(usize, Placement)>| s@)
}

/// The mask variant a placement uses.
pub open spec fn chosen_mask(part: Part, compressed: bool) -> Mask {
    if compressed {
        part.compressed_mask
    } else {
        part.uncompressed_mask
    }
}

/// The cells, height and width of the mask a placement puts down.
pub open spec fn placed_mask(part: Part, p: Placement) -> (Seq<Seq<bool>>, usize, usize) {
    let m = chosen_mask(part, p.compressed);
    let d = turned_dims(m.spec_height(), m.spec_width(), p.loc.rotation as nat);
    (turned(m@, m.spec_height(), m.spec_width(), p.loc.rotation as nat), d.0 as usize, d.1 as usize)
}

/// The assignments found, and the signatures seen, by trying candidate
/// `i` on of `stack[n - 1]` and everything below it on `board`, with the
/// signatures in `visited` already seen. Each assignment lists, for
/// `stack[0..n]` in that order, the requirement and its placement.
pub open spec fn search(
    parts: Seq<Part>,
    reqs: Seq<Requirement>,
    s: GridSettings,
    board: Seq<Seq<Cell>>,
    stack: Seq<(usize, Seq<Placement>)>,
    n: nat,
    i: nat,
    visited: Seq<MemoKey>,
) -> (Seq<Seq<(usize, Placement)>>, Seq<MemoKey>)
    decreases n, if n > 0 {
        stack[n - 1].1.len() - i
    } else {
        0
    },
{
    if n == 0 {
        (seq![Seq::empty()], visited)
    } else if i >= stack[n - 1].1.len() {
        (Seq::empty(), visited)
    } else {
        let ri = stack[n - 1].0;
        let p = stack[n - 1].1[i as int];
        let req = reqs[ri as int];
        let part = parts[req.part_index as int];
        let m = placed_mask(part, p);
        let pos = p.loc.position;
        let fits = place_verdict(board, s.height, s.width, m.0, m.1, m.2, pos).is_ok() && admissible(
            m.0,
            m.1,
            m.2,
            pos,
            part.is_solid,
            s,
            req.constraint.on_command_line,
            req.constraint.bugged,
        );
        let b2 = stamped(board, s.height as int, s.width as int, m.0, m.1 as int, m.2 as int, pos, ri);
        let sig = board_sig(b2, reqs);
        let key = ((n - 1) as nat, sig);
        if !fits || visited.contains(key) {
            search(parts, reqs, s, board, stack, n, i + 1, visited)
        } else {
            let sub = search(parts, reqs, s, b2, stack, (n - 1) as nat, 0, visited.push(key));
            let here = if n == 1 && !colors_ok(parts, reqs, b2, s.height as int, s.width as int) {
                Seq::empty()
            } else {
                sub.0.map_values(|sol: Seq<(usize, Placement)>| sol.push((ri, p)))
            };
            let more = search(parts, reqs, s, board, stack, n, i + 1, sub.1);
            (here + more.0, more.1)
        }
    }
}

/// The board as seen by its parts.
fn signature(grid: &Grid, requirements: &[Requirement]) -> (r: Vec<Vec<Option<usize>>>)
    requires
        names_requirements(
            grid@,
            grid.spec_settings().height as int,
            grid.spec_settings().width as int,
            requirements@.len() as int,
        ),
    ensures
        sig_view(r) == board_sig(grid@, requirements@),
{
    let s = grid.settings();
    let ghost board = grid@;
    let ghost target = board_sig(board, requirements@);
    let mut rows: Vec<Vec<Option<usize>>> = Vec::new();
    let mut y: usize = 0;
    while y < s.height
        invariant
            s == grid.spec_settings(),
            grid.wf(),
            board == grid@,
            target == board_sig(board, requirements@),
            names_requirements(board, s.height as int, s.width as int, requirements@.len() as int),
            y <= s.height,
            rows@.len() == y,
            forall|a: int| 0 <= a < y ==> (#[trigger] rows@[a])@ == target[a],
        decreases s.height - y,
    {
        let mut row: Vec<Option<usize>> = Vec::new();
        let mut x: usize = 0;
        while x < s.width
            invariant
                s == grid.spec_settings(),
                grid.wf(),
                board == grid@,
                target == board_sig(board, requirements@),
                names_requirements(board, s.height as int, s.width as int, requirements@.len() as int),
                y < s.height,
                x <= s.width,
                row@ == target[y as int].take(x as int),
            decreases s.width - x,
        {
            let c = grid.cell(y, x);
            let v = match c {
                Cell::Placed(i) => {
                    assert(board[y as int][x as int] == Cell::Placed(i));
                    Some(requirements[i].part_index)
                },
                _ => None,
            };
            row.push(v);
            assert(row@ =~= target[y as int].take(x + 1));
            x = x + 1;
        }
        assert(row@ =~= target[y as int]);
        rows.push(row);
        y = y + 1;
    }
    assert(sig_view(rows) =~= target);
    rows
}

/// Whether two signatures are equal.
fn sig_eq(a: &Vec<Vec<Option<usize>>>, b: &Vec<Vec<Option<usize>>>) -> (r: bool)
    ensures
        r == (sig_view(*a) == sig_view(*b)),
{
    if a.len() != b.len() {
        assert(sig_view(*a).len() != sig_view(*b).len());
        return false;
    }
    let mut i: usize = 0;
    while i < a.len()
        invariant
            a@.len() == b@.len(),
            i <= a@.len(),
            forall|k: int| 0 <= k < i ==> (#[trigger] a@[k])@ == b@[k]@,
        decreases a@.len() - i,
    {
        let ra = &a[i];
        let rb = &b[i];
        if ra.len() != rb.len() {
            assert(sig_view(*a)[i as int] != sig_view(*b)[i as int]);
            return false;
        }
        let mut j: usize = 0;
        while j < ra.len()
            invariant
                a@.len() == b@.len(),
                i < a@.len(),
                *ra == a@[i as int],
                *rb == b@[i as int],
                ra@.len() == rb@.len(),
                j <= ra@.len(),
                forall|k: int| 0 <= k < j ==> ra@[k] == rb@[k],
            decreases ra@.len() - j,
        {
            let same = match (ra[j], rb[j]) {
                (Some(x), Some(y)) => x == y,
                (None, None) => true,
                _ => false,
            };
            if !same {
                assert(sig_view(*a)[i as int][j as int] != sig_view(*b)[i as int][j as int]);
                return false;
            }
            j = j + 1;
        }
        assert(ra@ =~= rb@);
        i = i + 1;
    }
    assert(sig_view(*a) =~= sig_view(*b));
    true
}

/// Whether `visited` holds the signature `sig` with `depth` requirements
/// left.
fn seen(visited: &Vec<(usize, Vec<Vec<Option<usize>>>)>, depth: usize, sig: &Vec<Vec<Option<usize>>>) -> (r: bool)
    ensures
        r == visited_view(visited@).contains((depth as nat, sig_view(*sig))),
{
    let ghost key = (depth as nat, sig_view(*sig));
    let mut k: usize = 0;
    while k < visited.len()
        invariant
            key == (depth as nat, sig_view(*sig)),
            k <= visited@.len(),
            forall|a: int| 0 <= a < k ==> visited_view(visited@)[a] != key,
        decreases visited@.len() - k,
    {
        if visited[k].0 == depth && sig_eq(&visited[k].1, sig) {
            assert(visited_view(visited@)[k as int] == key);
            return true;
        }
        k = k + 1;
    }
    assert(!visited_view(visited@).contains(key)) by {
        if visited_view(visited@).contains(key) {
            let a = choose|a: int| 0 <= a < visited_view(visited@).len() && visited_view(visited@)[a] == key;
        }
    }
    false
}

/// The board can be built, and its command line is one of its rows
/// wherever a requirement's flags ask about it.
pub open spec fn requirements_ready(reqs: Seq<Requirement>, s: GridSettings) -> bool {
    &&& s.fits()
    &&& forall|i: int|
        0 <= i < reqs.len() ==> s.ready_for(
            (#[trigger] reqs[i]).constraint.on_command_line,
            reqs[i].constraint.bugged,
        )
}

/// The search's assumptions on its inputs: requirements name parts, the
/// stack names requirements, and the board only holds those.
pub open spec fn search_ready(
    parts: Seq<Part>,
    reqs: Seq<Requirement>,
    s: GridSettings,
    board: Seq<Seq<Cell>>,
    stack: Seq<(usize, Seq<Placement>)>,
) -> bool {
    &&& requirements_ready(reqs, s)
    &&& parts_named(parts, reqs)
    &&& forall|k: int| 0 <= k < stack.len() ==> (#[trigger] stack[k]).0 < reqs.len()
    &&& is_rect(board, s.height as int, s.width as int)
    &&& names_requirements(board, s.height as int, s.width as int, reqs.len() as int)
}

/// A copy of an assignment.
fn copy_assignment(v: &Vec<(usize, Placement)>) -> (r: Vec<(usize, Placement)>)
    ensures
        r@ == v@,
{
    let mut r: Vec<(usize, Placement)> = Vec::new();
    let mut k: usize = 0;
    while k < v.len()
        invariant
            k <= v@.len(),
            r@ == v@.take(k as int),
        decreases v@.len() - k,
    {
        r.push(v[k]);
        assert(r@ =~= v@.take(k + 1));
        k = k + 1;
    }
    assert(v@.take(v@.len() as int) =~= v@);
    r
}

/// Every assignment of `stack[0..n]` reachable from `grid`, trying the
/// top requirement's candidates in order and skipping any board whose
/// signature was already seen.
#[verifier::rlimit(40)]
fn solve1(
    parts: &[Part],
    requirements: &[Requirement],
    settings: &GridSettings,
    grid: &Grid,
    stack: &Vec<Candidates>,
    n: usize,
    visited: &mut Vec<(usize, Vec<Vec<Option<usize>>>)>,
) -> (r: Vec<Vec<(usize, Placement)>>)
    requires
        n <= stack@.len(),
        grid.spec_settings() == *settings,
        search_ready(parts@, requirements@, *settings, grid@, stack_view(stack@)),
    ensures
        results_view(r@) == search(
            parts@,
            requirements@,
            *settings,
            grid@,
            stack_view(stack@),
            n as nat,
            0,
            visited_view(old(visited)@),
        ).0,
        visited_view(final(visited)@) == search(
            parts@,
            requirements@,
            *settings,
            grid@,
            stack_view(stack@),
            n as nat,
            0,
            visited_view(old(visited)@),
        ).1,
    decreases n,
{
    let ghost ps = parts@;
    let ghost rs = requirements@;
    let ghost sv = stack_view(stack@);
    let ghost board = grid@;
    let _ = grid.settings();
    if n == 0 {
        let r: Vec<Vec<(usize, Placement)>> = vec![Vec::new()];
        assert(results_view(r@) =~= seq![Seq::<(usize, Placement)>::empty()]);
        return r;
    }
    let ri = stack[n - 1].0;
    let cands = &stack[n - 1].1;
    assert(sv[n - 1] == (ri, cands@));
    let req = requirements[ri];
    let part = &parts[req.part_index];
    let ghost total = search(ps, rs, *settings, board, sv, n as nat, 0, visited_view(visited@));
    let mut out: Vec<Vec<(usize, Placement)>> = Vec::new();
    let mut i: usize = 0;
    while i < cands.len()
        invariant
            0 < n <= stack@.len(),
            sv == stack_view(stack@),
            ps == parts@,
            rs == requirements@,
            board == grid@,
            grid.spec_settings() == *settings,
            search_ready(ps, rs, *settings, board, sv),
            sv[n - 1] == (ri, cands@),
            req == rs[ri as int],
            *part == ps[req.part_index as int],
            i <= cands@.len(),
            results_view(out@) + search(ps, rs, *settings, board, sv, n as nat, i as nat, visited_view(visited@)).0 == total.0,
            search(ps, rs, *settings, board, sv, n as nat, i as nat, visited_view(visited@)).1 == total.1,
        decreases cands@.len() - i,
    {
        let p = cands[i];
        let ghost vv = visited_view(visited@);
        let ghost m = placed_mask(*part, p);
        let ghost rest = search(ps, rs, *settings, board, sv, n as nat, (i + 1) as nat, vv);
        let base = if p.compressed {
            &part.compressed_mask
        } else {
            &part.uncompressed_mask
        };
        let mask = base.rotate(p.loc.rotation);
        let _ = mask.dims();
        assert(mask@ == m.0);
        let mut g = grid.copy();
        let placed = g.place(&mask, p.loc.position, ri);
        assert(mask.spec_height() as usize == m.1 && mask.spec_width() as usize == m.2);
        assert(placed == place_verdict(board, settings.height, settings.width, m.0, m.1, m.2, p.loc.position));
        assert(placed.is_ok() ==> g@ == stamped(board, settings.height as int, settings.width as int, m.0, m.1 as int, m.2 as int, p.loc.position, ri));
        let fits = placed.is_ok() && placement_is_admissible(
            &mask,
            p.loc.position,
            part.is_solid,
            settings,
            req.constraint.on_command_line,
            req.constraint.bugged,
        );
        if fits {
            let ghost b2 = g@;
            assert(names_requirements(b2, settings.height as int, settings.width as int, rs.len() as int));
            let sig = signature(&g, requirements);
            if seen(visited, n - 1, &sig) {
                assert(results_view(out@) + rest.0 == total.0);
            } else {
                visited.push((n - 1, sig));
                assert(visited_view(visited@) =~= vv.push(((n - 1) as nat, board_sig(b2, rs))));
                let sub = solve1(parts, requirements, settings, &g, stack, n - 1, visited);
                let ghost subr = search(ps, rs, *settings, b2, sv, (n - 1) as nat, 0, vv.push(((n - 1) as nat, board_sig(b2, rs))));
                let keep = n > 1 || solution_is_admissible(parts, requirements, &g);
                let ghost here = if n == 1 && !colors_ok(ps, rs, b2, settings.height as int, settings.width as int) {
                    Seq::<Seq<(usize, Placement)>>::empty()
                } else {
                    subr.0.map_values(|sol: Seq<(usize, Placement)>| sol.push((ri, p)))
                };
                let ghost out0 = results_view(out@);
                if keep {
                    let mut k: usize = 0;
                    while k < sub.len()
                        invariant
                            k <= sub@.len(),
                            results_view(sub@) == subr.0,
                            here == subr.0.map_values(|sol: Seq<(usize, Placement)>| sol.push((ri, p))),
                            results_view(out@) == out0 + here.take(k as int),
                        decreases sub@.len() - k,
                    {
                        let mut sol = copy_assignment(&sub[k]);
                        sol.push((ri, p));
                        assert(results_view(out@.push(sol)) =~= results_view(out@).push(sol@));
                        assert(here.take(k + 1) =~= here.take(k as int).push(here[k as int]));
                        out.push(sol);
                        k = k + 1;
                    }
                    assert(here.take(sub@.len() as int) =~= here);
                } else {
                    assert(here =~= Seq::<Seq<(usize, Placement)>>::empty());
                }
                assert(results_view(out@) == out0 + here);
                assert(results_view(out@) + search(ps, rs, *settings, board, sv, n as nat, (i + 1) as nat, visited_view(visited@)).0 =~= total.0);
            }
        } else {
            assert(results_view(out@) + rest.0 == total.0);
        }
        i = i + 1;
    }
    assert(results_view(out@) =~= total.0);
    out
}

/// Each assignment lists the requirements of `stack[0..n]` in stack order.
pub open spec fn follows_stack(sol: Seq<(usize, Placement)>, stack: Seq<(usize, Seq<Placement>)>, n: nat) -> bool {
    sol.len() == n && forall|k: int| 0 <= k < n ==> (#[trigger] sol[k]).0 == stack[k].0
}

proof fn lemma_search_follows_stack(
    parts: Seq<Part>,
    reqs: Seq<Requirement>,
    s: GridSettings,
    board: Seq<Seq<Cell>>,
    stack: Seq<(usize, Seq<Placement>)>,
    n: nat,
    i: nat,
    visited: Seq<MemoKey>,
)
    requires
        n <= stack.len(),
    ensures
        forall|a: int|
            0 <= a < search(parts, reqs, s, board, stack, n, i, visited).0.len() ==> follows_stack(
                #[trigger] search(parts, reqs, s, board, stack, n, i, visited).0[a],
                stack,
                n,
            ),
    decreases n, if n > 0 {
        stack[n - 1].1.len() - i
    } else {
        0
    },
{
    if n == 0 {
    } else if i >= stack[n - 1].1.len() {
    } else {
        let ri = stack[n - 1].0;
        let p = stack[n - 1].1[i as int];
        let req = reqs[ri as int];
        let part = parts[req.part_index as int];
        let m = placed_mask(part, p);
        let pos = p.loc.position;
        let fits = place_verdict(board, s.height, s.width, m.0, m.1, m.2, pos).is_ok() && admissible(
            m.0,
            m.1,
            m.2,
            pos,
            part.is_solid,
            s,
            req.constraint.on_command_line,
            req.constraint.bugged,
        );
        let b2 = stamped(board, s.height as int, s.width as int, m.0, m.1 as int, m.2 as int, pos, ri);
        let sig = board_sig(b2, reqs);
        let key = ((n - 1) as nat, sig);
        if !fits || visited.contains(key) {
            lemma_search_follows_stack(parts, reqs, s, board, stack, n, i + 1, visited);
            assert(search(parts, reqs, s, board, stack, n, i, visited) == search(parts, reqs, s, board, stack, n, i + 1, visited));
        } else {
            let sub = search(parts, reqs, s, b2, stack, (n - 1) as nat, 0, visited.push(key));
            lemma_search_follows_stack(parts, reqs, s, b2, stack, (n - 1) as nat, 0, visited.push(key));
            lemma_search_follows_stack(parts, reqs, s, board, stack, n, i + 1, sub.1);
            let here = if n == 1 && !colors_ok(parts, reqs, b2, s.height as int, s.width as int) {
                Seq::empty()
            } else {
                sub.0.map_values(|sol: Seq<(usize, Placement)>| sol.push((ri, p)))
            };
            let more = search(parts, reqs, s, board, stack, n, i + 1, sub.1);
            assert forall|a: int| 0 <= a < here.len() implies follows_stack(#[trigger] here[a], stack, n) by {
                assert(follows_stack(sub.0[a], stack, (n - 1) as nat));
            }
            let all = here + more.0;
            assert(search(parts, reqs, s, board, stack, n, i, visited).0 == all);
            assert forall|a: int| 0 <= a < all.len() implies follows_stack(#[trigger] all[a], stack, n) by {
                if a < here.len() {
                    assert(all[a] == here[a]);
                } else {
                    assert(all[a] == more.0[a - here.len()]);
                }
            }
        }
    }
}

/// The requirements of `stack[0..n]` are `0..n`, each once.
pub open spec fn indexes_all(stack: Seq<(usize, Seq<Placement>)>, n: nat) -> bool {
    &&& stack.len() == n
    &&& forall|k: int| 0 <= k < n ==> (#[trigger] stack[k]).0 < n
    &&& forall|a: int, b: int| 0 <= a < b < n ==> (#[trigger] stack[a]).0 != (#[trigger] stack[b]).0
    &&& forall|i: int| 0 <= i < n ==> #[trigger] has_index(stack, n, i)
}

/// Some entry of `stack[0..n]` is for requirement `i`.
pub open spec fn has_index(stack: Seq<(usize, Seq<Placement>)>, n: nat, i: int) -> bool {
    exists|k: int| 0 <= k < n && (#[trigger] stack[k]).0 == i
}

/// Each requirement with its candidate placements, in requirement order.
pub open spec fn initial_stack(parts: Seq<Part>, reqs: Seq<Requirement>, s: GridSettings) -> Seq<
    (usize, Seq<Placement>),
> {
    Seq::new(
        reqs.len(),
        |i: int| (i as usize, placements_of(parts[reqs[i].part_index as int], s, reqs[i].constraint)),
    )
}

/// The number of candidates of a stack entry.
pub open spec fn candidate_count() -> spec_fn((usize, Seq<Placement>)) -> int {
    |e: (usize, Seq<Placement>)| e.1.len() as int
}

/// The requirements ordered by decreasing number of candidates, equal
/// counts by index; the search takes them from the end.
pub open spec fn ordered_stack(parts: Seq<Part>, reqs: Seq<Requirement>, s: GridSettings) -> Seq<
    (usize, Seq<Placement>),
> {
    sort_desc(initial_stack(parts, reqs, s), candidate_count())
}

/// Every assignment the search finds from a new board, each listing the
/// requirements in the order of `ordered_stack`.
pub open spec fn assignments(parts: Seq<Part>, reqs: Seq<Requirement>, s: GridSettings) -> Seq<
    Seq<(usize, Placement)>,
> {
    search(parts, reqs, s, fresh_board(s), ordered_stack(parts, reqs, s), reqs.len(), 0, Seq::empty()).0
}

/// The placements of an assignment in requirement order.
pub open spec fn by_requirement(sol: Seq<(usize, Placement)>, n: nat) -> Seq<Placement> {
    Seq::new(n, |i: int| sol[choose|k: int| 0 <= k < sol.len() && (#[trigger] sol[k]).0 == i].1)
}

/// Each of `sols` in requirement order.
pub open spec fn in_requirement_order(sols: Seq<Seq<(usize, Placement)>>, n: nat) -> Seq<Seq<Placement>> {
    sols.map_values(|sol: Seq<(usize, Placement)>| by_requirement(sol, n))
}

/// Every solution: nothing when the requirements cannot fit, else each
/// assignment of the search in requirement order.
pub open spec fn solutions(parts: Seq<Part>, reqs: Seq<Requirement>, s: GridSettings) -> Seq<Seq<Placement>> {
    if !requirements_fit(parts, reqs, s) {
        Seq::empty()
    } else {
        in_requirement_order(assignments(parts, reqs, s), reqs.len())
    }
}

#[verifier::rlimit(40)]
proof fn lemma_ordered_indexes_all(parts: Seq<Part>, reqs: Seq<Requirement>, s: GridSettings, m: nat)
    requires
        m <= reqs.len(),
        reqs.len() <= usize::MAX,
    ensures
        indexes_all(sort_desc(initial_stack(parts, reqs, s).take(m as int), candidate_count()), m),
    decreases m,
{
    let init = initial_stack(parts, reqs, s);
    if m == 0 {
        assert(init.take(0) =~= Seq::<(usize, Seq<Placement>)>::empty());
    } else {
        lemma_ordered_indexes_all(parts, reqs, s, (m - 1) as nat);
        let prev = sort_desc(init.take(m - 1), candidate_count());
        let x = init[m - 1];
        assert(init.take(m as int) =~= init.take(m - 1).push(x));
        lemma_sort_desc_push(init.take(m - 1), x, candidate_count());
        lemma_insert_desc_is_insert(prev, x, candidate_count());
        let p = choose|p: int| 0 <= p <= prev.len() && insert_desc(prev, x, candidate_count()) == prev.insert(p, x);
        let cur = prev.insert(p, x);
        assert(x.0 == m - 1);
        assert forall|k: int| 0 <= k < m implies (#[trigger] cur[k]).0 < m by {
            if k < p {
                assert(cur[k] == prev[k]);
            } else if k > p {
                assert(cur[k] == prev[k - 1]);
            }
        }
        assert forall|a: int, b: int| 0 <= a < b < m implies (#[trigger] cur[a]).0 != (#[trigger] cur[b]).0 by {
            let pa = if a < p { a } else if a == p { -1 } else { a - 1 };
            let pb = if b < p { b } else if b == p { -1 } else { b - 1 };
            if pa >= 0 {
                assert(cur[a] == prev[pa]);
            }
            if pb >= 0 {
                assert(cur[b] == prev[pb]);
            }
            if pa >= 0 && pb >= 0 {
                assert(prev[pa].0 != prev[pb].0);
            }
        }
        assert forall|i: int| 0 <= i < m implies #[trigger] has_index(cur, m, i) by {
            if i == m - 1 {
                assert(cur[p].0 == i);
            } else {
                assert(has_index(prev, (m - 1) as nat, i));
                let k = choose|k: int| 0 <= k < m - 1 && (#[trigger] prev[k]).0 == i;
                if k < p {
                    assert(cur[k] == prev[k]);
                } else {
                    assert(cur[k + 1] == prev[k]);
                }
            }
        }
    }
}

/// Requirement `i` appears at exactly one place in `sol`.
pub open spec fn appears_once(sol: Seq<(usize, Placement)>, i: int) -> bool {
    &&& exists|k: int| 0 <= k < sol.len() && (#[trigger] sol[k]).0 == i
    &&& forall|k1: int, k2: int|
        0 <= k1 < sol.len() && 0 <= k2 < sol.len() && (#[trigger] sol[k1]).0 == i && (#[trigger] sol[k2]).0 == i
            ==> k1 == k2
}

/// In every assignment the search yields, each requirement appears
/// exactly once.
pub proof fn lemma_each_requirement_once(parts: Seq<Part>, reqs: Seq<Requirement>, s: GridSettings)
    requires
        reqs.len() <= usize::MAX,
    ensures
        forall|a: int| 0 <= a < assignments(parts, reqs, s).len() ==> (#[trigger] assignments(parts, reqs, s)[a]).len() == reqs.len(),
        forall|a: int, i: int|
            0 <= a < assignments(parts, reqs, s).len() && 0 <= i < reqs.len() ==> #[trigger] appears_once(
                assignments(parts, reqs, s)[a],
                i,
            ),
{
    let n = reqs.len();
    let stack = ordered_stack(parts, reqs, s);
    assert(initial_stack(parts, reqs, s).take(n as int) =~= initial_stack(parts, reqs, s));
    lemma_ordered_indexes_all(parts, reqs, s, n);
    lemma_search_follows_stack(parts, reqs, s, fresh_board(s), stack, n, 0, Seq::empty());
    assert forall|a: int| 0 <= a < assignments(parts, reqs, s).len() implies (#[trigger] assignments(parts, reqs, s)[a]).len() == n by {
        assert(follows_stack(assignments(parts, reqs, s)[a], stack, n));
    }
    assert forall|a: int, i: int|
        0 <= a < assignments(parts, reqs, s).len() && 0 <= i < n implies #[trigger] appears_once(
            assignments(parts, reqs, s)[a],
            i,
        ) by {
        let sol = assignments(parts, reqs, s)[a];
        assert(follows_stack(sol, stack, n));
        assert(has_index(stack, n, i));
        let k = choose|k: int| 0 <= k < n && (#[trigger] stack[k]).0 == i;
        assert(sol[k].0 == i);
        assert forall|k1: int, k2: int|
            0 <= k1 < sol.len() && 0 <= k2 < sol.len() && (#[trigger] sol[k1]).0 == i && (#[trigger] sol[k2]).0 == i
                implies k1 == k2 by {
            assert(stack[k1].0 == sol[k1].0);
            assert(stack[k2].0 == sol[k2].0);
            if k1 < k2 {
                assert(stack[k1].0 != stack[k2].0);
            } else if k2 < k1 {
                assert(stack[k2].0 != stack[k1].0);
            }
        }
    }
}

/// One placement per requirement, in requirement order.
pub type Solution = Vec<Placement>;

pub open spec fn solutions_view(v: Seq<Vec<Placement>>) -> Seq<Seq<Placement>> {
    v.map_values(|s: Vec<Placement>| s@)
}

/// The requirements with their candidate placements, ordered by
/// decreasing number of candidates, equal counts by index.
fn build_stack(parts: &[Part], requirements: &[Requirement], settings: &GridSettings) -> (r: Vec<
    Candidates,
>)
    requires
        requirements_ready(requirements@, *settings),
        parts_named(parts@, requirements@),
    ensures
        stack_view(r@) == ordered_stack(parts@, requirements@, *settings),
{
    let ghost init = initial_stack(parts@, requirements@, *settings);
    let ghost key = candidate_count();
    let mut stack: Vec<Candidates> = Vec::new();
    let mut i: usize = 0;
    while i < requirements.len()
        invariant
            requirements_ready(requirements@, *settings),
            parts_named(parts@, requirements@),
            init == initial_stack(parts@, requirements@, *settings),
            key == candidate_count(),
            i <= requirements@.len(),
            stack_view(stack@) == sort_desc(init.take(i as int), key),
        decreases requirements@.len() - i,
    {
        let req = &requirements[i];
        assert(req.part_index < parts@.len());
        let cands = placements(&parts[req.part_index], settings, &req.constraint);
        let count = cands.len();
        let ghost x = (i, cands@);
        assert(x == init[i as int]);
        let mut p: usize = 0;
        while p < stack.len()
            invariant
                p <= stack@.len(),
                key == candidate_count(),
                count == key(x),
                forall|k: int| 0 <= k < p ==> !(key(#[trigger] stack_view(stack@)[k]) < key(x)),
            ensures
                p <= stack@.len(),
                forall|k: int| 0 <= k < p ==> !(key(#[trigger] stack_view(stack@)[k]) < key(x)),
                p < stack@.len() ==> key(stack_view(stack@)[p as int]) < key(x),
            decreases stack@.len() - p,
        {
            if stack[p].1.len() < count {
                break;
            }
            p = p + 1;
        }
        proof {
            lemma_insert_desc_at(stack_view(stack@), x, key, p as int);
            assert(init.take(i + 1) =~= init.take(i as int).push(x));
            lemma_sort_desc_push(init.take(i as int), x, key);
        }
        let ghost before = stack@;
        stack.insert(p, (i, cands));
        assert(stack_view(stack@) =~= stack_view(before).insert(p as int, x));
        i = i + 1;
    }
    assert(init.take(requirements@.len() as int) =~= init);
    stack
}

/// Every way to give each requirement one placement so that no two parts
/// overlap, every part respects its own flags, and the finished board
/// respects the color rule; boards that only swap equal parts count once.
/// Each solution lists the placements in requirement order.
pub fn solve(parts: &[Part], requirements: &[Requirement], settings: &GridSettings) -> (r: Vec<
    Solution,
>)
    requires
        requirements_ready(requirements@, *settings),
        parts_named(parts@, requirements@),
    ensures
        solutions_view(r@) == solutions(parts@, requirements@, *settings),
{
    if !requirements_are_admissible(parts, requirements, settings) {
        assert(solutions_view(Seq::<Vec<Placement>>::empty()) =~= Seq::<Seq<Placement>>::empty());
        return Vec::new();
    }
    let n = requirements.len();
    let stack = build_stack(parts, requirements, settings);
    let ghost sv = stack_view(stack@);
    proof {
        assert(initial_stack(parts@, requirements@, *settings).take(n as int) =~= initial_stack(
            parts@,
            requirements@,
            *settings,
        ));
        lemma_ordered_indexes_all(parts@, requirements@, *settings, n as nat);
        lemma_search_follows_stack(
            parts@,
            requirements@,
            *settings,
            fresh_board(*settings),
            sv,
            n as nat,
            0,
            Seq::empty(),
        );
    }
    let grid = Grid::new(settings);
    let mut visited: Vec<(usize, Vec<Vec<Option<usize>>>)> = Vec::new();
    assert(visited_view(visited@) =~= Seq::<MemoKey>::empty());
    assert(names_requirements(grid@, settings.height as int, settings.width as int, n as int));
    let raw = solve1(parts, requirements, settings, &grid, &stack, n, &mut visited);
    let ghost all = assignments(parts@, requirements@, *settings);
    assert(results_view(raw@) == all);
    let mut out: Vec<Vec<Placement>> = Vec::new();
    let mut a: usize = 0;
    while a < raw.len()
        invariant
            n == requirements@.len(),
            sv == stack_view(stack@),
            indexes_all(sv, n as nat),
            results_view(raw@) == all,
            forall|b: int| 0 <= b < all.len() ==> follows_stack(#[trigger] all[b], sv, n as nat),
            a <= raw@.len(),
            solutions_view(out@) == in_requirement_order(all.take(a as int), n as nat),
        decreases raw@.len() - a,
    {
        let sol = &raw[a];
        assert(sol@ == all[a as int]);
        assert(follows_stack(sol@, sv, n as nat));
        let mut placed: Vec<Placement> = Vec::new();
        if n > 0 {
            placed = vec![sol[0].1; n];
        }
        let mut k: usize = 0;
        while k < n
            invariant
                n == requirements@.len(),
                sv == stack_view(stack@),
                indexes_all(sv, n as nat),
                follows_stack(sol@, sv, n as nat),
                k <= n,
                placed@.len() == n,
                forall|k2: int| 0 <= k2 < k ==> placed@[(#[trigger] sv[k2]).0 as int] == sol@[k2].1,
            decreases n - k,
        {
            let idx = stack[k].0;
            assert(idx == sv[k as int].0);
            placed.set(idx, sol[k].1);
            assert forall|k2: int| 0 <= k2 < k + 1 implies placed@[(#[trigger] sv[k2]).0 as int] == sol@[k2].1 by {
                if k2 < k {
                    assert(sv[k2].0 != sv[k as int].0);
                }
            }
            k = k + 1;
        }
        proof {
            let want = by_requirement(sol@, n as nat);
            assert forall|i: int| 0 <= i < n implies placed@[i] == want[i] by {
                assert(has_index(sv, n as nat, i));
                let k = choose|k: int| 0 <= k < n && (#[trigger] sv[k]).0 == i;
                assert(sol@[k].0 == i);
                let c = choose|c: int| 0 <= c < sol@.len() && (#[trigger] sol@[c]).0 == i;
                assert(sv[c].0 == i);
                if c != k {
                    if c < k {
                        assert(sv[c].0 != sv[k].0);
                    } else {
                        assert(sv[k].0 != sv[c].0);
                    }
                }
            }
            assert(placed@ =~= want);
            assert(all.take(a + 1) =~= all.take(a as int).push(all[a as int]));
        }
        let ghost out0 = out@;
        out.push(placed);
        proof {
            assert(solutions_view(out@) =~= solutions_view(out0).push(placed@));
            assert(in_requirement_order(all.take(a + 1), n as nat) =~= in_requirement_order(
                all.take(a as int),
                n as nat,
            ).push(by_requirement(all[a as int], n as nat)));
        }
        a = a + 1;
    }
    assert(all.take(raw@.len() as int) =~= all);
    out
}

/// The board after placing `sol[n - 1]`, then `sol[n - 2]`, and so on down
/// to `sol[0]` on `board`: the order in which the search places them.
pub open spec fn board_after(
    parts: Seq<Part>,
    reqs: Seq<Requirement>,
    s: GridSettings,
    board: Seq<Seq<Cell>>,
    sol: Seq<(usize, Placement)>,
    n: nat,
) -> Seq<Seq<Cell>>
    decreases n,
{
    if n == 0 {
        board
    } else {
        let ri = sol[n - 1].0;
        let p = sol[n - 1].1;
        let m = placed_mask(parts[reqs[ri as int].part_index as int], p);
        board_after(
            parts,
            reqs,
            s,
            stamped(board, s.height as int, s.width as int, m.0, m.1 as int, m.2 as int, p.loc.position, ri),
            sol,
            (n - 1) as nat,
        )
    }
}

/// The finished board of an assignment, as seen by its parts.
pub open spec fn final_sig(
    parts: Seq<Part>,
    reqs: Seq<Requirement>,
    s: GridSettings,
    board: Seq<Seq<Cell>>,
    sol: Seq<(usize, Placement)>,
    n: nat,
) -> Signature {
    board_sig(board_after(parts, reqs, s, board, sol, n), reqs)
}

/// `b` starts with `a`.
pub open spec fn extends(a: Seq<MemoKey>, b: Seq<MemoKey>) -> bool {
    a.len() <= b.len() && forall|k: int| 0 <= k < a.len() ==> #[trigger] b[k] == a[k]
}

proof fn lemma_extends_contains(a: Seq<MemoKey>, b: Seq<MemoKey>, x: MemoKey)
    requires
        extends(a, b),
        a.contains(x),
    ensures
        b.contains(x),
{
    let k = choose|k: int| 0 <= k < a.len() && a[k] == x;
    assert(b[k] == x);
}

proof fn lemma_board_after_prefix(
    parts: Seq<Part>,
    reqs: Seq<Requirement>,
    s: GridSettings,
    board: Seq<Seq<Cell>>,
    x: Seq<(usize, Placement)>,
    y: Seq<(usize, Placement)>,
    n: nat,
)
    requires
        n <= x.len(),
        n <= y.len(),
        forall|k: int| 0 <= k < n ==> x[k] == y[k],
    ensures
        board_after(parts, reqs, s, board, x, n) == board_after(parts, reqs, s, board, y, n),
    decreases n,
{
    if n > 0 {
        let ri = x[n - 1].0;
        let p = x[n - 1].1;
        let m = placed_mask(parts[reqs[ri as int].part_index as int], p);
        let b2 = stamped(board, s.height as int, s.width as int, m.0, m.1 as int, m.2 as int, p.loc.position, ri);
        lemma_board_after_prefix(parts, reqs, s, b2, x, y, (n - 1) as nat);
    }
}

proof fn lemma_search_distinct(
    parts: Seq<Part>,
    reqs: Seq<Requirement>,
    s: GridSettings,
    board: Seq<Seq<Cell>>,
    stack: Seq<(usize, Seq<Placement>)>,
    n: nat,
    i: nat,
    visited: Seq<MemoKey>,
)
    requires
        n <= stack.len(),
    ensures
        extends(visited, search(parts, reqs, s, board, stack, n, i, visited).1),
        n > 0 ==> forall|a: int|
            0 <= a < search(parts, reqs, s, board, stack, n, i, visited).0.len() ==> {
                let f = #[trigger] final_sig(
                    parts,
                    reqs,
                    s,
                    board,
                    search(parts, reqs, s, board, stack, n, i, visited).0[a],
                    n,
                );
                !visited.contains((0nat, f)) && search(parts, reqs, s, board, stack, n, i, visited).1.contains((0nat, f))
            },
        n > 0 ==> forall|a: int, b: int|
            0 <= a < b < search(parts, reqs, s, board, stack, n, i, visited).0.len() ==> #[trigger] final_sig(
                parts,
                reqs,
                s,
                board,
                search(parts, reqs, s, board, stack, n, i, visited).0[a],
                n,
            ) != #[trigger] final_sig(
                parts,
                reqs,
                s,
                board,
                search(parts, reqs, s, board, stack, n, i, visited).0[b],
                n,
            ),
    decreases n, if n > 0 {
        stack[n - 1].1.len() - i
    } else {
        0
    },
{
    let res = search(parts, reqs, s, board, stack, n, i, visited);
    if n == 0 {
    } else if i >= stack[n - 1].1.len() {
    } else {
        let ri = stack[n - 1].0;
        let p = stack[n - 1].1[i as int];
        let req = reqs[ri as int];
        let part = parts[req.part_index as int];
        let m = placed_mask(part, p);
        let pos = p.loc.position;
        let fits = place_verdict(board, s.height, s.width, m.0, m.1, m.2, pos).is_ok() && admissible(
            m.0,
            m.1,
            m.2,
            pos,
            part.is_solid,
            s,
            req.constraint.on_command_line,
            req.constraint.bugged,
        );
        let b2 = stamped(board, s.height as int, s.width as int, m.0, m.1 as int, m.2 as int, pos, ri);
        let sig = board_sig(b2, reqs);
        let key = ((n - 1) as nat, sig);
        if !fits || visited.contains(key) {
            lemma_search_distinct(parts, reqs, s, board, stack, n, i + 1, visited);
            assert(res == search(parts, reqs, s, board, stack, n, i + 1, visited));
        } else {
            let v1 = visited.push(key);
            let sub = search(parts, reqs, s, b2, stack, (n - 1) as nat, 0, v1);
            lemma_search_distinct(parts, reqs, s, b2, stack, (n - 1) as nat, 0, v1);
            lemma_search_follows_stack(parts, reqs, s, b2, stack, (n - 1) as nat, 0, v1);
            let more = search(parts, reqs, s, board, stack, n, i + 1, sub.1);
            lemma_search_distinct(parts, reqs, s, board, stack, n, i + 1, sub.1);
            let here = if n == 1 && !colors_ok(parts, reqs, b2, s.height as int, s.width as int) {
                Seq::empty()
            } else {
                sub.0.map_values(|sol: Seq<(usize, Placement)>| sol.push((ri, p)))
            };
            assert(res.0 == here + more.0);
            assert(res.1 == more.1);
            assert(extends(visited, v1));
            assert(extends(visited, more.1));
            // each assignment found here ends on the board its sub-assignment ends on
            assert forall|a: int| 0 <= a < here.len() implies #[trigger] final_sig(parts, reqs, s, board, here[a], n)
                == if n == 1 {
                sig
            } else {
                final_sig(parts, reqs, s, b2, sub.0[a], (n - 1) as nat)
            } by {
                let x = here[a];
                let y = sub.0[a];
                assert(x == y.push((ri, p)));
                assert(follows_stack(y, stack, (n - 1) as nat));
                assert(board_after(parts, reqs, s, board, x, n) == board_after(parts, reqs, s, b2, x, (n - 1) as nat));
                lemma_board_after_prefix(parts, reqs, s, b2, x, y, (n - 1) as nat);
            }
            assert forall|a: int| 0 <= a < here.len() implies {
                let f = #[trigger] final_sig(parts, reqs, s, board, here[a], n);
                !visited.contains((0nat, f)) && sub.1.contains((0nat, f))
            } by {
                let f = final_sig(parts, reqs, s, board, here[a], n);
                if n == 1 {
                    assert(v1[v1.len() - 1] == key);
                    assert(v1.contains(key));
                    lemma_extends_contains(v1, sub.1, key);
                } else {
                    assert(final_sig(parts, reqs, s, b2, sub.0[a], (n - 1) as nat) == f);
                    if visited.contains((0nat, f)) {
                        lemma_extends_contains(visited, v1, (0nat, f));
                    }
                }
            }
            assert forall|a: int, b: int| 0 <= a < b < here.len() implies #[trigger] final_sig(
                parts,
                reqs,
                s,
                board,
                here[a],
                n,
            ) != #[trigger] final_sig(parts, reqs, s, board, here[b], n) by {
                if n == 1 {
                    assert(sub.0.len() == 1);
                } else {
                    assert(final_sig(parts, reqs, s, b2, sub.0[a], (n - 1) as nat) != final_sig(
                        parts,
                        reqs,
                        s,
                        b2,
                        sub.0[b],
                        (n - 1) as nat,
                    ));
                }
            }
            let all = here + more.0;
            assert forall|a: int| 0 <= a < all.len() implies {
                let f = #[trigger] final_sig(parts, reqs, s, board, all[a], n);
                !visited.contains((0nat, f)) && more.1.contains((0nat, f)) && (a < here.len() <==> sub.1.contains((0nat, f)))
            } by {
                let f = final_sig(parts, reqs, s, board, all[a], n);
                if a < here.len() {
                    assert(all[a] == here[a]);
                    lemma_extends_contains(sub.1, more.1, (0nat, f));
                } else {
                    assert(all[a] == more.0[a - here.len()]);
                    if visited.contains((0nat, f)) {
                        lemma_extends_contains(visited, v1, (0nat, f));
                        lemma_extends_contains(v1, sub.1, (0nat, f));
                    }
                }
            }
            assert forall|a: int, b: int| 0 <= a < b < all.len() implies #[trigger] final_sig(
                parts,
                reqs,
                s,
                board,
                all[a],
                n,
            ) != #[trigger] final_sig(parts, reqs, s, board, all[b], n) by {
                let fa = final_sig(parts, reqs, s, board, all[a], n);
                let fb = final_sig(parts, reqs, s, board, all[b], n);
                if b < here.len() {
                    assert(all[a] == here[a] && all[b] == here[b]);
                } else if a >= here.len() {
                    assert(all[a] == more.0[a - here.len()] && all[b] == more.0[b - here.len()]);
                }
            }
        }
    }
}

/// No two assignments the search yields finish on the same board as seen
/// by its parts: each arrangement of parts is found once.
pub proof fn lemma_boards_distinct(parts: Seq<Part>, reqs: Seq<Requirement>, s: GridSettings)
    ensures
        forall|a: int, b: int|
            0 <= a < b < assignments(parts, reqs, s).len() ==> #[trigger] final_sig(
                parts,
                reqs,
                s,
                fresh_board(s),
                assignments(parts, reqs, s)[a],
                reqs.len(),
            ) != #[trigger] final_sig(
                parts,
                reqs,
                s,
                fresh_board(s),
                assignments(parts, reqs, s)[b],
                reqs.len(),
            ),
{
    let stack = ordered_stack(parts, reqs, s);
    lemma_sort_desc_len(initial_stack(parts, reqs, s), candidate_count());
    lemma_search_distinct(parts, reqs, s, fresh_board(s), stack, reqs.len(), 0, Seq::empty());
}



/// `sol[n - 1]`, then `sol[n - 2]`, and so on down to `sol[0]` can each be
/// placed in turn from `board`: every placement lands on empty cells of
/// the board as it stands and respects its requirement's own flags.
pub open spec fn places_cleanly(
    parts: Seq<Part>,
    reqs: Seq<Requirement>,
    s: GridSettings,
    board: Seq<Seq<Cell>>,
    sol: Seq<(usize, Placement)>,
    n: nat,
) -> bool
    decreases n,
{
    if n == 0 {
        true
    } else {
        let ri = sol[n - 1].0;
        let p = sol[n - 1].1;
        let req = reqs[ri as int];
        let part = parts[req.part_index as int];
        let m = placed_mask(part, p);
        let pos = p.loc.position;
        &&& place_verdict(board, s.height, s.width, m.0, m.1, m.2, pos).is_ok()
        &&& admissible(m.0, m.1, m.2, pos, part.is_solid, s, req.constraint.on_command_line, req.constraint.bugged)
        &&& places_cleanly(
            parts,
            reqs,
            s,
            stamped(board, s.height as int, s.width as int, m.0, m.1 as int, m.2 as int, pos, ri),
            sol,
            (n - 1) as nat,
        )
    }
}

proof fn lemma_places_cleanly_prefix(
    parts: Seq<Part>,
    reqs: Seq<Requirement>,
    s: GridSettings,
    board: Seq<Seq<Cell>>,
    x: Seq<(usize, Placement)>,
    y: Seq<(usize, Placement)>,
    n: nat,
)
    requires
        n <= x.len(),
        n <= y.len(),
        forall|k: int| 0 <= k < n ==> x[k] == y[k],
    ensures
        places_cleanly(parts, reqs, s, board, x, n) == places_cleanly(parts, reqs, s, board, y, n),
    decreases n,
{
    if n > 0 {
        let ri = x[n - 1].0;
        let p = x[n - 1].1;
        let m = placed_mask(parts[reqs[ri as int].part_index as int], p);
        let b2 = stamped(board, s.height as int, s.width as int, m.0, m.1 as int, m.2 as int, p.loc.position, ri);
        lemma_places_cleanly_prefix(parts, reqs, s, b2, x, y, (n - 1) as nat);
    }
}

/// What every assignment found from `board` satisfies.
pub open spec fn sound(
    parts: Seq<Part>,
    reqs: Seq<Requirement>,
    s: GridSettings,
    board: Seq<Seq<Cell>>,
    stack: Seq<(usize, Seq<Placement>)>,
    sol: Seq<(usize, Placement)>,
    n: nat,
) -> bool {
    &&& forall|k: int| 0 <= k < n ==> stack[k].1.contains(#[trigger] sol[k].1)
    &&& places_cleanly(parts, reqs, s, board, sol, n)
    &&& n > 0 ==> colors_ok(parts, reqs, board_after(parts, reqs, s, board, sol, n), s.height as int, s.width as int)
}

proof fn lemma_search_sound(
    parts: Seq<Part>,
    reqs: Seq<Requirement>,
    s: GridSettings,
    board: Seq<Seq<Cell>>,
    stack: Seq<(usize, Seq<Placement>)>,
    n: nat,
    i: nat,
    visited: Seq<MemoKey>,
)
    requires
        n <= stack.len(),
    ensures
        forall|a: int|
            0 <= a < search(parts, reqs, s, board, stack, n, i, visited).0.len() ==> sound(
                parts,
                reqs,
                s,
                board,
                stack,
                #[trigger] search(parts, reqs, s, board, stack, n, i, visited).0[a],
                n,
            ),
    decreases n, if n > 0 {
        stack[n - 1].1.len() - i
    } else {
        0
    },
{
    let res = search(parts, reqs, s, board, stack, n, i, visited);
    if n == 0 {
        assert forall|a: int| 0 <= a < res.0.len() implies sound(parts, reqs, s, board, stack, #[trigger] res.0[a], n) by {}
    } else if i >= stack[n - 1].1.len() {
    } else {
        let ri = stack[n - 1].0;
        let p = stack[n - 1].1[i as int];
        let req = reqs[ri as int];
        let part = parts[req.part_index as int];
        let m = placed_mask(part, p);
        let pos = p.loc.position;
        let fits = place_verdict(board, s.height, s.width, m.0, m.1, m.2, pos).is_ok() && admissible(
            m.0,
            m.1,
            m.2,
            pos,
            part.is_solid,
            s,
            req.constraint.on_command_line,
            req.constraint.bugged,
        );
        let b2 = stamped(board, s.height as int, s.width as int, m.0, m.1 as int, m.2 as int, pos, ri);
        let sig = board_sig(b2, reqs);
        let key = ((n - 1) as nat, sig);
        if !fits || visited.contains(key) {
            lemma_search_sound(parts, reqs, s, board, stack, n, i + 1, visited);
            assert(res == search(parts, reqs, s, board, stack, n, i + 1, visited));
        } else {
            let v1 = visited.push(key);
            let sub = search(parts, reqs, s, b2, stack, (n - 1) as nat, 0, v1);
            lemma_search_sound(parts, reqs, s, b2, stack, (n - 1) as nat, 0, v1);
            lemma_search_follows_stack(parts, reqs, s, b2, stack, (n - 1) as nat, 0, v1);
            let more = search(parts, reqs, s, board, stack, n, i + 1, sub.1);
            lemma_search_sound(parts, reqs, s, board, stack, n, i + 1, sub.1);
            let here = if n == 1 && !colors_ok(parts, reqs, b2, s.height as int, s.width as int) {
                Seq::empty()
            } else {
                sub.0.map_values(|sol: Seq<(usize, Placement)>| sol.push((ri, p)))
            };
            assert(res.0 == here + more.0);
            assert forall|a: int| 0 <= a < here.len() implies sound(parts, reqs, s, board, stack, #[trigger] here[a], n) by {
                let x = here[a];
                let y = sub.0[a];
                assert(x == y.push((ri, p)));
                assert(follows_stack(y, stack, (n - 1) as nat));
                assert(sound(parts, reqs, s, b2, stack, y, (n - 1) as nat));
                assert(stack[n - 1].1.contains(p));
                assert forall|k: int| 0 <= k < n implies stack[k].1.contains(#[trigger] x[k].1) by {
                    if k < n - 1 {
                        assert(x[k] == y[k]);
                    }
                }
                lemma_places_cleanly_prefix(parts, reqs, s, b2, x, y, (n - 1) as nat);
                assert(places_cleanly(parts, reqs, s, board, x, n));
                assert(board_after(parts, reqs, s, board, x, n) == board_after(parts, reqs, s, b2, x, (n - 1) as nat));
                lemma_board_after_prefix(parts, reqs, s, b2, x, y, (n - 1) as nat);
            }
            let all = here + more.0;
            assert forall|a: int| 0 <= a < all.len() implies sound(parts, reqs, s, board, stack, #[trigger] all[a], n) by {
                if a < here.len() {
                    assert(all[a] == here[a]);
                } else {
                    assert(all[a] == more.0[a - here.len()]);
                }
            }
        }
    }
}

/// Every assignment the search yields gives each requirement one of its
/// own candidate placements; placed one after another on a new board they
/// never overlap, never leave the usable area and each respects its
/// requirement's flags; and the finished board respects the color rule.
pub proof fn lemma_assignments_sound(parts: Seq<Part>, reqs: Seq<Requirement>, s: GridSettings)
    requires
        reqs.len() <= usize::MAX,
    ensures
        forall|a: int|
            0 <= a < assignments(parts, reqs, s).len() ==> {
                let sol = #[trigger] assignments(parts, reqs, s)[a];
                &&& sol.len() == reqs.len()
                &&& forall|k: int|
                    0 <= k < sol.len() ==> {
                        let ri = (#[trigger] sol[k]).0 as int;
                        &&& 0 <= ri < reqs.len()
                        &&& placements_of(parts[reqs[ri].part_index as int], s, reqs[ri].constraint).contains(sol[k].1)
                    }
                &&& places_cleanly(parts, reqs, s, fresh_board(s), sol, reqs.len())
                &&& reqs.len() > 0 ==> colors_ok(
                    parts,
                    reqs,
                    board_after(parts, reqs, s, fresh_board(s), sol, reqs.len()),
                    s.height as int,
                    s.width as int,
                )
            },
{
    let n = reqs.len();
    let init = initial_stack(parts, reqs, s);
    let stack = ordered_stack(parts, reqs, s);
    lemma_sort_desc_members(init, candidate_count());
    lemma_search_follows_stack(parts, reqs, s, fresh_board(s), stack, n, 0, Seq::empty());
    lemma_search_sound(parts, reqs, s, fresh_board(s), stack, n, 0, Seq::empty());
    assert forall|k: int| 0 <= k < n implies #[trigger] stack[k].1 == placements_of(
        parts[reqs[stack[k].0 as int].part_index as int],
        s,
        reqs[stack[k].0 as int].constraint,
    ) && stack[k].0 < n by {
        let m = choose|m: int| 0 <= m < init.len() && stack[k] == init[m];
        assert(stack[k] == init[m]);
    }
    assert forall|a: int| 0 <= a < assignments(parts, reqs, s).len() implies {
        let sol = #[trigger] assignments(parts, reqs, s)[a];
        &&& sol.len() == reqs.len()
        &&& forall|k: int|
            0 <= k < sol.len() ==> {
                let ri = (#[trigger] sol[k]).0 as int;
                &&& 0 <= ri < reqs.len()
                &&& placements_of(parts[reqs[ri].part_index as int], s, reqs[ri].constraint).contains(sol[k].1)
            }
        &&& places_cleanly(parts, reqs, s, fresh_board(s), sol, reqs.len())
        &&& reqs.len() > 0 ==> colors_ok(
            parts,
            reqs,
            board_after(parts, reqs, s, fresh_board(s), sol, reqs.len()),
            s.height as int,
            s.width as int,
        )
    } by {
        let sol = assignments(parts, reqs, s)[a];
        assert(follows_stack(sol, stack, n));
        assert(sound(parts, reqs, s, fresh_board(s), stack, sol, n));
        assert forall|k: int| 0 <= k < sol.len() implies {
            let ri = (#[trigger] sol[k]).0 as int;
            &&& 0 <= ri < reqs.len()
            &&& placements_of(parts[reqs[ri].part_index as int], s, reqs[ri].constraint).contains(sol[k].1)
        } by {
            assert(sol[k].0 == stack[k].0);
            assert(stack[k].1.contains(sol[k].1));
        }
    }
}

/// A board the search can reach from a new one: a rectangle of the
/// settings' size whose placed cells name requirements and whose forbidden
/// cells are exactly those of a new board.
pub open spec fn reachable(reqs: Seq<Requirement>, s: GridSettings, b: Seq<Seq<Cell>>) -> bool {
    &&& is_rect(b, s.height as int, s.width as int)
    &&& names_requirements(b, s.height as int, s.width as int, reqs.len() as int)
    &&& forall|r: int, c: int|
        0 <= r < s.height && 0 <= c < s.width ==> (#[trigger] b[r][c] == Cell::Forbidden) == (fresh_board(
            s,
        )[r][c] == Cell::Forbidden)
}

/// Requirements of the same part carry the same flags.
pub open spec fn same_part_same_flags(reqs: Seq<Requirement>) -> bool {
    forall|i: int, j: int|
        0 <= i < reqs.len() && 0 <= j < reqs.len() && (#[trigger] reqs[i]).part_index == (#[trigger] reqs[j]).part_index
            ==> reqs[i].constraint == reqs[j].constraint
}

proof fn lemma_cell_agree(
    reqs: Seq<Requirement>,
    s: GridSettings,
    b: Seq<Seq<Cell>>,
    bb: Seq<Seq<Cell>>,
    r: int,
    c: int,
)
    requires
        reachable(reqs, s, b),
        reachable(reqs, s, bb),
        board_sig(b, reqs) == board_sig(bb, reqs),
        0 <= r < s.height,
        0 <= c < s.width,
    ensures
        (b[r][c] == Cell::Empty) == (bb[r][c] == Cell::Empty),
        (b[r][c] == Cell::Forbidden) == (bb[r][c] == Cell::Forbidden),
        b[r][c] matches Cell::Placed(x) ==> bb[r][c] matches Cell::Placed(y) && reqs[x as int].part_index
            == reqs[y as int].part_index,
{
    assert(board_sig(b, reqs)[r][c] == board_sig(bb, reqs)[r][c]);
    assert(b[r][c] == Cell::Forbidden <==> fresh_board(s)[r][c] == Cell::Forbidden);
    assert(bb[r][c] == Cell::Forbidden <==> fresh_board(s)[r][c] == Cell::Forbidden);
}

proof fn lemma_same_sig_place(
    reqs: Seq<Requirement>,
    s: GridSettings,
    b: Seq<Seq<Cell>>,
    bb: Seq<Seq<Cell>>,
    m: Seq<Seq<bool>>,
    mh: usize,
    mw: usize,
    pos: Position,
    ri: usize,
)
    requires
        reachable(reqs, s, b),
        reachable(reqs, s, bb),
        board_sig(b, reqs) == board_sig(bb, reqs),
        ri < reqs.len(),
    ensures
        place_verdict(b, s.height, s.width, m, mh, mw, pos) == place_verdict(bb, s.height, s.width, m, mh, mw, pos),
        place_verdict(b, s.height, s.width, m, mh, mw, pos).is_ok() ==> {
            let b2 = stamped(b, s.height as int, s.width as int, m, mh as int, mw as int, pos, ri);
            let bb2 = stamped(bb, s.height as int, s.width as int, m, mh as int, mw as int, pos, ri);
            &&& reachable(reqs, s, b2)
            &&& reachable(reqs, s, bb2)
            &&& board_sig(b2, reqs) == board_sig(bb2, reqs)
        },
{
    let h = s.height as int;
    let w = s.width as int;
    assert forall|r: int, c: int| 0 <= r < h && 0 <= c < w implies (#[trigger] b[r][c] != Cell::Empty) == (bb[r][c]
        != Cell::Empty) by {
        lemma_cell_agree(reqs, s, b, bb, r, c);
    }
    if clobbers(b, h, w, m, mh as int, mw as int, pos) {
        let (r, c) = choose|r: int, c: int|
            0 <= r < h && 0 <= c < w && covers(m, mh as int, mw as int, pos, r, c) && #[trigger] b[r][c] != Cell::Empty;
        assert(bb[r][c] != Cell::Empty);
    }
    if clobbers(bb, h, w, m, mh as int, mw as int, pos) {
        let (r, c) = choose|r: int, c: int|
            0 <= r < h && 0 <= c < w && covers(m, mh as int, mw as int, pos, r, c) && #[trigger] bb[r][c] != Cell::Empty;
        assert(b[r][c] != Cell::Empty);
    }
    if place_verdict(b, s.height, s.width, m, mh, mw, pos).is_ok() {
        lemma_stamped_reachable(reqs, s, b, m, mh, mw, pos, ri);
        lemma_stamped_reachable(reqs, s, bb, m, mh, mw, pos, ri);
        let b2 = stamped(b, h, w, m, mh as int, mw as int, pos, ri);
        let bb2 = stamped(bb, h, w, m, mh as int, mw as int, pos, ri);
        assert(board_sig(b2, reqs) =~~= board_sig(bb2, reqs)) by {
            assert forall|r: int| 0 <= r < h implies board_sig(b2, reqs)[r] =~= board_sig(bb2, reqs)[r] by {
                assert forall|c: int| 0 <= c < w implies board_sig(b2, reqs)[r][c] == board_sig(bb2, reqs)[r][c] by {
                    assert(board_sig(b, reqs)[r][c] == board_sig(bb, reqs)[r][c]);
                }
            }
        }
    }
}

proof fn lemma_stamped_reachable(
    reqs: Seq<Requirement>,
    s: GridSettings,
    b: Seq<Seq<Cell>>,
    m: Seq<Seq<bool>>,
    mh: usize,
    mw: usize,
    pos: Position,
    ri: usize,
)
    requires
        reachable(reqs, s, b),
        ri < reqs.len(),
        place_verdict(b, s.height, s.width, m, mh, mw, pos).is_ok(),
    ensures
        reachable(reqs, s, stamped(b, s.height as int, s.width as int, m, mh as int, mw as int, pos, ri)),
{
    let h = s.height as int;
    let w = s.width as int;
    let b2 = stamped(b, h, w, m, mh as int, mw as int, pos, ri);
    assert forall|r: int, c: int| 0 <= r < h && 0 <= c < w implies (#[trigger] b2[r][c] == Cell::Forbidden) == (
    fresh_board(s)[r][c] == Cell::Forbidden) by {
        if covers(m, mh as int, mw as int, pos, r, c) {
            if b[r][c] != Cell::Empty {
                assert(clobbers(b, h, w, m, mh as int, mw as int, pos));
            }
        }
    }
    assert(names_requirements(b2, h, w, reqs.len() as int)) by {
        assert forall|r: int, c: int| 0 <= r < h && 0 <= c < w implies (#[trigger] b2[r][c] matches Cell::Placed(i)
            ==> i < reqs.len()) by {
            assert(b[r][c] matches Cell::Placed(i) ==> i < reqs.len());
        }
    }
}

proof fn lemma_same_sig_colors(parts: Seq<Part>, reqs: Seq<Requirement>, s: GridSettings, b: Seq<Seq<Cell>>, bb: Seq<Seq<Cell>>)
    requires
        reachable(reqs, s, b),
        reachable(reqs, s, bb),
        board_sig(b, reqs) == board_sig(bb, reqs),
        same_part_same_flags(reqs),
        colors_ok(parts, reqs, b, s.height as int, s.width as int),
    ensures
        colors_ok(parts, reqs, bb, s.height as int, s.width as int),
{
    let h = s.height as int;
    let w = s.width as int;
    assert forall|r: int, c: int| 0 <= r < h && 0 <= c < w implies match #[trigger] bb[r][c] {
        Cell::Placed(ri) => reqs[ri as int].constraint.bugged matches Some(x) ==> x == touches_same_color(
            parts,
            reqs,
            bb,
            h,
            w,
            r,
            c,
            ri,
        ),
        _ => true,
    } by {
        lemma_cell_agree(reqs, s, bb, b, r, c);
        if let Cell::Placed(ri) = bb[r][c] {
            if let Cell::Placed(ri0) = b[r][c] {
                assert(reqs[ri as int].constraint == reqs[ri0 as int].constraint);
                assert forall|nr: int, nc: int| true implies same_color_at(parts, reqs, b, h, w, nr, nc, ri0)
                    == same_color_at(parts, reqs, bb, h, w, nr, nc, ri) by {
                    if 0 <= nr < h && 0 <= nc < w {
                        lemma_cell_agree(reqs, s, b, bb, nr, nc);
                    }
                }
                assert(touches_same_color(parts, reqs, b, h, w, r, c, ri0) == touches_same_color(
                    parts,
                    reqs,
                    bb,
                    h,
                    w,
                    r,
                    c,
                    ri,
                ));
            }
        }
    }
}

/// `y` completes the search from `board` through `stack[0..d]`: it lists
/// those requirements in stack order, each with one of its candidates;
/// they can be placed one after another; and the finished board respects
/// the color rule.
pub open spec fn completes(
    parts: Seq<Part>,
    reqs: Seq<Requirement>,
    s: GridSettings,
    board: Seq<Seq<Cell>>,
    stack: Seq<(usize, Seq<Placement>)>,
    y: Seq<(usize, Placement)>,
    d: nat,
) -> bool {
    &&& follows_stack(y, stack, d)
    &&& forall|k: int| 0 <= k < d ==> stack[k].1.contains(#[trigger] y[k].1)
    &&& places_cleanly(parts, reqs, s, board, y, d)
    &&& colors_ok(parts, reqs, board_after(parts, reqs, s, board, y, d), s.height as int, s.width as int)
}

proof fn lemma_same_sig_after(
    parts: Seq<Part>,
    reqs: Seq<Requirement>,
    s: GridSettings,
    b: Seq<Seq<Cell>>,
    bb: Seq<Seq<Cell>>,
    y: Seq<(usize, Placement)>,
    d: nat,
)
    requires
        reachable(reqs, s, b),
        reachable(reqs, s, bb),
        board_sig(b, reqs) == board_sig(bb, reqs),
        d <= y.len(),
        forall|k: int| 0 <= k < d ==> (#[trigger] y[k]).0 < reqs.len(),
    ensures
        places_cleanly(parts, reqs, s, b, y, d) == places_cleanly(parts, reqs, s, bb, y, d),
        places_cleanly(parts, reqs, s, b, y, d) ==> {
            &&& reachable(reqs, s, board_after(parts, reqs, s, b, y, d))
            &&& reachable(reqs, s, board_after(parts, reqs, s, bb, y, d))
            &&& board_sig(board_after(parts, reqs, s, b, y, d), reqs) == board_sig(
                board_after(parts, reqs, s, bb, y, d),
                reqs,
            )
        },
    decreases d,
{
    if d > 0 {
        let ri = y[d - 1].0;
        let p = y[d - 1].1;
        let m = placed_mask(parts[reqs[ri as int].part_index as int], p);
        let pos = p.loc.position;
        lemma_same_sig_place(reqs, s, b, bb, m.0, m.1, m.2, pos, ri);
        if place_verdict(b, s.height, s.width, m.0, m.1, m.2, pos).is_ok() {
            let b2 = stamped(b, s.height as int, s.width as int, m.0, m.1 as int, m.2 as int, pos, ri);
            let bb2 = stamped(bb, s.height as int, s.width as int, m.0, m.1 as int, m.2 as int, pos, ri);
            lemma_same_sig_after(parts, reqs, s, b2, bb2, y, (d - 1) as nat);
        }
    }
}

proof fn lemma_same_sig_completes(
    parts: Seq<Part>,
    reqs: Seq<Requirement>,
    s: GridSettings,
    stack: Seq<(usize, Seq<Placement>)>,
    b: Seq<Seq<Cell>>,
    bb: Seq<Seq<Cell>>,
    y: Seq<(usize, Placement)>,
    d: nat,
)
    requires
        reachable(reqs, s, b),
        reachable(reqs, s, bb),
        board_sig(b, reqs) == board_sig(bb, reqs),
        same_part_same_flags(reqs),
        d <= stack.len(),
        forall|k: int| 0 <= k < stack.len() ==> (#[trigger] stack[k]).0 < reqs.len(),
        completes(parts, reqs, s, b, stack, y, d),
    ensures
        completes(parts, reqs, s, bb, stack, y, d),
        final_sig(parts, reqs, s, b, y, d) == final_sig(parts, reqs, s, bb, y, d),
{
    assert forall|k: int| 0 <= k < d implies (#[trigger] y[k]).0 < reqs.len() by {
        assert(y[k].0 == stack[k].0);
    }
    lemma_same_sig_after(parts, reqs, s, b, bb, y, d);
    lemma_same_sig_colors(
        parts,
        reqs,
        s,
        board_after(parts, reqs, s, b, y, d),
        board_after(parts, reqs, s, bb, y, d),
    );
}

/// Every completion from a board of signature `key.1`, `key.0`
/// requirements deep, finishes on a board already in `found`.
pub open spec fn covered(
    parts: Seq<Part>,
    reqs: Seq<Requirement>,
    s: GridSettings,
    stack: Seq<(usize, Seq<Placement>)>,
    key: MemoKey,
    found: Set<Signature>,
) -> bool {
    forall|b: Seq<Seq<Cell>>, y: Seq<(usize, Placement)>|
        reachable(reqs, s, b) && board_sig(b, reqs) == key.1 && #[trigger] completes(
            parts,
            reqs,
            s,
            b,
            stack,
            y,
            key.0,
        ) ==> found.contains(final_sig(parts, reqs, s, b, y, key.0))
}

/// The finished boards of `res`, assignments from `board`.
pub open spec fn results_found(
    parts: Seq<Part>,
    reqs: Seq<Requirement>,
    s: GridSettings,
    board: Seq<Seq<Cell>>,
    res: Seq<Seq<(usize, Placement)>>,
    n: nat,
) -> Set<Signature> {
    Set::new(
        |f: Signature|
            exists|a: int| 0 <= a < res.len() && #[trigger] final_sig(parts, reqs, s, board, res[a], n) == f,
    )
}

proof fn lemma_completes_split(
    parts: Seq<Part>,
    reqs: Seq<Requirement>,
    s: GridSettings,
    board: Seq<Seq<Cell>>,
    stack: Seq<(usize, Seq<Placement>)>,
    y: Seq<(usize, Placement)>,
    n: nat,
)
    requires
        n >= 1,
        n <= stack.len(),
        completes(parts, reqs, s, board, stack, y, n),
    ensures
        ({
            let ri = y[n - 1].0;
            let p = y[n - 1].1;
            let part = parts[reqs[ri as int].part_index as int];
            let m = placed_mask(part, p);
            let pos = p.loc.position;
            let b2 = stamped(board, s.height as int, s.width as int, m.0, m.1 as int, m.2 as int, pos, ri);
            &&& ri == stack[n - 1].0
            &&& place_verdict(board, s.height, s.width, m.0, m.1, m.2, pos).is_ok()
            &&& admissible(
                m.0,
                m.1,
                m.2,
                pos,
                part.is_solid,
                s,
                reqs[ri as int].constraint.on_command_line,
                reqs[ri as int].constraint.bugged,
            )
            &&& completes(parts, reqs, s, b2, stack, y.drop_last(), (n - 1) as nat)
            &&& final_sig(parts, reqs, s, board, y, n) == final_sig(parts, reqs, s, b2, y.drop_last(), (n - 1) as nat)
        }),
{
    let ri = y[n - 1].0;
    let p = y[n - 1].1;
    let part = parts[reqs[ri as int].part_index as int];
    let m = placed_mask(part, p);
    let pos = p.loc.position;
    let b2 = stamped(board, s.height as int, s.width as int, m.0, m.1 as int, m.2 as int, pos, ri);
    let z = y.drop_last();
    lemma_places_cleanly_prefix(parts, reqs, s, b2, y, z, (n - 1) as nat);
    lemma_board_after_prefix(parts, reqs, s, b2, y, z, (n - 1) as nat);
    assert(board_after(parts, reqs, s, board, y, n) == board_after(parts, reqs, s, b2, y, (n - 1) as nat));
    assert forall|k: int| 0 <= k < n - 1 implies stack[k].1.contains(#[trigger] z[k].1) by {
        assert(z[k] == y[k]);
        assert(stack[k].1.contains(y[k].1));
    }
    assert forall|k: int| 0 <= k < n - 1 implies (#[trigger] z[k]).0 == stack[k].0 by {
        assert(z[k] == y[k]);
    }
}

/// The search's standing assumptions for completeness.
pub open spec fn complete_ready(
    reqs: Seq<Requirement>,
    s: GridSettings,
    board: Seq<Seq<Cell>>,
    stack: Seq<(usize, Seq<Placement>)>,
    n: nat,
) -> bool {
    &&& n <= stack.len()
    &&& forall|k: int| 0 <= k < stack.len() ==> (#[trigger] stack[k]).0 < reqs.len()
    &&& same_part_same_flags(reqs)
    &&& reachable(reqs, s, board)
}

/// The memo keys of `v` below depth `n` are covered by `found`.
pub open spec fn keys_covered(
    parts: Seq<Part>,
    reqs: Seq<Requirement>,
    s: GridSettings,
    stack: Seq<(usize, Seq<Placement>)>,
    v: Seq<MemoKey>,
    n: nat,
    found: Set<Signature>,
) -> bool {
    forall|k: int| 0 <= k < v.len() && (#[trigger] v[k]).0 < n ==> covered(parts, reqs, s, stack, v[k], found)
}

proof fn lemma_covered_grows(
    parts: Seq<Part>,
    reqs: Seq<Requirement>,
    s: GridSettings,
    stack: Seq<(usize, Seq<Placement>)>,
    key: MemoKey,
    f: Set<Signature>,
    g: Set<Signature>,
)
    requires
        covered(parts, reqs, s, stack, key, f),
        f.subset_of(g),
    ensures
        covered(parts, reqs, s, stack, key, g),
{
    assert forall|b: Seq<Seq<Cell>>, y: Seq<(usize, Placement)>|
        reachable(reqs, s, b) && board_sig(b, reqs) == key.1 && #[trigger] completes(parts, reqs, s, b, stack, y, key.0)
            implies g.contains(final_sig(parts, reqs, s, b, y, key.0)) by {
        assert(f.contains(final_sig(parts, reqs, s, b, y, key.0)));
    }
}

proof fn lemma_search_complete(
    parts: Seq<Part>,
    reqs: Seq<Requirement>,
    s: GridSettings,
    board: Seq<Seq<Cell>>,
    stack: Seq<(usize, Seq<Placement>)>,
    n: nat,
    i: nat,
    visited: Seq<MemoKey>,
    found: Set<Signature>,
)
    requires
        complete_ready(reqs, s, board, stack, n),
        keys_covered(parts, reqs, s, stack, visited, n, found),
    ensures
        ({
            let r = search(parts, reqs, s, board, stack, n, i, visited);
            let all = found.union(results_found(parts, reqs, s, board, r.0, n));
            &&& extends(visited, r.1)
            &&& forall|k: int| visited.len() <= k < r.1.len() ==> (#[trigger] r.1[k]).0 < n
            &&& keys_covered(parts, reqs, s, stack, r.1, n, all)
            &&& n > 0 ==> forall|y: Seq<(usize, Placement)>|
                #[trigger] completes(parts, reqs, s, board, stack, y, n) && (exists|j: int|
                    i <= j < stack[n - 1].1.len() && #[trigger] stack[n - 1].1[j] == y[n - 1].1) ==> all.contains(
                    final_sig(parts, reqs, s, board, y, n),
                )
        }),
    decreases n, if n > 0 {
        stack[n - 1].1.len() - i
    } else {
        0
    },
{
    let r = search(parts, reqs, s, board, stack, n, i, visited);
    let all = found.union(results_found(parts, reqs, s, board, r.0, n));
    if n == 0 || i >= stack[n - 1].1.len() {
        assert forall|k: int| 0 <= k < r.1.len() && (#[trigger] r.1[k]).0 < n implies covered(
            parts,
            reqs,
            s,
            stack,
            r.1[k],
            all,
        ) by {
            lemma_covered_grows(parts, reqs, s, stack, r.1[k], found, all);
        }
        return;
    }
    let ri = stack[n - 1].0;
    let p = stack[n - 1].1[i as int];
    let req = reqs[ri as int];
    let part = parts[req.part_index as int];
    let m = placed_mask(part, p);
    let pos = p.loc.position;
    let fits = place_verdict(board, s.height, s.width, m.0, m.1, m.2, pos).is_ok() && admissible(
        m.0,
        m.1,
        m.2,
        pos,
        part.is_solid,
        s,
        req.constraint.on_command_line,
        req.constraint.bugged,
    );
    let b2 = stamped(board, s.height as int, s.width as int, m.0, m.1 as int, m.2 as int, pos, ri);
    let sig = board_sig(b2, reqs);
    let key = ((n - 1) as nat, sig);
    if !fits || visited.contains(key) {
        lemma_search_complete(parts, reqs, s, board, stack, n, i + 1, visited, found);
        assert(r == search(parts, reqs, s, board, stack, n, i + 1, visited));
        assert forall|y: Seq<(usize, Placement)>|
            #[trigger] completes(parts, reqs, s, board, stack, y, n) && (exists|j: int|
                i <= j < stack[n - 1].1.len() && #[trigger] stack[n - 1].1[j] == y[n - 1].1) implies all.contains(
            final_sig(parts, reqs, s, board, y, n),
        ) by {
            if y[n - 1].1 == p {
                lemma_completes_split(parts, reqs, s, board, stack, y, n);
                let z = y.drop_last();
                let k = choose|k: int| 0 <= k < visited.len() && visited[k] == key;
                assert(covered(parts, reqs, s, stack, visited[k], found));
                assert(completes(parts, reqs, s, b2, stack, z, (n - 1) as nat));
                lemma_stamped_reachable(reqs, s, board, m.0, m.1, m.2, pos, ri);
            } else {
                let j = choose|j: int| i <= j < stack[n - 1].1.len() && #[trigger] stack[n - 1].1[j] == y[n - 1].1;
                assert(j != i);
            }
        }
    } else {
        lemma_stamped_reachable(reqs, s, board, m.0, m.1, m.2, pos, ri);
        let v1 = visited.push(key);
        assert forall|k: int| 0 <= k < v1.len() && (#[trigger] v1[k]).0 < (n - 1) as nat implies covered(
            parts,
            reqs,
            s,
            stack,
            v1[k],
            found,
        ) by {
            assert(v1[k] == visited[k]);
        }
        let sub = search(parts, reqs, s, b2, stack, (n - 1) as nat, 0, v1);
        lemma_search_complete(parts, reqs, s, b2, stack, (n - 1) as nat, 0, v1, found);
        lemma_search_follows_stack(parts, reqs, s, b2, stack, (n - 1) as nat, 0, v1);
        let here = if n == 1 && !colors_ok(parts, reqs, b2, s.height as int, s.width as int) {
            Seq::empty()
        } else {
            sub.0.map_values(|sol: Seq<(usize, Placement)>| sol.push((ri, p)))
        };
        let fsub = results_found(parts, reqs, s, b2, sub.0, (n - 1) as nat);
        let fhere = results_found(parts, reqs, s, board, here, n);
        let found2 = found.union(fhere);
        // the boards found here are those found one level down
        assert forall|a: int| 0 <= a < here.len() implies #[trigger] final_sig(parts, reqs, s, board, here[a], n)
            == final_sig(parts, reqs, s, b2, sub.0[a], (n - 1) as nat) by {
            let x = here[a];
            let yy = sub.0[a];
            assert(x == yy.push((ri, p)));
            assert(follows_stack(yy, stack, (n - 1) as nat));
            assert(board_after(parts, reqs, s, board, x, n) == board_after(parts, reqs, s, b2, x, (n - 1) as nat));
            lemma_board_after_prefix(parts, reqs, s, b2, x, yy, (n - 1) as nat);
        }
        if n > 1 {
            assert(fsub.subset_of(fhere)) by {
                assert forall|f: Signature| fsub.contains(f) implies fhere.contains(f) by {
                    let a = choose|a: int| 0 <= a < sub.0.len() && #[trigger] final_sig(parts, reqs, s, b2, sub.0[a], (n - 1) as nat) == f;
                    assert(final_sig(parts, reqs, s, board, here[a], n) == f);
                }
            }
        }
        // the new key is covered once this level's boards are found
        assert(covered(parts, reqs, s, stack, key, found2)) by {
            assert forall|bb: Seq<Seq<Cell>>, y: Seq<(usize, Placement)>|
                reachable(reqs, s, bb) && board_sig(bb, reqs) == key.1 && #[trigger] completes(
                    parts,
                    reqs,
                    s,
                    bb,
                    stack,
                    y,
                    key.0,
                ) implies found2.contains(final_sig(parts, reqs, s, bb, y, key.0)) by {
                lemma_same_sig_completes(parts, reqs, s, stack, bb, b2, y, (n - 1) as nat);
                if n == 1 {
                    assert(sub.0 == seq![Seq::<(usize, Placement)>::empty()]);
                    assert(here.len() == 1);
                    assert(final_sig(parts, reqs, s, board, here[0], n) == final_sig(parts, reqs, s, b2, sub.0[0], 0));
                    assert(final_sig(parts, reqs, s, b2, y, 0) == final_sig(parts, reqs, s, b2, sub.0[0], 0));
                    assert(fhere.contains(final_sig(parts, reqs, s, board, here[0], n)));
                } else {
                    assert(stack[n - 2].1.contains(y[n - 2].1));
                    let j = choose|j: int| 0 <= j < stack[n - 2].1.len() && #[trigger] stack[n - 2].1[j] == y[n - 2].1;
                    assert(found.union(fsub).contains(final_sig(parts, reqs, s, b2, y, (n - 1) as nat)));
                }
            }
        }
        // every key after the sub-search below this depth is covered by found2
        assert forall|k: int| 0 <= k < sub.1.len() && (#[trigger] sub.1[k]).0 < n implies covered(
            parts,
            reqs,
            s,
            stack,
            sub.1[k],
            found2,
        ) by {
            if k < visited.len() {
                assert(sub.1[k] == v1[k]);
                assert(v1[k] == visited[k]);
                lemma_covered_grows(parts, reqs, s, stack, sub.1[k], found, found2);
            } else if k == visited.len() {
                assert(sub.1[k] == v1[k]);
            } else {
                assert(sub.1[k].0 < n - 1);
                if n > 1 {
                    assert(covered(parts, reqs, s, stack, sub.1[k], found.union(fsub)));
                    lemma_covered_grows(parts, reqs, s, stack, sub.1[k], found.union(fsub), found2);
                }
            }
        }
        let more = search(parts, reqs, s, board, stack, n, i + 1, sub.1);
        lemma_search_complete(parts, reqs, s, board, stack, n, i + 1, sub.1, found2);
        let fmore = results_found(parts, reqs, s, board, more.0, n);
        assert(r.0 == here + more.0);
        assert(r.1 == more.1);
        assert(found2.union(fmore) =~= all) by {
            assert forall|f: Signature| all.contains(f) implies found2.union(fmore).contains(f) by {
                if results_found(parts, reqs, s, board, r.0, n).contains(f) {
                    let a = choose|a: int| 0 <= a < r.0.len() && #[trigger] final_sig(parts, reqs, s, board, r.0[a], n) == f;
                    if a < here.len() {
                        assert(r.0[a] == here[a]);
                    } else {
                        assert(r.0[a] == more.0[a - here.len()]);
                    }
                }
            }
            assert forall|f: Signature| found2.union(fmore).contains(f) implies all.contains(f) by {
                if fhere.contains(f) {
                    let a = choose|a: int| 0 <= a < here.len() && #[trigger] final_sig(parts, reqs, s, board, here[a], n) == f;
                    assert(r.0[a] == here[a]);
                } else if fmore.contains(f) {
                    let a = choose|a: int| 0 <= a < more.0.len() && #[trigger] final_sig(parts, reqs, s, board, more.0[a], n) == f;
                    assert(r.0[a + here.len()] == more.0[a]);
                }
            }
        }
        assert(extends(visited, v1));
        assert forall|k: int| visited.len() <= k < r.1.len() implies (#[trigger] r.1[k]).0 < n by {
            if k < sub.1.len() {
                if k > visited.len() {
                    assert(sub.1[k].0 < n - 1);
                } else {
                    assert(sub.1[k] == v1[k]);
                }
                assert(more.1[k] == sub.1[k]);
            }
        }
        assert forall|y: Seq<(usize, Placement)>|
            #[trigger] completes(parts, reqs, s, board, stack, y, n) && (exists|j: int|
                i <= j < stack[n - 1].1.len() && #[trigger] stack[n - 1].1[j] == y[n - 1].1) implies all.contains(
            final_sig(parts, reqs, s, board, y, n),
        ) by {
            if y[n - 1].1 == p {
                lemma_completes_split(parts, reqs, s, board, stack, y, n);
                let z = y.drop_last();
                assert(completes(parts, reqs, s, b2, stack, z, (n - 1) as nat));
                assert(key.0 == (n - 1) as nat && key.1 == board_sig(b2, reqs));
                assert(completes(parts, reqs, s, b2, stack, z, key.0));
                assert(found2.contains(final_sig(parts, reqs, s, b2, z, key.0)));
                assert(found2.union(fmore).contains(final_sig(parts, reqs, s, board, y, n)));
            } else {
                let j = choose|j: int| i <= j < stack[n - 1].1.len() && #[trigger] stack[n - 1].1[j] == y[n - 1].1;
                assert(j != i);
            }
        }
    }
}

/// Every arrangement within the search's reach is found. Take `y` listing
/// the requirements in the search's order (`ordered_stack`), each with one
/// of its own candidate placements, such that the placements fit one after
/// another on a new board and the finished board respects the color rule.
/// Then some assignment the search yields finishes on the same board, as
/// seen by its parts. This holds where requirements of the same part carry
/// the same flags; otherwise which of two such requirements stands where
/// changes the color rule, and the search keeps only one of the two.
pub proof fn lemma_assignments_complete(
    parts: Seq<Part>,
    reqs: Seq<Requirement>,
    s: GridSettings,
    y: Seq<(usize, Placement)>,
)
    requires
        s.fits(),
        reqs.len() <= usize::MAX,
        same_part_same_flags(reqs),
        completes(parts, reqs, s, fresh_board(s), ordered_stack(parts, reqs, s), y, reqs.len()),
    ensures
        exists|a: int|
            0 <= a < assignments(parts, reqs, s).len() && #[trigger] final_sig(
                parts,
                reqs,
                s,
                fresh_board(s),
                assignments(parts, reqs, s)[a],
                reqs.len(),
            ) == final_sig(parts, reqs, s, fresh_board(s), y, reqs.len()),
{
    let n = reqs.len();
    let stack = ordered_stack(parts, reqs, s);
    let fresh = fresh_board(s);
    let res = assignments(parts, reqs, s);
    if n == 0 {
        assert(res == seq![Seq::<(usize, Placement)>::empty()]);
        assert(final_sig(parts, reqs, s, fresh, res[0], 0) == final_sig(parts, reqs, s, fresh, y, 0));
    } else {
        assert(initial_stack(parts, reqs, s).take(n as int) =~= initial_stack(parts, reqs, s));
        lemma_ordered_indexes_all(parts, reqs, s, n);
        assert(reachable(reqs, s, fresh));
        let none = Set::<Signature>::empty();
        assert(keys_covered(parts, reqs, s, stack, Seq::<MemoKey>::empty(), n, none));
        lemma_search_complete(parts, reqs, s, fresh, stack, n, 0, Seq::empty(), none);
        assert(stack[n - 1].1.contains(y[n - 1].1));
        let j = choose|j: int| 0 <= j < stack[n - 1].1.len() && #[trigger] stack[n - 1].1[j] == y[n - 1].1;
        assert(stack[n - 1].1[j] == y[n - 1].1);
        let f = final_sig(parts, reqs, s, fresh, y, n);
        assert(none.union(results_found(parts, reqs, s, fresh, res, n)).contains(f));
        let a = choose|a: int| 0 <= a < res.len() && #[trigger] final_sig(parts, reqs, s, fresh, res[a], n) == f;
    }
}

} // verus!
