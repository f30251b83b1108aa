//! Cursor and view state: where the cursor stands and how far the hex map
//! is scrolled horizontally. It lives apart from `State` because only the
//! front end moves it.
use vstd::prelude::*;
use crate::grid::{coord, lemma_area, lemma_idx, lemma_idx_inv, spec_idx, Grid};
use crate::types::{spec_is_visible, Loc, PlayerId};

verus! {

/// View state: the cursor, the number of tiles to skip at the start of
/// every line, and the largest number of tiles in a line.
#[derive(Clone, Copy, Debug)]
pub struct UiState {
    pub cursor: Loc,
    pub xskip: i32,
    pub xlength: i32,
}

impl UiState {
    /// Cursor at `(0, 0)`, no scrolling.
    pub fn new() -> (r: Self)
        ensures
            r.cursor == (Loc { i: 0, j: 0 }),
            r.xskip == 0,
            r.xlength == 0,
    {
        UiState { cursor: Loc::new(0, 0), xskip: 0, xlength: 0 }
    }
}

impl Default for UiState {
    /// The same as `UiState::new`.
    fn default() -> (r: Self)
        ensures
            r.cursor == (Loc { i: 0, j: 0 }),
            r.xskip == 0,
            r.xlength == 0,
    {
        Self::new()
    }
}

/// Division by two rounding toward zero, as integer division does.
pub open spec fn half(x: int) -> int {
    if x >= 0 { x / 2 } else { -((-x) / 2) }
}

/// The tile among `0..q` where player `c` has the most population (the
/// first of equals), starting from `best` with population `pop`; only a
/// population above `pop` takes over.
pub open spec fn most_pop_from(g: Grid, c: int, q: int, best: int, pop: int) -> int
    decreases g.tiles@.len() - q,
{
    if q < 0 || q >= g.tiles@.len() {
        best
    } else if g.tiles@[q].pop[c] > pop {
        most_pop_from(g, c, q + 1, q, g.tiles@[q].pop[c] as int)
    } else {
        most_pop_from(g, c, q + 1, best, pop)
    }
}

/// The column `2i + j` of a visible tile, over tiles `0..q`: the smallest
/// (`i32::MAX` when none is visible).
pub open spec fn vis_min(g: Grid, q: int) -> int
    decreases q,
{
    if q <= 0 {
        i32::MAX as int
    } else {
        let c = coord(g, q - 1);
        let x = 2 * c.0 + c.1;
        let m = vis_min(g, q - 1);
        if spec_is_visible(g.tiles@[q - 1].cl) && x < m { x } else { m }
    }
}

/// The column `2i + j` of a visible tile, over tiles `0..q`: the largest
/// (`i32::MIN` when none is visible).
pub open spec fn vis_max(g: Grid, q: int) -> int
    decreases q,
{
    if q <= 0 {
        i32::MIN as int
    } else {
        let c = coord(g, q - 1);
        let x = 2 * c.0 + c.1;
        let m = vis_max(g, q - 1);
        if spec_is_visible(g.tiles@[q - 1].cl) && x > m { x } else { m }
    }
}

/// The cursor `ui_init` starts from: the tile where `c` has the most
/// population, `(0, 0)` when it has none.
pub open spec fn start_cursor(g: Grid, c: int) -> Loc {
    let b = most_pop_from(g, c, 0, -1, 0);
    if b < 0 {
        Loc { i: 0, j: 0 }
    } else {
        Loc { i: coord(g, b).0 as i16, j: coord(g, b).1 as i16 }
    }
}

/// `ui_init`: puts the cursor on the tile where `controlled` has the most
/// population and sets the scrolling so that every visible tile fits: skip
/// half the smallest column `2i + j` of a visible tile, and span up to half
/// the largest one plus one.
pub fn ui_init(grid: &Grid, controlled: PlayerId, ui: &mut UiState)
    requires
        grid.wf(),
        controlled.0 < crate::consts::MAX_PLAYER,
    ensures
        final(ui).cursor == start_cursor(*grid, controlled.0 as int),
        final(ui).xskip == half(vis_min(*grid, grid.tiles@.len() as int)),
        final(ui).xlength == half(vis_max(*grid, grid.tiles@.len() as int) + 1) - half(vis_min(*grid, grid.tiles@.len() as int)),
{
    let n: usize = grid.tiles.len();
    let h: usize = grid.height;
    let c: usize = controlled.index();
    proof { lemma_area(grid.width as int, grid.height as int); }
    let mut best: i64 = -1;
    let mut best_pop: i32 = 0;
    let mut xmin: i32 = i32::MAX;
    let mut xmax: i32 = i32::MIN;
    let mut q: usize = 0;
    while q < n
        invariant
            q <= n,
            n == grid.tiles@.len(),
            n <= 1160,
            h == grid.height,
            c < crate::consts::MAX_PLAYER,
            grid.wf(),
            -1 <= best < q,
            best < 0 ==> best_pop == 0,
            most_pop_from(*grid, c as int, q as int, best as int, best_pop as int)
                == most_pop_from(*grid, c as int, 0, -1, 0),
            xmin == vis_min(*grid, q as int),
            xmax == vis_max(*grid, q as int),
            xmin == i32::MAX || 0 <= xmin <= 2 * 40 + 29,
            xmax == i32::MIN || 0 <= xmax <= 2 * 40 + 29,
        decreases n - q,
    {
        let t = grid.tiles[q];
        if t.pop[c] > best_pop {
            best = q as i64;
            best_pop = t.pop[c];
        }
        proof {
            assert(h > 0) by (nonlinear_arith)
                requires q < n, n == grid.width * h;
            lemma_idx_inv(grid.width as int, h as int, q as int);
        }
        if t.cl.is_visible() {
            let x: i32 = 2 * ((q / h) as i32) + ((q % h) as i32);
            if x < xmin {
                xmin = x;
            }
            if x > xmax {
                xmax = x;
            }
        }
        q += 1;
    }
    if best >= 0 {
        let b: usize = best as usize;
        proof {
            assert(h > 0) by (nonlinear_arith)
                requires b < n, n == grid.width * h;
            lemma_idx_inv(grid.width as int, h as int, b as int);
        }
        ui.cursor = Loc::new((b / h) as i16, (b % h) as i16);
    } else {
        ui.cursor = Loc::new(0, 0);
    }
    if xmin == i32::MAX {
        ui.xskip = 1073741823;
    } else {
        ui.xskip = xmin / 2;
    }
    let right: i32 = if xmax == i32::MIN { -1073741823 } else { (xmax + 1) / 2 };
    ui.xlength = right - ui.xskip;
}

/// Tile `(i, j)` lies on the map and is drawn.
pub open spec fn visible_at(g: Grid, i: int, j: int) -> bool {
    g.in_map(i, j) && spec_is_visible(g.tile(i, j).cl)
}

/// The first visible tile in storage order among `q..`; -1 if none.
pub open spec fn first_visible_from(g: Grid, q: int) -> int
    decreases g.tiles@.len() - q,
{
    if q < 0 || q >= g.tiles@.len() {
        -1
    } else if spec_is_visible(g.tiles@[q].cl) {
        q
    } else {
        first_visible_from(g, q + 1)
    }
}

/// `x` clamped into `lo..=hi`.
pub open spec fn clamped(x: int, lo: int, hi: int) -> int {
    if x < lo { lo } else if x > hi { hi } else { x }
}

/// Where `adjust_cursor` puts a cursor standing at `c` that is asked to
/// move to `(ci, cj)`: with the target clamped to the map, the target if
/// visible; else the current column on the target row; else the column to
/// the left, then to the right, on the target row; else the first visible
/// tile in storage order; else it stays.
pub open spec fn adjusted(g: Grid, c: Loc, ci: int, cj: int) -> Loc {
    let i = clamped(ci, 0, g.width - 1);
    let j = clamped(cj, 0, g.height - 1);
    let f = first_visible_from(g, 0);
    if visible_at(g, i, j) {
        Loc { i: i as i16, j: j as i16 }
    } else if visible_at(g, c.i as int, j) {
        Loc { i: c.i, j: j as i16 }
    } else if visible_at(g, c.i - 1, j) {
        Loc { i: (c.i - 1) as i16, j: j as i16 }
    } else if visible_at(g, c.i + 1, j) {
        Loc { i: (c.i + 1) as i16, j: j as i16 }
    } else if f >= 0 {
        Loc { i: coord(g, f).0 as i16, j: coord(g, f).1 as i16 }
    } else {
        c
    }
}

/// Tile `(i, j)` lies on the map and is drawn.
fn visible(g: &Grid, i: i16, j: i16) -> (r: bool)
    requires
        g.wf(),
    ensures
        r == visible_at(*g, i as int, j as int),
{
    match g.get(Loc::new(i, j)) {
        Some(t) => t.cl.is_visible(),
        None => false,
    }
}

/// `adjust_cursor`: moves the cursor toward `(cursi, cursj)` by the
/// fallback chain of `adjusted`; the scrolling stays.
pub fn adjust_cursor(grid: &Grid, ui: &mut UiState, cursi: i16, cursj: i16)
    requires
        grid.wf(),
        grid.width >= 1,
        grid.height >= 1,
        i16::MIN < old(ui).cursor.i < i16::MAX,
    ensures
        final(ui).cursor == adjusted(*grid, old(ui).cursor, cursi as int, cursj as int),
        final(ui).xskip == old(ui).xskip,
        final(ui).xlength == old(ui).xlength,
{
    let wi: i16 = grid.width as i16 - 1;
    let hj: i16 = grid.height as i16 - 1;
    let ci: i16 = if cursi < 0 { 0 } else if cursi > wi { wi } else { cursi };
    let cj: i16 = if cursj < 0 { 0 } else if cursj > hj { hj } else { cursj };
    if visible(grid, ci, cj) {
        ui.cursor = Loc::new(ci, cj);
        return;
    }
    let c = ui.cursor;
    if visible(grid, c.i, cj) {
        ui.cursor.j = cj;
        return;
    }
    if visible(grid, c.i - 1, cj) {
        ui.cursor = Loc::new(c.i - 1, cj);
        return;
    }
    if visible(grid, c.i + 1, cj) {
        ui.cursor = Loc::new(c.i + 1, cj);
        return;
    }
    let n: usize = grid.tiles.len();
    let h: usize = grid.height;
    proof { lemma_area(grid.width as int, grid.height as int); }
    let mut q: usize = 0;
    while q < n
        invariant
            q <= n,
            n == grid.tiles@.len(),
            n <= 1160,
            h == grid.height,
            h >= 1,
            grid.wf(),
            first_visible_from(*grid, q as int) == first_visible_from(*grid, 0),
            *ui == *old(ui),
            c == old(ui).cursor,
            ci as int == clamped(cursi as int, 0, grid.width - 1),
            cj as int == clamped(cursj as int, 0, grid.height - 1),
            !visible_at(*grid, ci as int, cj as int),
            !visible_at(*grid, c.i as int, cj as int),
            !visible_at(*grid, c.i - 1, cj as int),
            !visible_at(*grid, c.i + 1, cj as int),
        decreases n - q,
    {
        if grid.tiles[q].cl.is_visible() {
            proof { lemma_idx_inv(grid.width as int, h as int, q as int); }
            ui.cursor = Loc::new((q / h) as i16, (q % h) as i16);
            return;
        }
        q += 1;
    }
}

} // verus!
