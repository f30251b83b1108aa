//! Migration: the population of every tile moves towards the neighbours
//! that its player's flags make more attractive, tile by tile in a random
//! scan order; nobody is created or lost on the way.
use vstd::prelude::*;
use crate::consts::{DIRECTIONS, MAX_PLAYER, MAX_POP};
use crate::flags::{fits, FlagGrid, FlagGridView};
use crate::grid::{inhabitable, inhabitable_at, lemma_area, lemma_idx, nbr, spec_idx, tile_wf, Grid, Tile};
use crate::rng::CowRng;
use crate::sim::{lemma_pop_sum_update, pop_sum, rounds};
use crate::types::{dir, dir_i, dir_j, spec_is_inhabitable, Loc};

verus! {

/// Only the population buckets of the tiles differ between `a` and `b`.
pub open spec fn same_terrain(a: Seq<Tile>, b: Seq<Tile>) -> bool {
    &&& a.len() == b.len()
    &&& forall|k: int| 0 <= k < a.len() ==> (#[trigger] b[k]).cl == a[k].cl && b[k].pl == a[k].pl
}

/// Every player's total population is the same in `a` and `b`.
pub open spec fn same_totals(a: Seq<Tile>, b: Seq<Tile>) -> bool {
    forall|p: int| 0 <= p < MAX_PLAYER ==> #[trigger] pop_sum(b, p, false) == pop_sum(a, p, false)
}

/// `b` is `a` with `d` people of player `p` moved from tile `s` to tile
/// `t`; nothing else differs.
pub open spec fn moved(a: Seq<Tile>, b: Seq<Tile>, s: int, t: int, p: int, d: int) -> bool {
    &&& b.len() == a.len()
    &&& forall|k: int| 0 <= k < a.len() && k != s && k != t ==> #[trigger] b[k] == a[k]
    &&& b[s].cl == a[s].cl && b[s].pl == a[s].pl
    &&& b[t].cl == a[t].cl && b[t].pl == a[t].pl
    &&& forall|q: int| 0 <= q < MAX_PLAYER && q != p ==> #[trigger] b[s].pop[q] == a[s].pop[q]
        && b[t].pop[q] == a[t].pop[q]
    &&& b[s].pop[p] == a[s].pop[p] - d
    &&& b[t].pop[p] == a[t].pop[p] + d
}

/// Moves `d` inhabitants of player `p` from tile `s` to tile `t`.
fn transfer(grid: &mut Grid, s: usize, t: usize, p: usize, d: i32)
    requires
        old(grid).wf(),
        s < old(grid).tiles@.len(),
        t < old(grid).tiles@.len(),
        s != t,
        p < MAX_PLAYER,
        0 < d <= old(grid).tiles@[s as int].pop[p as int],
        old(grid).tiles@[t as int].pop[p as int] + d <= MAX_POP,
    ensures
        final(grid).wf(),
        final(grid).width == old(grid).width,
        final(grid).height == old(grid).height,
        same_terrain(old(grid).tiles@, final(grid).tiles@),
        same_totals(old(grid).tiles@, final(grid).tiles@),
        moved(old(grid).tiles@, final(grid).tiles@, s as int, t as int, p as int, d as int),
{
    let ghost g0 = grid.tiles@;
    let mut a = grid.tiles[s];
    a.pop[p] = a.pop[p] - d;
    grid.tiles.set(s, a);
    let ghost g1 = grid.tiles@;
    let mut b = grid.tiles[t];
    b.pop[p] = b.pop[p] + d;
    grid.tiles.set(t, b);
    proof {
        assert forall|k: int| 0 <= k < grid.tiles@.len() implies tile_wf(#[trigger] grid.tiles@[k]) by {
            assert(tile_wf(g0[k]));
        }
        assert forall|q: int| 0 <= q < MAX_PLAYER implies #[trigger] pop_sum(grid.tiles@, q, false)
            == pop_sum(g0, q, false) by {
            lemma_pop_sum_update(g0, s as int, a, q);
            lemma_pop_sum_update(g1, t as int, b, q);
        }
    }
}

/// Coordinate visited at position `x` of a pass over `0..n`, forwards or
/// backwards.
pub open spec fn scan(fwd: bool, n: int, x: int) -> int {
    if fwd { x } else { n - 1 - x }
}

/// The call value of the overlay `f` at `(i, j)`; 0 off the map.
pub open spec fn call_value(f: FlagGridView, i: int, j: int) -> int {
    if 0 <= i < f.width && 0 <= j < f.height {
        f.call[spec_idx(f.height, i, j)] as int
    } else {
        0
    }
}

/// How much more the call value of `f` is at `(x, y)` than at `(i, j)`;
/// none when it is less.
pub open spec fn call_gain(f: FlagGridView, i: int, j: int, x: int, y: int) -> int {
    let diff = call_value(f, x, y) - call_value(f, i, j);
    if diff < 0 { 0 } else { diff }
}

/// The least of four integers.
pub open spec fn min4(a: int, b: int, c: int, d: int) -> int {
    let x = if a < b { a } else { b };
    let y = if x < c { x } else { c };
    if y < d { y } else { d }
}

/// One move of player `p`'s people from `(i, j)` towards its neighbour in
/// direction `d`, turning the map `a` into `b`; `initial` is what the tile
/// held for `p` before its moves began. Where the neighbour can hold
/// people, the move carries `initial * (1 + 2 * gain) / 20`, rounded at
/// random, where `gain` is how much more the neighbour's call value is than
/// the tile's (none when less); but no more than `initial`, than what is
/// left on the tile and than the room left at the neighbour. Otherwise
/// nothing changes.
pub open spec fn mig_move(a: Grid, b: Grid, f: FlagGridView, i: int, j: int, p: int, d: int, initial: int) -> bool {
    let n = nbr((i, j), d);
    let h = a.height as int;
    let s = spec_idx(h, i, j);
    let t = spec_idx(h, n.0, n.1);
    &&& b.width == a.width
    &&& b.height == a.height
    &&& if inhabitable_at(a, n.0, n.1) {
        exists|r: int| #[trigger] rounds((1 + 2 * call_gain(f, i, j, n.0, n.1)) * initial, 20, r) && {
            let m = min4(r, initial, a.tiles@[s].pop[p] as int, MAX_POP - a.tiles@[t].pop[p]);
            if m > 0 {
                moved(a.tiles@, b.tiles@, s, t, p, m)
            } else {
                b.tiles@ == a.tiles@
            }
        }
    } else {
        b.tiles@ == a.tiles@
    }
}

/// Move `k` of the trace `tr` of player `p`'s moves at `(i, j)`, whose
/// directions start at `shift` and turn once per move.
pub open spec fn move_ok(tr: Seq<Grid>, f: FlagGridView, i: int, j: int, p: int, shift: int, k: int) -> bool {
    let initial = tr[0].tiles@[spec_idx(tr[0].height as int, i, j)].pop[p] as int;
    mig_move(tr[k], tr[k + 1], f, i, j, p, (k + shift) % 6, initial)
}

/// `tr` holds the map before each of player `p`'s six moves at `(i, j)`
/// and after the last, from `a` to `b`.
pub open spec fn moves_via(a: Grid, b: Grid, f: FlagGridView, i: int, j: int, p: int, shift: int, tr: Seq<Grid>) -> bool {
    &&& tr.len() == 7
    &&& tr[0] == a
    &&& tr[6] == b
    &&& forall|k: int| 0 <= k < 6 ==> #[trigger] move_ok(tr, f, i, j, p, shift, k)
}

/// Player `p`'s six moves at `(i, j)` turn `a` into `b`.
pub open spec fn player_moved(a: Grid, b: Grid, f: FlagGridView, i: int, j: int, p: int, shift: int) -> bool {
    exists|tr: Seq<Grid>| #[trigger] moves_via(a, b, f, i, j, p, shift, tr)
}

/// Player `p`'s step of the trace `tr` of a tile's migration.
pub open spec fn player_ok(tr: Seq<Grid>, flags: [FlagGrid; MAX_PLAYER], i: int, j: int, shift: int, p: int) -> bool {
    player_moved(tr[p], tr[p + 1], flags[p]@, i, j, p, shift)
}

/// `tr` holds the map before each player's moves at `(i, j)` and after the
/// last player's, from `a` to `b`, with the directions starting at `shift`.
pub open spec fn tile_migration_via(
    a: Grid,
    b: Grid,
    flags: [FlagGrid; MAX_PLAYER],
    i: int,
    j: int,
    shift: int,
    tr: Seq<Grid>,
) -> bool {
    &&& 0 <= shift < 6
    &&& tr.len() == MAX_PLAYER + 1
    &&& tr[0] == a
    &&& tr[MAX_PLAYER as int] == b
    &&& forall|p: int| 0 <= p < MAX_PLAYER ==> #[trigger] player_ok(tr, flags, i, j, shift, p)
}

/// The migration from the tile at `(i, j)` turns `a` into `b`: each
/// player in turn makes its six moves (`mig_move`), the directions starting
/// at a random one.
pub open spec fn tile_migrated(a: Grid, b: Grid, flags: [FlagGrid; MAX_PLAYER], i: int, j: int) -> bool {
    exists|shift: int, tr: Seq<Grid>| #[trigger] tile_migration_via(a, b, flags, i, j, shift, tr)
}

/// A move whose source holds nobody of its player changes nothing.
proof fn lemma_idle_move(a: Grid, f: FlagGridView, i: int, j: int, p: int, d: int, initial: int)
    requires
        a.tiles@[spec_idx(a.height as int, i, j)].pop[p] == 0,
        initial >= 0,
    ensures
        mig_move(a, a, f, i, j, p, d, initial),
{
    let n = nbr((i, j), d);
    let num = (1 + 2 * call_gain(f, i, j, n.0, n.1)) * initial;
    assert(rounds(num, 20, num / 20));
}

/// A trace of a player's first moves that ends with the tile empty for
/// that player extends to all six moves by moves that change nothing.
proof fn lemma_pad_moves(tr: Seq<Grid>, f: FlagGridView, i: int, j: int, p: int, shift: int) -> (out: Seq<Grid>)
    requires
        1 <= tr.len() <= 7,
        tr.len() < 7 ==> tr[tr.len() - 1].tiles@[spec_idx(tr[tr.len() - 1].height as int, i, j)].pop[p] == 0,
        tr[tr.len() - 1].height == tr[0].height,
        tr[0].tiles@[spec_idx(tr[0].height as int, i, j)].pop[p] >= 0,
        forall|k: int| 0 <= k < tr.len() - 1 ==> #[trigger] move_ok(tr, f, i, j, p, shift, k),
    ensures
        out.len() == 7,
        out[0] == tr[0],
        out[6] == tr[tr.len() - 1],
        forall|k: int| 0 <= k < 6 ==> #[trigger] move_ok(out, f, i, j, p, shift, k),
    decreases 7 - tr.len(),
{
    if tr.len() == 7 {
        tr
    } else {
        let g = tr[tr.len() - 1];
        let initial = tr[0].tiles@[spec_idx(tr[0].height as int, i, j)].pop[p] as int;
        lemma_idle_move(g, f, i, j, p, ((tr.len() - 1) + shift) % 6, initial);
        let next = tr.push(g);
        assert forall|k: int| 0 <= k < next.len() - 1 implies #[trigger] move_ok(next, f, i, j, p, shift, k) by {
            if k < tr.len() - 1 {
                assert(move_ok(tr, f, i, j, p, shift, k));
            }
        }
        lemma_pad_moves(next, f, i, j, p, shift)
    }
}

/// Migration of the population at one tile (see `tile_migrated`).
fn migrate_tile(grid: &mut Grid, flags: &[FlagGrid; MAX_PLAYER], i: usize, j: usize, rng: &mut CowRng)
    requires
        old(grid).wf(),
        i < old(grid).width,
        j < old(grid).height,
        forall|p: int| 0 <= p < MAX_PLAYER ==> fits(*old(grid), #[trigger] flags[p]@),
    ensures
        final(grid).wf(),
        final(grid).width == old(grid).width,
        final(grid).height == old(grid).height,
        same_terrain(old(grid).tiles@, final(grid).tiles@),
        same_totals(old(grid).tiles@, final(grid).tiles@),
        tile_migrated(*old(grid), *final(grid), *flags, i as int, j as int),
{
    let h: usize = grid.height;
    proof {
        lemma_idx(grid.width as int, h as int, i as int, j as int);
        lemma_area(grid.width as int, h as int);
    }
    let idx: usize = i * h + j;
    let ghost t0 = grid.tiles@;
    let k_shift: usize = rng.dir_offset();
    let here = Loc::new(i as i16, j as i16);
    let ghost mut ptr: Seq<Grid> = seq![*grid];
    let mut p: usize = 0;
    while p < MAX_PLAYER
        invariant
            p <= MAX_PLAYER,
            grid.wf(),
            grid.height == h,
            grid.width == old(grid).width,
            idx == spec_idx(h as int, i as int, j as int),
            idx < grid.tiles@.len(),
            i < grid.width,
            j < h,
            k_shift < 6,
            here.i == i,
            here.j == j,
            t0 == old(grid).tiles@,
            old(grid).wf(),
            old(grid).height == h,
            old(grid).width == grid.width,
            forall|q: int| 0 <= q < MAX_PLAYER ==> fits(*old(grid), #[trigger] flags[q]@),
            same_terrain(t0, grid.tiles@),
            same_totals(t0, grid.tiles@),
            ptr.len() == p + 1,
            ptr[0] == *old(grid),
            ptr[p as int] == *grid,
            forall|q: int| 0 <= q < p ==> #[trigger] player_ok(ptr, *flags, i as int, j as int, k_shift as int, q),
        decreases MAX_PLAYER - p,
    {
        let ghost start = *grid;
        let ghost mut mtr: Seq<Grid> = seq![*grid];
        let initial: i32 = grid.tiles[idx].pop[p];
        proof { assert(tile_wf(grid.tiles@[idx as int])); }
        if initial != 0 {
            proof { assert(fits(*old(grid), flags[p as int]@)); }
            let src_call: i32 = flags[p].call_at(here);
            let mut k: usize = 0;
            while k < DIRECTIONS
                invariant_except_break
                    k <= 6,
                    mtr.len() == k + 1,
                invariant
                    p < MAX_PLAYER,
                    grid.wf(),
                    grid.height == h,
                    grid.width == old(grid).width,
                    idx == spec_idx(h as int, i as int, j as int),
                    idx < grid.tiles@.len(),
                    i < grid.width,
                    j < h,
                    k_shift < 6,
                    here.i == i,
                    here.j == j,
                    0 < initial <= MAX_POP,
                    fits(*old(grid), flags[p as int]@),
                    src_call == call_value(flags[p as int]@, i as int, j as int),
                    old(grid).wf(),
                    old(grid).height == h,
                    old(grid).width == grid.width,
                    same_terrain(t0, grid.tiles@),
                    same_totals(t0, grid.tiles@),
                    mtr[0] == start,
                    start.height == h,
                    start.tiles@[idx as int].pop[p as int] == initial,
                    mtr[mtr.len() - 1] == *grid,
                    forall|kk: int| 0 <= kk < mtr.len() - 1 ==> #[trigger] move_ok(
                        mtr, flags[p as int]@, i as int, j as int, p as int, k_shift as int, kk),
                ensures
                    1 <= mtr.len() <= 7,
                    mtr.len() < 7 ==> grid.tiles@[idx as int].pop[p as int] == 0,
                decreases 6 - k,
            {
                let ghost before = *grid;
                let dd = dir((k + k_shift) % DIRECTIONS);
                let n = Loc::new(i as i16 + dd.i, j as i16 + dd.j);
                let ghost d = ((k + k_shift) % 6) as int;
                proof { assert(nbr((i as int, j as int), d) == (n.i as int, n.j as int)); }
                if inhabitable(grid, n) {
                    let dst_call: i32 = flags[p].call_at(n);
                    let diff: i64 = dst_call as i64 - src_call as i64;
                    let dcall: u64 = if diff < 0 { 0 } else { diff as u64 };
                    let src_now: i32 = grid.tiles[idx].pop[p];
                    proof { assert(tile_wf(grid.tiles@[idx as int])); }
                    if src_now <= 0 {
                        break;
                    }
                    proof {
                        lemma_idx(grid.width as int, h as int, n.i as int, n.j as int);
                        lemma_area(grid.width as int, h as int);
                    }
                    let n_idx: usize = (n.i as usize) * h + (n.j as usize);
                    proof { assert(tile_wf(grid.tiles@[n_idx as int])); }
                    let dst_cap: i32 = MAX_POP - grid.tiles[n_idx].pop[p];
                    proof {
                        assert((1 + 2 * dcall) * initial <= (1 + 2 * 0x1_0000_0000) * 499) by (nonlinear_arith)
                            requires dcall <= 0x1_0000_0000, 0 < initial <= 499;
                    }
                    let num: u64 = (1 + 2 * dcall) * (initial as u64);
                    let r: u64 = rng.rnd_round(num as i64, 20) as u64;
                    let mut dpop: i64 = if r > initial as u64 { initial as i64 } else { r as i64 };
                    if dpop > src_now as i64 {
                        dpop = src_now as i64;
                    }
                    if dpop > dst_cap as i64 {
                        dpop = dst_cap as i64;
                    }
                    if dpop > 0 {
                        proof {
                            assert(n_idx != idx) by {
                                assert(dir_i(d) != 0 || dir_j(d) != 0);
                                lemma_idx(grid.width as int, h as int, i as int, j as int);
                                lemma_idx(grid.width as int, h as int, n.i as int, n.j as int);
                            }
                        }
                        transfer(grid, idx, n_idx, p, dpop as i32);
                    }
                    proof {
                        let f = flags[p as int]@;
                        assert(call_value(f, n.i as int, n.j as int) == dst_call);
                        assert(call_gain(f, i as int, j as int, n.i as int, n.j as int) == dcall);
                        assert(rounds((1 + 2 * call_gain(f, i as int, j as int, n.i as int, n.j as int)) * initial, 20, r as int));
                        assert(n_idx == spec_idx(h as int, n.i as int, n.j as int));
                        assert(before.tiles@[idx as int].pop[p as int] == src_now);
                        assert(dpop == min4(r as int, initial as int, src_now as int, MAX_POP - before.tiles@[n_idx as int].pop[p as int]));
                        if dpop > 0 {
                            assert(moved(before.tiles@, grid.tiles@, idx as int, n_idx as int, p as int, dpop as int));
                        } else {
                            assert(grid.tiles@ == before.tiles@);
                        }
                        assert(mig_move(before, *grid, flags[p as int]@, i as int, j as int, p as int, d, initial as int));
                    }
                }
                proof {
                    assert(mig_move(before, *grid, flags[p as int]@, i as int, j as int, p as int, d, initial as int));
                    let old_mtr = mtr;
                    mtr = mtr.push(*grid);
                    assert forall|kk: int| 0 <= kk < mtr.len() - 1 implies #[trigger] move_ok(
                        mtr, flags[p as int]@, i as int, j as int, p as int, k_shift as int, kk) by {
                        if kk < old_mtr.len() - 1 {
                            assert(move_ok(old_mtr, flags[p as int]@, i as int, j as int, p as int, k_shift as int, kk));
                        }
                    }
                }
                k += 1;
            }
            proof {
                mtr = lemma_pad_moves(mtr, flags[p as int]@, i as int, j as int, p as int, k_shift as int);
            }
        } else {
            proof {
                mtr = lemma_pad_moves(mtr, flags[p as int]@, i as int, j as int, p as int, k_shift as int);
            }
        }
        proof {
            assert(moves_via(start, *grid, flags[p as int]@, i as int, j as int, p as int, k_shift as int, mtr));
            let old_ptr = ptr;
            ptr = ptr.push(*grid);
            assert(player_ok(ptr, *flags, i as int, j as int, k_shift as int, p as int));
            assert forall|q: int| 0 <= q < p + 1 implies #[trigger] player_ok(ptr, *flags, i as int, j as int, k_shift as int, q) by {
                if q < p {
                    assert(player_ok(old_ptr, *flags, i as int, j as int, k_shift as int, q));
                    assert(ptr[q] == old_ptr[q]);
                    assert(ptr[q + 1] == old_ptr[q + 1]);
                }
            }
        }
        p += 1;
    }
    proof {
        assert(tile_migration_via(*old(grid), *grid, *flags, i as int, j as int, k_shift as int, ptr));
    }
}

/// Step `y` of the trace `tr` of a row's migration: the tile at
/// `(i, y)` or `(i, height - 1 - y)`, as the columns are scanned.
pub open spec fn cell_ok(tr: Seq<Grid>, flags: [FlagGrid; MAX_PLAYER], i: int, fwd_j: bool, y: int) -> bool {
    tile_migrated(tr[y], tr[y + 1], flags, i, scan(fwd_j, tr[0].height as int, y))
}

/// `tr` holds the map before each tile's migration in row `i` and after
/// the last, from `a` to `b`.
pub open spec fn row_migration_via(
    a: Grid,
    b: Grid,
    flags: [FlagGrid; MAX_PLAYER],
    i: int,
    fwd_j: bool,
    tr: Seq<Grid>,
) -> bool {
    &&& tr.len() == a.height + 1
    &&& tr[0] == a
    &&& tr[a.height as int] == b
    &&& forall|y: int| 0 <= y < a.height ==> #[trigger] cell_ok(tr, flags, i, fwd_j, y)
}

/// The migration from every tile of row `i`, in the column order that
/// `fwd_j` gives, turns `a` into `b`.
pub open spec fn row_migrated(a: Grid, b: Grid, flags: [FlagGrid; MAX_PLAYER], i: int, fwd_j: bool) -> bool {
    exists|tr: Seq<Grid>| #[trigger] row_migration_via(a, b, flags, i, fwd_j, tr)
}

/// Step `x` of the trace `tr` of the whole migration: row `x` or
/// `width - 1 - x`, as the rows are scanned.
pub open spec fn row_ok(tr: Seq<Grid>, flags: [FlagGrid; MAX_PLAYER], fwd_i: bool, fwd_j: bool, x: int) -> bool {
    row_migrated(tr[x], tr[x + 1], flags, scan(fwd_i, tr[0].width as int, x), fwd_j)
}

/// `tr` holds the map before each row's migration and after the last, from
/// `a` to `b`.
pub open spec fn migration_via(
    a: Grid,
    b: Grid,
    flags: [FlagGrid; MAX_PLAYER],
    fwd_i: bool,
    fwd_j: bool,
    tr: Seq<Grid>,
) -> bool {
    &&& tr.len() == a.width + 1
    &&& tr[0] == a
    &&& tr[a.width as int] == b
    &&& forall|x: int| 0 <= x < a.width ==> #[trigger] row_ok(tr, flags, fwd_i, fwd_j, x)
}

/// The migration over the whole map turns `a` into `b`: rows and columns
/// are each scanned in a direction picked at random, and the population of
/// each tile migrates in turn (`tile_migrated`).
pub open spec fn migrated(a: Grid, b: Grid, flags: [FlagGrid; MAX_PLAYER]) -> bool {
    exists|fwd_i: bool, fwd_j: bool, tr: Seq<Grid>| #[trigger] migration_via(a, b, flags, fwd_i, fwd_j, tr)
}

/// Every tile of `b` has the class of the same tile of `a`, and a tile
/// that cannot hold people has in `b` no more people of any player than
/// in `a`.
pub open spec fn no_gain_off_land(a: Seq<Tile>, b: Seq<Tile>) -> bool {
    &&& forall|k: int| 0 <= k < a.len() ==> (#[trigger] b[k]).cl == a[k].cl
    &&& forall|k: int, p: int|
        0 <= k < a.len() && 0 <= p < MAX_PLAYER && !spec_is_inhabitable(a[k].cl)
            ==> #[trigger] b[k].pop[p] <= a[k].pop[p]
}

/// `b` has the shape of `a`, every player has as many people in `b` as in
/// `a`, and no tile that cannot hold people gains any.
pub open spec fn keeps_people(a: Grid, b: Grid) -> bool {
    &&& b.width == a.width
    &&& b.height == a.height
    &&& b.tiles@.len() == a.tiles@.len()
    &&& same_totals(a.tiles@, b.tiles@)
    &&& no_gain_off_land(a.tiles@, b.tiles@)
}

/// The map has one tile per cell of its rectangle.
pub open spec fn shape_ok(g: Grid) -> bool {
    g.tiles@.len() == g.width * g.height
}

/// Step `k` of the trace `tr` keeps everyone, from a well-shaped map of
/// the size of the first.
pub open spec fn step_keeps(tr: Seq<Grid>, k: int) -> bool {
    shape_ok(tr[k]) && tr[k].width == tr[0].width && tr[k].height == tr[0].height
        ==> keeps_people(tr[k], tr[k + 1])
}

/// A trace whose steps each keep everyone keeps everyone from its first
/// map to its `n`-th.
proof fn lemma_chain_keeps(tr: Seq<Grid>, n: int)
    requires
        0 <= n < tr.len(),
        shape_ok(tr[0]),
        forall|k: int| 0 <= k < n ==> #[trigger] step_keeps(tr, k),
    ensures
        keeps_people(tr[0], tr[n]),
        shape_ok(tr[n]),
    decreases n,
{
    if n > 0 {
        lemma_chain_keeps(tr, n - 1);
        assert(step_keeps(tr, n - 1));
        let (a, m, b) = (tr[0].tiles@, tr[n - 1].tiles@, tr[n].tiles@);
        assert forall|k: int| 0 <= k < a.len() implies (#[trigger] b[k]).cl == a[k].cl by {
            assert(m[k].cl == a[k].cl);
            assert(b[k].cl == m[k].cl);
        }
        assert forall|k: int, p: int|
            0 <= k < a.len() && 0 <= p < MAX_PLAYER && !spec_is_inhabitable(a[k].cl)
                implies #[trigger] b[k].pop[p] <= a[k].pop[p] by {
            assert(m[k].cl == a[k].cl);
            assert(m[k].pop[p] <= a[k].pop[p]);
            assert(b[k].pop[p] <= m[k].pop[p]);
        }
    }
}

/// One move keeps everyone.
proof fn lemma_move_keeps(a: Grid, b: Grid, f: FlagGridView, i: int, j: int, p: int, d: int, initial: int)
    requires
        shape_ok(a),
        a.in_map(i, j),
        0 <= p < MAX_PLAYER,
        0 <= d < 6,
        mig_move(a, b, f, i, j, p, d, initial),
    ensures
        keeps_people(a, b),
{
    let n = nbr((i, j), d);
    let h = a.height as int;
    if inhabitable_at(a, n.0, n.1) {
        let s = spec_idx(h, i, j);
        let t = spec_idx(h, n.0, n.1);
        lemma_idx(a.width as int, h, i, j);
        lemma_idx(a.width as int, h, n.0, n.1);
        let r = choose|r: int| #[trigger] rounds((1 + 2 * call_gain(f, i, j, n.0, n.1)) * initial, 20, r) && {
            let m = min4(r, initial, a.tiles@[s].pop[p] as int, MAX_POP - a.tiles@[t].pop[p]);
            if m > 0 {
                moved(a.tiles@, b.tiles@, s, t, p, m)
            } else {
                b.tiles@ == a.tiles@
            }
        };
        let m = min4(r, initial, a.tiles@[s].pop[p] as int, MAX_POP - a.tiles@[t].pop[p]);
        if m > 0 {
            crate::grid::lemma_opposite((i, j), d);
            assert(s != t);
            let a1 = a.tiles@.update(s, b.tiles@[s]);
            assert(b.tiles@ =~= a1.update(t, b.tiles@[t]));
            assert forall|q: int| 0 <= q < MAX_PLAYER implies #[trigger] pop_sum(b.tiles@, q, false)
                == pop_sum(a.tiles@, q, false) by {
                lemma_pop_sum_update(a.tiles@, s, b.tiles@[s], q);
                lemma_pop_sum_update(a1, t, b.tiles@[t], q);
            }
            assert(spec_is_inhabitable(a.tiles@[t].cl));
            assert forall|k: int, q: int|
                0 <= k < a.tiles@.len() && 0 <= q < MAX_PLAYER && !spec_is_inhabitable(a.tiles@[k].cl)
                    implies #[trigger] b.tiles@[k].pop[q] <= a.tiles@[k].pop[q] by {
                if k != s && k != t {
                    assert(b.tiles@[k] == a.tiles@[k]);
                }
            }
        }
    }
}

/// A player's six moves keep everyone.
proof fn lemma_player_keeps(a: Grid, b: Grid, f: FlagGridView, i: int, j: int, p: int, shift: int)
    requires
        shape_ok(a),
        a.in_map(i, j),
        0 <= p < MAX_PLAYER,
        player_moved(a, b, f, i, j, p, shift),
    ensures
        keeps_people(a, b),
{
    let tr = choose|tr: Seq<Grid>| #[trigger] moves_via(a, b, f, i, j, p, shift, tr);
    assert forall|k: int| 0 <= k < 6 implies #[trigger] step_keeps(tr, k) by {
        assert(move_ok(tr, f, i, j, p, shift, k));
        if shape_ok(tr[k]) && tr[k].width == tr[0].width && tr[k].height == tr[0].height {
            lemma_move_keeps(tr[k], tr[k + 1], f, i, j, p, (k + shift) % 6,
                tr[0].tiles@[spec_idx(tr[0].height as int, i, j)].pop[p] as int);
        }
    }
    lemma_chain_keeps(tr, 6);
}

/// The migration from one tile keeps everyone.
proof fn lemma_tile_keeps(a: Grid, b: Grid, flags: [FlagGrid; MAX_PLAYER], i: int, j: int)
    requires
        shape_ok(a),
        a.in_map(i, j),
        tile_migrated(a, b, flags, i, j),
    ensures
        keeps_people(a, b),
{
    let (shift, tr) = choose|shift: int, tr: Seq<Grid>| #[trigger] tile_migration_via(a, b, flags, i, j, shift, tr);
    assert forall|p: int| 0 <= p < MAX_PLAYER implies #[trigger] step_keeps(tr, p) by {
        assert(player_ok(tr, flags, i, j, shift, p));
        if shape_ok(tr[p]) && tr[p].width == tr[0].width && tr[p].height == tr[0].height {
            lemma_player_keeps(tr[p], tr[p + 1], flags[p]@, i, j, p, shift);
        }
    }
    lemma_chain_keeps(tr, MAX_PLAYER as int);
}

/// The migration from one row keeps everyone.
proof fn lemma_row_keeps(a: Grid, b: Grid, flags: [FlagGrid; MAX_PLAYER], i: int, fwd_j: bool)
    requires
        shape_ok(a),
        0 <= i < a.width,
        row_migrated(a, b, flags, i, fwd_j),
    ensures
        keeps_people(a, b),
{
    let tr = choose|tr: Seq<Grid>| #[trigger] row_migration_via(a, b, flags, i, fwd_j, tr);
    assert forall|y: int| 0 <= y < a.height implies #[trigger] step_keeps(tr, y) by {
        assert(cell_ok(tr, flags, i, fwd_j, y));
        if shape_ok(tr[y]) && tr[y].width == tr[0].width && tr[y].height == tr[0].height {
            lemma_tile_keeps(tr[y], tr[y + 1], flags, i, scan(fwd_j, tr[0].height as int, y));
        }
    }
    lemma_chain_keeps(tr, a.height as int);
}

/// Migration neither creates nor destroys anyone: every player has as many
/// people after it as before, on a map of the same size, and a tile that
/// cannot hold people (abyss, mountains, mines) never gains any.
pub proof fn law_migration_keeps_people(a: Grid, b: Grid, flags: [FlagGrid; MAX_PLAYER])
    requires
        a.wf(),
        migrated(a, b, flags),
    ensures
        keeps_people(a, b),
{
    let (fwd_i, fwd_j, tr) = choose|fwd_i: bool, fwd_j: bool, tr: Seq<Grid>| #[trigger] migration_via(
        a, b, flags, fwd_i, fwd_j, tr);
    assert forall|x: int| 0 <= x < a.width implies #[trigger] step_keeps(tr, x) by {
        assert(row_ok(tr, flags, fwd_i, fwd_j, x));
        if shape_ok(tr[x]) && tr[x].width == tr[0].width && tr[x].height == tr[0].height {
            lemma_row_keeps(tr[x], tr[x + 1], flags, scan(fwd_i, tr[0].width as int, x), fwd_j);
        }
    }
    lemma_chain_keeps(tr, a.width as int);
}

/// Migration over the whole map (see `migrated`). Terrain and owners stay;
/// every player's total population stays the same.
pub(crate) fn simulate_migration(grid: &mut Grid, flags: &[FlagGrid; MAX_PLAYER], rng: &mut CowRng)
    requires
        old(grid).wf(),
        forall|p: int| 0 <= p < MAX_PLAYER ==> fits(*old(grid), #[trigger] flags[p]@),
    ensures
        final(grid).wf(),
        final(grid).width == old(grid).width,
        final(grid).height == old(grid).height,
        same_terrain(old(grid).tiles@, final(grid).tiles@),
        same_totals(old(grid).tiles@, final(grid).tiles@),
        migrated(*old(grid), *final(grid), *flags),
{
    let fwd_i = rng.coin_flip();
    let fwd_j = rng.coin_flip();
    let w: usize = grid.width;
    let h: usize = grid.height;
    let ghost t0 = grid.tiles@;
    let ghost mut rtr: Seq<Grid> = seq![*grid];
    let mut x: usize = 0;
    while x < w
        invariant
            x <= w,
            w == grid.width,
            h == grid.height,
            grid.wf(),
            old(grid).width == w,
            old(grid).height == h,
            t0 == old(grid).tiles@,
            forall|p: int| 0 <= p < MAX_PLAYER ==> fits(*old(grid), #[trigger] flags[p]@),
            same_terrain(t0, grid.tiles@),
            same_totals(t0, grid.tiles@),
            rtr.len() == x + 1,
            rtr[0] == *old(grid),
            rtr[x as int] == *grid,
            forall|q: int| 0 <= q < x ==> #[trigger] row_ok(rtr, *flags, fwd_i, fwd_j, q),
        decreases w - x,
    {
        let i: usize = if fwd_i { x } else { w - 1 - x };
        let ghost row_start = *grid;
        let ghost mut ctr: Seq<Grid> = seq![*grid];
        let mut y: usize = 0;
        while y < h
            invariant
                y <= h,
                x < w,
                i < w,
                w == grid.width,
                h == grid.height,
                grid.wf(),
                old(grid).width == w,
                old(grid).height == h,
                t0 == old(grid).tiles@,
                forall|p: int| 0 <= p < MAX_PLAYER ==> fits(*old(grid), #[trigger] flags[p]@),
                same_terrain(t0, grid.tiles@),
                same_totals(t0, grid.tiles@),
                row_start.height == h,
                ctr.len() == y + 1,
                ctr[0] == row_start,
                ctr[y as int] == *grid,
                forall|q: int| 0 <= q < y ==> #[trigger] cell_ok(ctr, *flags, i as int, fwd_j, q),
            decreases h - y,
        {
            let j: usize = if fwd_j { y } else { h - 1 - y };
            proof {
                assert forall|p: int| 0 <= p < MAX_PLAYER implies fits(*grid, #[trigger] flags[p]@) by {
                    assert(fits(*old(grid), flags[p]@));
                }
            }
            migrate_tile(grid, flags, i, j, rng);
            proof {
                let old_ctr = ctr;
                ctr = ctr.push(*grid);
                assert(cell_ok(ctr, *flags, i as int, fwd_j, y as int));
                assert forall|q: int| 0 <= q < y + 1 implies #[trigger] cell_ok(ctr, *flags, i as int, fwd_j, q) by {
                    if q < y {
                        assert(cell_ok(old_ctr, *flags, i as int, fwd_j, q));
                        assert(ctr[q] == old_ctr[q]);
                        assert(ctr[q + 1] == old_ctr[q + 1]);
                    }
                }
            }
            y += 1;
        }
        proof {
            assert(row_migration_via(row_start, *grid, *flags, i as int, fwd_j, ctr));
            let old_rtr = rtr;
            rtr = rtr.push(*grid);
            assert(row_ok(rtr, *flags, fwd_i, fwd_j, x as int));
            assert forall|q: int| 0 <= q < x + 1 implies #[trigger] row_ok(rtr, *flags, fwd_i, fwd_j, q) by {
                if q < x {
                    assert(row_ok(old_rtr, *flags, fwd_i, fwd_j, q));
                    assert(rtr[q] == old_rtr[q]);
                    assert(rtr[q + 1] == old_rtr[q + 1]);
                }
            }
        }
        x += 1;
    }
    proof {
        assert(migration_via(*old(grid), *grid, *flags, fwd_i, fwd_j, rtr));
    }
}

} // verus!
