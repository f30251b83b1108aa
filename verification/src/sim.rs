//! One simulation step: mine ownership, combat, burning cities, ownership,
//! growth, migration along the flags' attraction, and the win/lose check.
use vstd::prelude::*;
use crate::ai::{spec_ai_gold_bonus, Difficulty};
use crate::consts::{DIRECTIONS, MAX_PLAYER, MAX_POP, RANDOM_INEQUALITY};
use crate::flags::{fits, FlagGrid};
use crate::grid::{inhabitable, inhabitable_at, lemma_area, lemma_idx, nbr, spec_idx, tile_wf, Grid, Tile};
use crate::rng::CowRng;
use crate::types::{dir, spec_is_city, spec_is_inhabitable, Loc, Outcome, PlayerId, TileClass};

verus! {

/// Population growth of a city per step, in tenths: village 11, town 12,
/// castle 13, anything else 0.
pub open spec fn spec_growth(cl: TileClass) -> int {
    match cl {
        TileClass::Village => 11,
        TileClass::Town => 12,
        TileClass::Castle => 13,
        _ => 0,
    }
}

/// Growth factor of a tile class, in tenths (1.1, 1.2 and 1.3 for
/// village, town and castle; 0 otherwise).
pub fn growth(cl: TileClass) -> (r: u64)
    ensures
        r == spec_growth(cl),
{
    match cl {
        TileClass::Village => 11,
        TileClass::Town => 12,
        TileClass::Castle => 13,
        _ => 0,
    }
}

/// Splits a day count into year (`time / 360`), month (`1 + (time % 360) /
/// 30`) and day (`1 + (time % 360) % 30`).
pub fn time_to_ymd(time: u64, y: &mut u64, m: &mut u32, d: &mut u32)
    ensures
        *final(y) == time / 360,
        *final(m) == 1 + (time % 360) / 30,
        *final(d) == 1 + (time % 360) % 30,
{
    let year = time / 360;
    let rem = time - year * 360;
    let month = rem / 30;
    let day = rem % 30;
    *y = year;
    *m = (month as u32) + 1;
    *d = (day as u32) + 1;
}

/// Density symbol of a population: -1 for none, then 0..=8 for more than
/// 0, 3, 6, 12, 25, 50, 100, 200 and 400.
pub open spec fn spec_pop_to_symbol(num: int) -> int {
    if num > 400 { 8 }
    else if num > 200 { 7 }
    else if num > 100 { 6 }
    else if num > 50 { 5 }
    else if num > 25 { 4 }
    else if num > 12 { 3 }
    else if num > 6 { 2 }
    else if num > 3 { 1 }
    else if num > 0 { 0 }
    else { -1 }
}

/// Density symbol of a population (see `spec_pop_to_symbol`).
pub fn pop_to_symbol(num: i32) -> (r: i32)
    ensures
        r == spec_pop_to_symbol(num as int),
{
    if num > 400 {
        8
    } else if num > 200 {
        7
    } else if num > 100 {
        6
    } else if num > 50 {
        5
    } else if num > 25 {
        4
    } else if num > 12 {
        3
    } else if num > 6 {
        2
    } else if num > 3 {
        1
    } else if num > 0 {
        0
    } else {
        -1
    }
}

/// Total population of player `p` over `ts`, counting only inhabitable
/// tiles when `inh_only`.
pub open spec fn pop_sum(ts: Seq<Tile>, p: int, inh_only: bool) -> int
    decreases ts.len(),
{
    if ts.len() == 0 {
        0
    } else {
        pop_sum(ts.drop_last(), p, inh_only) + if !inh_only || spec_is_inhabitable(ts.last().cl) {
            ts.last().pop[p] as int
        } else {
            0
        }
    }
}

/// The sum of a population over well-formed tiles is between zero and
/// `MAX_POP` times the number of tiles.
pub proof fn lemma_pop_sum_bounds(ts: Seq<Tile>, p: int, inh_only: bool)
    requires
        0 <= p < MAX_PLAYER,
        forall|k: int| 0 <= k < ts.len() ==> tile_wf(#[trigger] ts[k]),
    ensures
        0 <= pop_sum(ts, p, inh_only) <= MAX_POP * ts.len(),
    decreases ts.len(),
{
    if ts.len() > 0 {
        assert forall|k: int| 0 <= k < ts.drop_last().len() implies tile_wf(#[trigger] ts.drop_last()[k]) by {
            assert(ts.drop_last()[k] == ts[k]);
        }
        lemma_pop_sum_bounds(ts.drop_last(), p, inh_only);
        assert(tile_wf(ts[ts.len() - 1]));
    }
}

/// Outcome of the periodic check: defeat when the controlled player has no
/// population left on inhabitable tiles, victory when it has some and no
/// other country has any, undecided otherwise.
pub open spec fn spec_win_or_lose(ts: Seq<Tile>, c: int) -> Outcome {
    if pop_sum(ts, c, true) == 0 {
        Outcome::Defeat
    } else if exists|p: int| 1 <= p < MAX_PLAYER && p != c && #[trigger] pop_sum(ts, p, true) > 0 {
        Outcome::Undecided
    } else {
        Outcome::Victory
    }
}

/// Each player's population over the inhabitable tiles of the map.
pub fn inhabitable_pops(grid: &Grid) -> (pop: [i64; MAX_PLAYER])
    requires
        grid.wf(),
    ensures
        forall|p: int| 0 <= p < MAX_PLAYER ==> #[trigger] pop[p] == pop_sum(grid.tiles@, p, true),
{
    let n: usize = grid.tiles.len();
    proof { lemma_area(grid.width as int, grid.height as int); }
    let mut pop: [i64; MAX_PLAYER] = [0; MAX_PLAYER];
    let mut k: usize = 0;
    while k < n
        invariant
            k <= n,
            n == grid.tiles@.len(),
            n <= 1160,
            grid.wf(),
            forall|p: int| 0 <= p < MAX_PLAYER ==> #[trigger] pop[p] == pop_sum(grid.tiles@.take(k as int), p, true),
        decreases n - k,
    {
        let t = grid.tiles[k];
        let ghost ts = grid.tiles@.take(k as int);
        proof {
            assert(grid.tiles@.take(k + 1).drop_last() =~= ts);
            assert forall|q: int| 0 <= q < ts.len() implies tile_wf(#[trigger] ts[q]) by {
                assert(ts[q] == grid.tiles@[q]);
            }
            assert(tile_wf(t));
        }
        if t.cl.is_inhabitable() {
            let mut p: usize = 0;
            while p < MAX_PLAYER
                invariant
                    p <= MAX_PLAYER,
                    k < n,
                    n <= 1160,
                    n == grid.tiles@.len(),
                    grid.wf(),
                    t == grid.tiles@[k as int],
                    tile_wf(t),
                    spec_is_inhabitable(t.cl),
                    ts == grid.tiles@.take(k as int),
                    forall|q: int| 0 <= q < ts.len() ==> tile_wf(#[trigger] ts[q]),
                    forall|q: int| 0 <= q < p ==> #[trigger] pop[q] == pop_sum(grid.tiles@.take(k + 1), q, true),
                    forall|q: int| p <= q < MAX_PLAYER ==> #[trigger] pop[q] == pop_sum(ts, q, true),
                decreases MAX_PLAYER - p,
            {
                proof {
                    lemma_pop_sum_bounds(ts, p as int, true);
                    assert(grid.tiles@.take(k + 1).drop_last() =~= ts);
                    assert(MAX_POP * ts.len() <= 499 * 1160) by (nonlinear_arith)
                        requires ts.len() <= 1160, MAX_POP == 499;
                }
                pop[p] = pop[p] + t.pop[p] as i64;
                p += 1;
            }
        } else {
            proof {
                assert forall|q: int| 0 <= q < MAX_PLAYER implies #[trigger] pop[q] == pop_sum(grid.tiles@.take(k + 1), q, true) by {
                    assert(grid.tiles@.take(k + 1).drop_last() =~= ts);
                }
            }
        }
        k += 1;
    }
    assert(grid.tiles@.take(n as int) =~= grid.tiles@);
    pop
}

/// Player `p`'s population over every tile of the map.
pub fn player_total(grid: &Grid, p: usize) -> (r: i64)
    requires
        grid.wf(),
        p < MAX_PLAYER,
    ensures
        r == pop_sum(grid.tiles@, p as int, false),
{
    let n: usize = grid.tiles.len();
    proof { lemma_area(grid.width as int, grid.height as int); }
    let mut total: i64 = 0;
    let mut k: usize = 0;
    while k < n
        invariant
            k <= n,
            n == grid.tiles@.len(),
            n <= 1160,
            p < MAX_PLAYER,
            grid.wf(),
            total == pop_sum(grid.tiles@.take(k as int), p as int, false),
        decreases n - k,
    {
        let ghost ts = grid.tiles@.take(k as int);
        proof {
            assert(grid.tiles@.take(k + 1).drop_last() =~= ts);
            assert forall|q: int| 0 <= q < ts.len() implies tile_wf(#[trigger] ts[q]) by {
                assert(ts[q] == grid.tiles@[q]);
            }
            assert(tile_wf(grid.tiles@[k as int]));
            lemma_pop_sum_bounds(ts, p as int, false);
            assert(MAX_POP * ts.len() <= 499 * 1160) by (nonlinear_arith)
                requires ts.len() <= 1160, MAX_POP == 499;
        }
        total = total + grid.tiles[k].pop[p] as i64;
        k += 1;
    }
    assert(grid.tiles@.take(n as int) =~= grid.tiles@);
    total
}

/// `win_or_lose`: sums each player's population over inhabitable tiles
/// and decides the outcome for the controlled player.
pub fn win_or_lose(grid: &Grid, controlled: PlayerId) -> (r: Outcome)
    requires
        grid.wf(),
        controlled.0 < MAX_PLAYER,
    ensures
        r == spec_win_or_lose(grid.tiles@, controlled.0 as int),
{
    let pop = inhabitable_pops(grid);
    let c: usize = controlled.index();
    if pop[c] == 0 {
        return Outcome::Defeat;
    }
    let mut p: usize = 1;
    while p < MAX_PLAYER
        invariant
            1 <= p <= MAX_PLAYER,
            c == controlled.0,
            c < MAX_PLAYER,
            pop[c as int] != 0,
            forall|q: int| 0 <= q < MAX_PLAYER ==> #[trigger] pop[q] == pop_sum(grid.tiles@, q, true),
            forall|q: int| 1 <= q < p && q != c ==> #[trigger] pop_sum(grid.tiles@, q, true) <= 0,
        decreases MAX_PLAYER - p,
    {
        if p != c && pop[p] > 0 {
            proof {
                assert(pop_sum(grid.tiles@, p as int, true) > 0);
                assert(pop_sum(grid.tiles@, c as int, true) != 0);
                assert(exists|q: int| 1 <= q < MAX_PLAYER && q != c && #[trigger] pop_sum(grid.tiles@, q, true) > 0);
            }
            return Outcome::Undecided;
        }
        p += 1;
    }
    Outcome::Victory
}

/// The first player from `p` on (up to 7) with more population than the
/// best so far, starting from `best`; ties keep the earlier player.
pub open spec fn best_from(pop: Seq<int>, p: int, best: int) -> int
    decreases MAX_PLAYER - p,
{
    if p < 1 || p >= MAX_PLAYER {
        best
    } else {
        best_from(pop, p + 1, if pop[p] > pop[best] { p } else { best })
    }
}

/// The owner a tile's population gives it: the country with the largest
/// population, the earliest on ties, and neutral unless some country has
/// more than the neutral bucket.
pub open spec fn best_owner_spec(pop: Seq<int>) -> int {
    best_from(pop, 1, 0)
}

/// The population buckets of a tile as integers.
pub open spec fn pops(t: Tile) -> Seq<int> {
    Seq::new(MAX_PLAYER as nat, |p: int| t.pop[p] as int)
}

/// The best owner is a valid player.
proof fn lemma_best_from_range(pop: Seq<int>, p: int, best: int)
    requires
        0 <= best < MAX_PLAYER,
    ensures
        0 <= best_from(pop, p, best) < MAX_PLAYER,
    decreases MAX_PLAYER - p,
{
    if 1 <= p < MAX_PLAYER {
        lemma_best_from_range(pop, p + 1, if pop[p] > pop[best] { p } else { best });
    }
}

/// The owner that the population of `t` gives it.
pub fn best_owner(t: &Tile) -> (r: PlayerId)
    ensures
        r.0 == best_owner_spec(pops(*t)),
        r.0 < MAX_PLAYER,
{
    let mut best: usize = 0;
    let mut p: usize = 1;
    while p < MAX_PLAYER
        invariant
            1 <= p <= MAX_PLAYER,
            best < MAX_PLAYER,
            best_from(pops(*t), p as int, best as int) == best_owner_spec(pops(*t)),
        decreases MAX_PLAYER - p,
    {
        if t.pop[p] > t.pop[best] {
            best = p;
        }
        p += 1;
    }
    proof { lemma_best_from_range(pops(*t), 1, 0); }
    PlayerId(best as u8)
}

/// A tile with its owner re-derived from its population, when it is
/// inhabitable.
pub open spec fn owned_by_pop(t: Tile) -> Tile {
    if spec_is_inhabitable(t.cl) {
        Tile { cl: t.cl, pl: PlayerId(best_owner_spec(pops(t)) as u8), pop: t.pop }
    } else {
        t
    }
}

impl Grid {
    /// Time is kept by the game state; the map has nothing to advance.
    pub fn time_advance(&mut self)
        ensures
            *final(self) == *old(self),
    {
    }

    /// Re-derives the owner of every inhabitable tile from its population
    /// (see `best_owner_spec`); other tiles keep theirs.
    pub fn determine_ownership_all(&mut self)
        requires
            old(self).wf(),
        ensures
            final(self).wf(),
            final(self).width == old(self).width,
            final(self).height == old(self).height,
            final(self).tiles@ == old(self).tiles@.map_values(|t: Tile| owned_by_pop(t)),
    {
        let n: usize = self.tiles.len();
        let ghost t0 = self.tiles@;
        let mut k: usize = 0;
        while k < n
            invariant
                k <= n,
                n == self.tiles@.len(),
                t0 == old(self).tiles@,
                self.wf(),
                self.width == old(self).width,
                self.height == old(self).height,
                forall|q: int| 0 <= q < n ==> #[trigger] self.tiles@[q] == if q < k { owned_by_pop(t0[q]) } else { t0[q] },
            decreases n - k,
        {
            let t = self.tiles[k];
            if t.cl.is_inhabitable() {
                let best = best_owner(&t);
                self.tiles.set(k, Tile { cl: t.cl, pl: best, pop: t.pop });
            }
            k += 1;
        }
        assert(self.tiles@ =~= t0.map_values(|t: Tile| owned_by_pop(t)));
    }
}

/// The owner of the mine at `(i, j)` from its inhabitable neighbours in
/// directions `k..6`, given the candidate `o` so far: the first owned
/// neighbour names the owner, and a neighbour of another country makes the
/// mine neutral.
pub open spec fn mine_dirs(g: Grid, i: int, j: int, k: int, o: int) -> int
    decreases 6 - k,
{
    if k < 0 || k >= 6 {
        o
    } else {
        let n = nbr((i, j), k);
        if inhabitable_at(g, n.0, n.1) {
            let p = g.tile(n.0, n.1).pl.0 as int;
            if o == 0 {
                mine_dirs(g, i, j, k + 1, p)
            } else if o != p && p != 0 {
                0
            } else {
                mine_dirs(g, i, j, k + 1, o)
            }
        } else {
            mine_dirs(g, i, j, k + 1, o)
        }
    }
}

/// The owner a mine at `(i, j)` takes: the single country owning its
/// inhabitable neighbours, neutral when none or several do.
pub open spec fn mine_owner_spec(g: Grid, i: int, j: int) -> int {
    mine_dirs(g, i, j, 0, 0)
}

proof fn lemma_mine_dirs_range(g: Grid, i: int, j: int, k: int, o: int)
    requires
        g.wf(),
        0 <= o < MAX_PLAYER,
    ensures
        0 <= mine_dirs(g, i, j, k, o) < MAX_PLAYER,
    decreases 6 - k,
{
    if 0 <= k < 6 {
        let n = nbr((i, j), k);
        if inhabitable_at(g, n.0, n.1) {
            lemma_idx(g.width as int, g.height as int, n.0, n.1);
            let p = g.tile(n.0, n.1).pl.0 as int;
            assert(tile_wf(g.tile(n.0, n.1)));
            if o == 0 {
                lemma_mine_dirs_range(g, i, j, k + 1, p);
            } else if !(o != p && p != 0) {
                lemma_mine_dirs_range(g, i, j, k + 1, o);
            }
        } else {
            lemma_mine_dirs_range(g, i, j, k + 1, o);
        }
    }
}

/// The owner the mine at `l` takes from its neighbours.
pub fn mine_owner(g: &Grid, l: Loc) -> (r: PlayerId)
    requires
        g.wf(),
        g.in_map(l.i as int, l.j as int),
    ensures
        r.0 == mine_owner_spec(*g, l.i as int, l.j as int),
        r.0 < MAX_PLAYER,
{
    let mut o: u8 = 0;
    let mut k: usize = 0;
    let ghost a = l.i as int;
    let ghost b = l.j as int;
    while k < DIRECTIONS
        invariant
            k <= 6,
            g.wf(),
            g.in_map(a, b),
            a == l.i,
            b == l.j,
            o < MAX_PLAYER,
            mine_dirs(*g, a, b, k as int, o as int) == mine_owner_spec(*g, a, b),
        decreases 6 - k,
    {
        let dd = dir(k);
        let n = Loc::new(l.i + dd.i, l.j + dd.j);
        if inhabitable(g, n) {
            let p = g.get(n).unwrap().pl.0;
            proof {
                lemma_idx(g.width as int, g.height as int, n.i as int, n.j as int);
                assert(tile_wf(g.tile(n.i as int, n.j as int)));
            }
            if o == 0 {
                o = p;
            } else if o != p && p != 0 {
                return PlayerId(0);
            }
        }
        k += 1;
    }
    PlayerId(o)
}

/// Total population of a tile.
pub open spec fn tile_total(t: Tile) -> int {
    t.pop[0] + t.pop[1] + t.pop[2] + t.pop[3] + t.pop[4] + t.pop[5] + t.pop[6] + t.pop[7]
}

/// `r` is `num / den` rounded down, or rounded up when inexact.
pub open spec fn rounds(num: int, den: int, r: int) -> bool {
    r == num / den || (num % den != 0 && r == num / den + 1)
}

/// The damage `dmg[p]` each player takes in combat on `t`: its share of
/// the enemies, `enemies * own / total`, rounded at random.
pub open spec fn combat_ok(t: Tile, dmg: Seq<int>) -> bool {
    &&& dmg.len() == MAX_PLAYER
    &&& tile_total(t) != 0 ==> forall|p: int| 0 <= p < MAX_PLAYER ==> #[trigger] rounds(
        (tile_total(t) - t.pop[p]) * t.pop[p],
        tile_total(t),
        dmg[p],
    )
}

/// The population of `t` after combat with damages `dmg` (never below zero;
/// nothing happens on an empty tile).
pub open spec fn after_combat(t: Tile, dmg: Seq<int>) -> Seq<int> {
    Seq::new(MAX_PLAYER as nat, |p: int| if tile_total(t) == 0 {
        t.pop[p] as int
    } else if t.pop[p] - dmg[p] < 0 {
        0
    } else {
        t.pop[p] - dmg[p]
    })
}

/// The damage the owner of `t` took.
pub open spec fn defender_damage(t: Tile, dmg: Seq<int>) -> int {
    if tile_total(t) == 0 { 0 } else { dmg[t.pl.0 as int] }
}

/// A city one level down: castle to town, town to village, village to
/// grassland; other classes stay.
pub open spec fn burned(cl: TileClass) -> TileClass {
    match cl {
        TileClass::Castle => TileClass::Town,
        TileClass::Town => TileClass::Village,
        TileClass::Village => TileClass::Grassland,
        _ => cl,
    }
}

/// One step of tile `t0` gave `t1`, with mine owner `mo`, combat damages
/// `dmg` and grown population `gr`: a mine takes `mo` as owner; every
/// player loses its damage; a city whose owner lost more than 99 burns one
/// level down; an inhabitable tile takes the owner its population gives
/// it; a city with an owner grows its owner's population by its growth
/// factor, rounded at random and capped at `MAX_POP`.
pub open spec fn sim_tile_ok(t0: Tile, mo: int, t1: Tile, dmg: Seq<int>, gr: int) -> bool {
    let c = after_combat(t0, dmg);
    let cl2 = if defender_damage(t0, dmg) > 99 && spec_is_city(t0.cl) { burned(t0.cl) } else { t0.cl };
    let pl1 = if t0.cl == TileClass::Mine { mo } else { t0.pl.0 as int };
    let pl3 = if spec_is_inhabitable(cl2) { best_owner_spec(c) } else { pl1 };
    let grows = spec_is_city(cl2) && pl3 != 0;
    &&& combat_ok(t0, dmg)
    &&& t1.cl == cl2
    &&& t1.pl.0 == pl3
    &&& (grows ==> rounds(c[pl3] * spec_growth(cl2), 10, gr))
    &&& forall|p: int| 0 <= p < MAX_PLAYER ==> #[trigger] t1.pop[p] == if grows && p == pl3 {
        if gr > MAX_POP { MAX_POP as int } else { gr }
    } else {
        c[p]
    }
}

/// Tile `t0` steps to `t1` for some combat damages and growth.
pub open spec fn tile_stepped(t0: Tile, mo: int, t1: Tile) -> bool {
    exists|dmg: Seq<int>, gr: int| #[trigger] sim_tile_ok(t0, mo, t1, dmg, gr)
}

/// The population after combat stays within the bounds.
proof fn lemma_after_combat_bounds(t: Tile, dmg: Seq<int>)
    requires
        tile_wf(t),
        dmg.len() == MAX_PLAYER,
        forall|p: int| 0 <= p < MAX_PLAYER ==> 0 <= #[trigger] dmg[p],
    ensures
        forall|p: int| 0 <= p < MAX_PLAYER ==> 0 <= #[trigger] after_combat(t, dmg)[p] <= t.pop[p],
{
}

/// The step of the tile at `(i, j)` turns the map and gold `(a, ga)` into
/// `(b, gb)`: that tile steps as `tile_stepped` says, with the owner its
/// neighbours give a mine in `a`; no other tile changes; and a mine's new
/// owner, if any, earns one gold.
pub open spec fn tile_step(a: Grid, ga: [i64; MAX_PLAYER], b: Grid, gb: [i64; MAX_PLAYER], i: int, j: int) -> bool {
    let k = spec_idx(a.height as int, i, j);
    let t0 = a.tiles@[k];
    let mo = mine_owner_spec(a, i, j);
    &&& b.width == a.width
    &&& b.height == a.height
    &&& b.tiles@ == a.tiles@.update(k, b.tiles@[k])
    &&& tile_stepped(t0, mo, b.tiles@[k])
    &&& forall|p: int| 0 <= p < MAX_PLAYER ==> #[trigger] gb[p] == ga[p]
        + if t0.cl == TileClass::Mine && p == mo && mo != 0 { 1int } else { 0int }
}

/// One step of the tile at `(i, j)` (see `tile_step`). Sets `need_reeval`
/// when a city burned.
#[verifier::rlimit(40)]
fn simulate_tile(
    grid: &mut Grid,
    gold: &mut [i64; MAX_PLAYER],
    i: usize,
    j: usize,
    need_reeval: &mut bool,
    rng: &mut CowRng,
)
    requires
        old(grid).wf(),
        i < old(grid).width,
        j < old(grid).height,
        forall|p: int| 0 <= p < MAX_PLAYER ==> #[trigger] old(gold)[p] < i64::MAX,
    ensures
        final(grid).wf(),
        final(grid).width == old(grid).width,
        final(grid).height == old(grid).height,
        tile_step(*old(grid), *old(gold), *final(grid), *final(gold), i as int, j as int),
        class_step(
            old(grid).tiles@[spec_idx(old(grid).height as int, i as int, j as int)].cl,
            final(grid).tiles@[spec_idx(old(grid).height as int, i as int, j as int)].cl,
        ),
{
    let h: usize = grid.height;
    proof {
        lemma_idx(grid.width as int, h as int, i as int, j as int);
        lemma_area(grid.width as int, h as int);
    }
    let idx: usize = i * h + j;
    let ghost g0 = *grid;
    let t0 = grid.tiles[idx];
    proof { assert(tile_wf(t0)); }
    let mut t = t0;
    let cl = t0.cl;
    let owner = t0.pl;
    let mo = mine_owner(grid, Loc::new(i as i16, j as i16));

    // 1. Mine ownership.
    if cl == TileClass::Mine {
        t.pl = mo;
        if mo.0 != 0 {
            gold[mo.index()] = gold[mo.index()] + 1;
        }
    }

    // 2. Combat.
    let my: [i32; MAX_PLAYER] = t0.pop;
    let mut total: i32 = 0;
    let mut p: usize = 0;
    while p < MAX_PLAYER
        invariant
            p <= MAX_PLAYER,
            my == t0.pop,
            tile_wf(t0),
            total == (if p > 0 { my[0] as int } else { 0 }) + (if p > 1 { my[1] as int } else { 0 })
                + (if p > 2 { my[2] as int } else { 0 }) + (if p > 3 { my[3] as int } else { 0 })
                + (if p > 4 { my[4] as int } else { 0 }) + (if p > 5 { my[5] as int } else { 0 })
                + (if p > 6 { my[6] as int } else { 0 }) + (if p > 7 { my[7] as int } else { 0 }),
        decreases MAX_PLAYER - p,
    {
        total = total + my[p];
        p += 1;
    }
    let ghost mut dmg: Seq<int> = Seq::new(MAX_PLAYER as nat, |q: int| 0int);
    let mut defender_dmg: i32 = 0;
    if total != 0 {
        let mut p: usize = 0;
        while p < MAX_PLAYER
            invariant
                p <= MAX_PLAYER,
                my == t0.pop,
                tile_wf(t0),
                total == tile_total(t0),
                total > 0,
                total <= 8 * MAX_POP,
                owner == t0.pl,
                t.cl == t0.cl,
                t.pl == (if cl == TileClass::Mine { mo } else { t0.pl }),
                dmg.len() == MAX_PLAYER,
                forall|q: int| 0 <= q < p ==> #[trigger] rounds((total - my[q]) * my[q], total as int, dmg[q]),
                forall|q: int| 0 <= q < MAX_PLAYER ==> 0 <= #[trigger] dmg[q] <= 8 * MAX_POP,
                forall|q: int| 0 <= q < p ==> #[trigger] t.pop[q] == after_combat(t0, dmg)[q],
                forall|q: int| p <= q < MAX_PLAYER ==> #[trigger] t.pop[q] == t0.pop[q],
                owner.0 < p ==> defender_dmg == dmg[owner.0 as int],
                owner.0 >= p ==> defender_dmg == 0,
            decreases MAX_PLAYER - p,
        {
            let enemy: i32 = total - my[p];
            proof {
                assert(0 <= enemy * my[p as int] <= 8 * 499 * 499) by (nonlinear_arith)
                    requires 0 <= enemy <= 8 * 499, 0 <= my[p as int] <= 499;
            }
            let num: u64 = (enemy as u64) * (my[p] as u64);
            let d: u64 = rng.rnd_round(num as i64, total as u64) as u64;
            proof {
                assert(num / (total as u64) <= enemy) by (nonlinear_arith)
                    requires num == enemy * my[p as int], my[p as int] <= total, total > 0, enemy >= 0;
                dmg = dmg.update(p as int, d as int);
            }
            let dd: i32 = d as i32;
            let np: i32 = if my[p] - dd < 0 { 0 } else { my[p] - dd };
            t.pop[p] = np;
            if p == owner.index() {
                defender_dmg = dd;
            }
            p += 1;
        }
    }
    proof {
        assert(combat_ok(t0, dmg));
        assert forall|q: int| 0 <= q < MAX_PLAYER implies #[trigger] t.pop[q] == after_combat(t0, dmg)[q] by {}
    }
    let ghost c = after_combat(t0, dmg);
    proof {
        assert forall|q: int| 0 <= q < MAX_PLAYER implies 0 <= #[trigger] dmg[q] by {}
        lemma_after_combat_bounds(t0, dmg);
        assert(defender_damage(t0, dmg) == defender_dmg);
    }

    // 3. Burning cities.
    if defender_dmg > 99 && cl.is_city() {
        t.cl = match cl {
            TileClass::Castle => TileClass::Town,
            TileClass::Town => TileClass::Village,
            TileClass::Village => TileClass::Grassland,
            _ => cl,
        };
        *need_reeval = true;
    }

    // 4. Ownership.
    if t.cl.is_inhabitable() {
        let best = best_owner(&t);
        proof { assert(pops(t) =~= c); }
        t.pl = best;
    }
    proof { lemma_best_from_range(c, 1, 0); }

    // 5. Growth.
    let ghost mut gr: int = 0;
    let cl2 = t.cl;
    let pl = t.pl;
    if cl2.is_city() && pl.0 != 0 {
        let pop: i32 = t.pop[pl.index()];
        let gf: u64 = growth(cl2);
        proof {
            assert(0 <= pop <= MAX_POP);
            assert(gf <= 13);
            assert((pop as u64) * gf <= 499 * 13) by (nonlinear_arith)
                requires 0 <= pop <= 499, gf <= 13;
        }
        let np: u64 = rng.rnd_round(((pop as u64) * gf) as i64, 10) as u64;
        proof { gr = np as int; }
        let capped: i32 = if np > MAX_POP as u64 { MAX_POP } else { np as i32 };
        t.pop[pl.index()] = capped;
    }
    proof {
        assert(sim_tile_ok(t0, mo.0 as int, t, dmg, gr));
        assert(class_step(t0.cl, t.cl));
    }
    grid.tiles.set(idx, t);
    proof {
        assert forall|k: int| 0 <= k < grid.tiles@.len() implies tile_wf(#[trigger] grid.tiles@[k]) by {
            if k != idx {
                assert(tile_wf(g0.tiles@[k]));
            }
        }
        assert(grid.tiles@ =~= g0.tiles@.update(idx as int, grid.tiles@[idx as int]));
    }
}

/// Replacing one tile changes a player's total by the change of that
/// tile's bucket.
pub proof fn lemma_pop_sum_update(ts: Seq<Tile>, k: int, t: Tile, p: int)
    requires
        0 <= k < ts.len(),
    ensures
        pop_sum(ts.update(k, t), p, false) == pop_sum(ts, p, false) - ts[k].pop[p] + t.pop[p],
    decreases ts.len(),
{
    let u = ts.update(k, t);
    if k == ts.len() - 1 {
        assert(u.drop_last() =~= ts.drop_last());
    } else {
        assert(u.drop_last() =~= ts.drop_last().update(k, t));
        lemma_pop_sum_update(ts.drop_last(), k, t, p);
    }
}

/// A tile's class after a step: the same, or a city burnt one level down.
pub open spec fn class_step(before: TileClass, after: TileClass) -> bool {
    after == before || (spec_is_city(before) && after == burned(before))
}

/// Step `y` of the trace `tr` of a row's tile steps: the tile at `(i, y)`.
pub open spec fn tile_step_ok(tr: Seq<(Grid, [i64; MAX_PLAYER])>, i: int, y: int) -> bool {
    tile_step(tr[y].0, tr[y].1, tr[y + 1].0, tr[y + 1].1, i, y)
}

/// `tr` holds the map and gold before each tile's step in row `i` and
/// after the last, from `(a, ga)` to `(b, gb)`.
pub open spec fn row_steps_via(
    a: Grid,
    ga: [i64; MAX_PLAYER],
    b: Grid,
    gb: [i64; MAX_PLAYER],
    i: int,
    tr: Seq<(Grid, [i64; MAX_PLAYER])>,
) -> bool {
    &&& tr.len() == a.height + 1
    &&& tr[0] == (a, ga)
    &&& tr[a.height as int] == (b, gb)
    &&& forall|y: int| 0 <= y < a.height ==> #[trigger] tile_step_ok(tr, i, y)
}

/// The tiles of row `i` step in turn (`tile_step`), turning `(a, ga)`
/// into `(b, gb)`.
pub open spec fn row_stepped(a: Grid, ga: [i64; MAX_PLAYER], b: Grid, gb: [i64; MAX_PLAYER], i: int) -> bool {
    exists|tr: Seq<(Grid, [i64; MAX_PLAYER])>| #[trigger] row_steps_via(a, ga, b, gb, i, tr)
}

/// Step `x` of the trace `tr` of the tile phase: row `x`.
pub open spec fn row_step_ok(tr: Seq<(Grid, [i64; MAX_PLAYER])>, x: int) -> bool {
    row_stepped(tr[x].0, tr[x].1, tr[x + 1].0, tr[x + 1].1, x)
}

/// `tr` holds the map and gold before each row's tile steps and after the
/// last, from `(a, ga)` to `(b, gb)`.
pub open spec fn tiles_via(
    a: Grid,
    ga: [i64; MAX_PLAYER],
    b: Grid,
    gb: [i64; MAX_PLAYER],
    tr: Seq<(Grid, [i64; MAX_PLAYER])>,
) -> bool {
    &&& tr.len() == a.width + 1
    &&& tr[0] == (a, ga)
    &&& tr[a.width as int] == (b, gb)
    &&& forall|x: int| 0 <= x < a.width ==> #[trigger] row_step_ok(tr, x)
}

/// Every tile steps in turn (`tile_step`), row by row and within a row
/// column by column, turning `(a, ga)` into `(b, gb)`.
pub open spec fn tiles_stepped(a: Grid, ga: [i64; MAX_PLAYER], b: Grid, gb: [i64; MAX_PLAYER]) -> bool {
    exists|tr: Seq<(Grid, [i64; MAX_PLAYER])>| #[trigger] tiles_via(a, ga, b, gb, tr)
}

/// The gold `g` of player `p` after the bonus: a computer player (neither
/// neutral nor `controlled`) that holds gold earns `bonus`.
pub open spec fn with_bonus(g: i64, p: int, controlled: int, bonus: int) -> int {
    if bonus > 0 && p != 0 && p != controlled && g > 0 { g + bonus } else { g as int }
}

/// The phases of a step from `(a, ga)` to `(b, gb)`, through the map and
/// gold `(mid, gmid)` after the tile steps and the map `mig` after the
/// migration.
pub open spec fn step_via(
    a: Grid,
    ga: [i64; MAX_PLAYER],
    b: Grid,
    gb: [i64; MAX_PLAYER],
    flags: [FlagGrid; MAX_PLAYER],
    controlled: PlayerId,
    difficulty: Difficulty,
    mid: Grid,
    gmid: [i64; MAX_PLAYER],
    mig: Grid,
) -> bool {
    &&& tiles_stepped(a, ga, mid, gmid)
    &&& crate::migration::migrated(mid, mig, flags)
    &&& b.width == mig.width
    &&& b.height == mig.height
    &&& b.tiles@ == mig.tiles@.map_values(|t: Tile| owned_by_pop(t))
    &&& forall|p: int| 0 <= p < MAX_PLAYER ==> #[trigger] gb[p] == with_bonus(
        gmid[p],
        p,
        controlled.0 as int,
        spec_ai_gold_bonus(difficulty) as int,
    )
}

/// One simulation step turns the map and gold `(a, ga)` into `(b, gb)`:
/// every tile steps in storage order (`tiles_stepped`); the population
/// migrates (`migrated`); every inhabitable tile takes the owner its
/// population gives it; and, on the hard difficulties, computer players
/// with gold earn the bonus.
pub open spec fn sim_step(
    a: Grid,
    ga: [i64; MAX_PLAYER],
    b: Grid,
    gb: [i64; MAX_PLAYER],
    flags: [FlagGrid; MAX_PLAYER],
    controlled: PlayerId,
    difficulty: Difficulty,
) -> bool {
    exists|mid: Grid, gmid: [i64; MAX_PLAYER], mig: Grid| #[trigger] step_via(
        a, ga, b, gb, flags, controlled, difficulty, mid, gmid, mig)
}

/// One step of the simulation (see `sim_step`). Tiles only change class by
/// burning; gold never falls and grows by at most one per tile plus the
/// bonus.
pub fn simulate_one_step(
    grid: &mut Grid,
    gold: &mut [i64; MAX_PLAYER],
    flags: &[FlagGrid; MAX_PLAYER],
    controlled: PlayerId,
    difficulty: Difficulty,
    rng: &mut CowRng,
)
    requires
        old(grid).wf(),
        forall|p: int| 0 <= p < MAX_PLAYER ==> fits(*old(grid), #[trigger] flags[p]@),
        forall|p: int| 0 <= p < MAX_PLAYER ==> #[trigger] old(gold)[p] <= i64::MAX - 2000,
    ensures
        final(grid).wf(),
        final(grid).width == old(grid).width,
        final(grid).height == old(grid).height,
        sim_step(*old(grid), *old(gold), *final(grid), *final(gold), *flags, controlled, difficulty),
        forall|k: int| 0 <= k < old(grid).tiles@.len() ==> class_step(
            old(grid).tiles@[k].cl,
            #[trigger] final(grid).tiles@[k].cl,
        ),
        forall|p: int| 0 <= p < MAX_PLAYER ==> old(gold)[p] <= #[trigger] final(gold)[p] <= old(gold)[p] + 1162,
{
    let bonus: i32 = difficulty.ai_gold_bonus();
    grid.time_advance();
    let mut need_reeval = false;
    let w: usize = grid.width;
    let h: usize = grid.height;
    let n: usize = grid.tiles.len();
    proof { lemma_area(w as int, h as int); }
    let ghost g0 = *grid;
    let ghost gold0 = *gold;
    let ghost mut otr: Seq<(Grid, [i64; MAX_PLAYER])> = seq![(*grid, *gold)];
    let mut i: usize = 0;
    while i < w
        invariant
            i <= w,
            w == grid.width,
            h == grid.height,
            n == grid.tiles@.len(),
            n == w * h,
            n <= 1160,
            grid.wf(),
            g0.width == w,
            g0.height == h,
            g0.tiles@.len() == n,
            g0 == *old(grid),
            gold0 == *old(gold),
            forall|p: int| 0 <= p < MAX_PLAYER ==> #[trigger] gold0[p] <= i64::MAX - 2000,
            forall|k: int| 0 <= k < n ==> class_step(g0.tiles@[k].cl, #[trigger] grid.tiles@[k].cl),
            forall|k: int| i * h <= k < n ==> #[trigger] grid.tiles@[k].cl == g0.tiles@[k].cl,
            forall|p: int| 0 <= p < MAX_PLAYER ==> gold0[p] <= #[trigger] gold[p] <= gold0[p] + i * h,
            otr.len() == i + 1,
            otr[0] == (g0, gold0),
            otr[i as int] == (*grid, *gold),
            forall|q: int| 0 <= q < i ==> #[trigger] row_step_ok(otr, q),
        decreases w - i,
    {
        let ghost row_start = (*grid, *gold);
        let ghost mut itr: Seq<(Grid, [i64; MAX_PLAYER])> = seq![(*grid, *gold)];
        let mut j: usize = 0;
        while j < h
            invariant
                j <= h,
                i < w,
                w == grid.width,
                h == grid.height,
                n == grid.tiles@.len(),
                n == w * h,
                n <= 1160,
                grid.wf(),
                g0.width == w,
                g0.height == h,
                g0.tiles@.len() == n,
                forall|p: int| 0 <= p < MAX_PLAYER ==> #[trigger] gold0[p] <= i64::MAX - 2000,
                forall|k: int| 0 <= k < n ==> class_step(g0.tiles@[k].cl, #[trigger] grid.tiles@[k].cl),
                forall|k: int| i * h + j <= k < n ==> #[trigger] grid.tiles@[k].cl == g0.tiles@[k].cl,
                forall|p: int| 0 <= p < MAX_PLAYER ==> gold0[p] <= #[trigger] gold[p] <= gold0[p] + i * h + j,
                row_start.0.height == h,
                itr.len() == j + 1,
                itr[0] == row_start,
                itr[j as int] == (*grid, *gold),
                forall|q: int| 0 <= q < j ==> #[trigger] tile_step_ok(itr, i as int, q),
            decreases h - j,
        {
            proof {
                assert(i * h + j < n) by (nonlinear_arith) requires i < w, j < h, n == w * h;
            }
            let ghost before = grid.tiles@;
            simulate_tile(grid, gold, i, j, &mut need_reeval, rng);
            proof {
                let k = spec_idx(h as int, i as int, j as int);
                lemma_idx(w as int, h as int, i as int, j as int);
                assert(k == i * h + j);
                assert forall|q: int| 0 <= q < n implies class_step(g0.tiles@[q].cl, #[trigger] grid.tiles@[q].cl) by {
                    if q == k {
                        assert(before[k].cl == g0.tiles@[k].cl);
                    }
                }
                assert forall|q: int| i * h + j + 1 <= q < n implies #[trigger] grid.tiles@[q].cl == g0.tiles@[q].cl by {
                    assert(before[q].cl == g0.tiles@[q].cl);
                }
                let old_itr = itr;
                itr = itr.push((*grid, *gold));
                assert(tile_step_ok(itr, i as int, j as int));
                assert forall|q: int| 0 <= q < j + 1 implies #[trigger] tile_step_ok(itr, i as int, q) by {
                    if q < j {
                        assert(tile_step_ok(old_itr, i as int, q));
                        assert(itr[q] == old_itr[q]);
                        assert(itr[q + 1] == old_itr[q + 1]);
                    }
                }
            }
            j += 1;
        }
        proof {
            assert(row_steps_via(row_start.0, row_start.1, *grid, *gold, i as int, itr));
            let old_otr = otr;
            otr = otr.push((*grid, *gold));
            assert(row_step_ok(otr, i as int));
            assert forall|q: int| 0 <= q < i + 1 implies #[trigger] row_step_ok(otr, q) by {
                if q < i {
                    assert(row_step_ok(old_otr, q));
                    assert(otr[q] == old_otr[q]);
                    assert(otr[q + 1] == old_otr[q + 1]);
                }
            }
        }
        assert(i * h + h == (i + 1) * h) by (nonlinear_arith);
        i += 1;
    }
    let ghost mid = *grid;
    let ghost gmid = *gold;
    proof { assert(tiles_via(g0, gold0, mid, gmid, otr)); }
    crate::migration::simulate_migration(grid, flags, rng);
    let ghost mig = *grid;
    grid.determine_ownership_all();
    if bonus > 0 {
        let mut p: usize = 0;
        while p < MAX_PLAYER
            invariant
                p <= MAX_PLAYER,
                0 < bonus <= 2,
                bonus == spec_ai_gold_bonus(difficulty),
                forall|q: int| 0 <= q < MAX_PLAYER ==> #[trigger] gold0[q] <= i64::MAX - 2000,
                forall|q: int| 0 <= q < MAX_PLAYER ==> gold0[q] <= #[trigger] gmid[q] <= gold0[q] + 1160,
                forall|q: int| 0 <= q < MAX_PLAYER ==> #[trigger] gold[q] == if q < p {
                    with_bonus(gmid[q], q, controlled.0 as int, bonus as int)
                } else {
                    gmid[q] as int
                },
            decreases MAX_PLAYER - p,
        {
            if p != 0 && p != controlled.index() && gold[p] > 0 {
                gold[p] = gold[p] + bonus as i64;
            }
            p += 1;
        }
    }
    proof {
        assert(step_via(g0, gold0, *grid, *gold, *flags, controlled, difficulty, mid, gmid, mig));
    }
    let _ = need_reeval;
}

/// The sentinel for "no inequality constraint".
pub fn _unused() -> (r: i32)
    ensures
        r == RANDOM_INEQUALITY,
{
    RANDOM_INEQUALITY
}

/// A country other than the controlled one that still has people on
/// inhabitable tiles, whichever of countries 1 to 7 it is, rules out
/// victory.
pub proof fn law_no_victory_while_a_rival_lives(ts: Seq<Tile>, c: int, p: int)
    requires
        1 <= p < MAX_PLAYER,
        p != c,
        pop_sum(ts, p, true) > 0,
    ensures
        spec_win_or_lose(ts, c) != Outcome::Victory,
{
}

/// Victory holds exactly when the controlled country has people on
/// inhabitable tiles and every other country from 1 to 7 has none; defeat
/// exactly when the controlled country has none.
pub proof fn law_victory_means_alone(ts: Seq<Tile>, c: int)
    requires
        0 <= c < MAX_PLAYER,
        forall|k: int| 0 <= k < ts.len() ==> tile_wf(#[trigger] ts[k]),
    ensures
        spec_win_or_lose(ts, c) == Outcome::Victory <==> pop_sum(ts, c, true) > 0
            && forall|p: int| 1 <= p < MAX_PLAYER && p != c ==> #[trigger] pop_sum(ts, p, true) == 0,
        spec_win_or_lose(ts, c) == Outcome::Defeat <==> pop_sum(ts, c, true) == 0,
{
    lemma_pop_sum_bounds(ts, c, true);
    assert forall|p: int| 1 <= p < MAX_PLAYER && p != c implies 0 <= #[trigger] pop_sum(ts, p, true) by {
        lemma_pop_sum_bounds(ts, p, true);
    }
}

/// The owner of a neighbour of the mine at `(i, j)` in direction `d`, when
/// that neighbour is inhabitable.
pub open spec fn nbr_owner(g: Grid, i: int, j: int, d: int) -> int {
    g.tile(nbr((i, j), d).0, nbr((i, j), d).1).pl.0 as int
}

/// Once the mine has an owner `o`, an inhabitable neighbour still to come
/// that belongs to another country makes it neutral.
proof fn lemma_mine_dirs_rival(g: Grid, i: int, j: int, k: int, o: int, d: int)
    requires
        o != 0,
        k <= d < 6,
        0 <= k,
        inhabitable_at(g, nbr((i, j), d).0, nbr((i, j), d).1),
        nbr_owner(g, i, j, d) != 0,
        nbr_owner(g, i, j, d) != o,
    ensures
        mine_dirs(g, i, j, k, o) == 0,
    decreases 6 - k,
{
    if k < d {
        lemma_mine_dirs_rival(g, i, j, k + 1, o, d);
    }
}

/// Two inhabitable neighbours still to come that belong to two different
/// countries make an unowned mine neutral.
proof fn lemma_mine_dirs_contested(g: Grid, i: int, j: int, k: int, d1: int, d2: int)
    requires
        0 <= k <= d1 < d2 < 6,
        inhabitable_at(g, nbr((i, j), d1).0, nbr((i, j), d1).1),
        inhabitable_at(g, nbr((i, j), d2).0, nbr((i, j), d2).1),
        nbr_owner(g, i, j, d1) != 0,
        nbr_owner(g, i, j, d2) != 0,
        nbr_owner(g, i, j, d1) != nbr_owner(g, i, j, d2),
    ensures
        mine_dirs(g, i, j, k, 0) == 0,
    decreases 6 - k,
{
    let n = nbr((i, j), k);
    if k == d1 {
        lemma_mine_dirs_rival(g, i, j, k + 1, nbr_owner(g, i, j, d1), d2);
    } else if inhabitable_at(g, n.0, n.1) {
        let p = g.tile(n.0, n.1).pl.0 as int;
        if p == 0 {
            lemma_mine_dirs_contested(g, i, j, k + 1, d1, d2);
        } else if p != nbr_owner(g, i, j, d1) {
            lemma_mine_dirs_rival(g, i, j, k + 1, p, d1);
        } else {
            lemma_mine_dirs_rival(g, i, j, k + 1, p, d2);
        }
    } else {
        lemma_mine_dirs_contested(g, i, j, k + 1, d1, d2);
    }
}

/// A mine whose inhabitable neighbours include two of different countries
/// belongs to nobody.
pub proof fn law_contested_mine_is_neutral(g: Grid, i: int, j: int, d1: int, d2: int)
    requires
        0 <= d1 < 6,
        0 <= d2 < 6,
        inhabitable_at(g, nbr((i, j), d1).0, nbr((i, j), d1).1),
        inhabitable_at(g, nbr((i, j), d2).0, nbr((i, j), d2).1),
        nbr_owner(g, i, j, d1) != 0,
        nbr_owner(g, i, j, d2) != 0,
        nbr_owner(g, i, j, d1) != nbr_owner(g, i, j, d2),
    ensures
        mine_owner_spec(g, i, j) == 0,
{
    if d1 < d2 {
        lemma_mine_dirs_contested(g, i, j, 0, d1, d2);
    } else {
        lemma_mine_dirs_contested(g, i, j, 0, d2, d1);
    }
}

/// In a step of a contested mine (two inhabitable neighbours of two
/// different countries), the mine ends up neutral and nobody earns gold
/// from it.
pub proof fn law_contested_mine_pays_nobody(
    a: Grid,
    ga: [i64; MAX_PLAYER],
    b: Grid,
    gb: [i64; MAX_PLAYER],
    i: int,
    j: int,
    d1: int,
    d2: int,
)
    requires
        a.tile(i, j).cl == TileClass::Mine,
        tile_step(a, ga, b, gb, i, j),
        0 <= d1 < 6,
        0 <= d2 < 6,
        inhabitable_at(a, nbr((i, j), d1).0, nbr((i, j), d1).1),
        inhabitable_at(a, nbr((i, j), d2).0, nbr((i, j), d2).1),
        nbr_owner(a, i, j, d1) != 0,
        nbr_owner(a, i, j, d2) != 0,
        nbr_owner(a, i, j, d1) != nbr_owner(a, i, j, d2),
    ensures
        b.tile(i, j).pl.0 == 0,
        forall|p: int| 0 <= p < MAX_PLAYER ==> #[trigger] gb[p] == ga[p],
{
    law_contested_mine_is_neutral(a, i, j, d1, d2);
    let k = spec_idx(a.height as int, i, j);
    let t0 = a.tiles@[k];
    let (dmg, gr) = choose|dmg: Seq<int>, gr: int| #[trigger] sim_tile_ok(t0, 0, b.tiles@[k], dmg, gr);
    assert(sim_tile_ok(t0, 0, b.tiles@[k], dmg, gr));
}

/// Once the mine has the owner `p`, neighbours of no other country keep it
/// with `p`.
proof fn lemma_mine_dirs_keeps(g: Grid, i: int, j: int, k: int, p: int)
    requires
        p != 0,
        0 <= k,
        forall|d: int| k <= d < 6 && #[trigger] inhabitable_at(g, nbr((i, j), d).0, nbr((i, j), d).1)
            ==> nbr_owner(g, i, j, d) == 0 || nbr_owner(g, i, j, d) == p,
    ensures
        mine_dirs(g, i, j, k, p) == p,
    decreases 6 - k,
{
    if k < 6 {
        lemma_mine_dirs_keeps(g, i, j, k + 1, p);
    }
}

/// An unowned mine with a neighbour of country `p` still to come, and no
/// neighbour of another country, goes to `p`.
proof fn lemma_mine_dirs_finds(g: Grid, i: int, j: int, k: int, p: int, d: int)
    requires
        p != 0,
        0 <= k <= d < 6,
        inhabitable_at(g, nbr((i, j), d).0, nbr((i, j), d).1),
        nbr_owner(g, i, j, d) == p,
        forall|e: int| k <= e < 6 && #[trigger] inhabitable_at(g, nbr((i, j), e).0, nbr((i, j), e).1)
            ==> nbr_owner(g, i, j, e) == 0 || nbr_owner(g, i, j, e) == p,
    ensures
        mine_dirs(g, i, j, k, 0) == p,
    decreases 6 - k,
{
    let n = nbr((i, j), k);
    if inhabitable_at(g, n.0, n.1) && g.tile(n.0, n.1).pl.0 != 0 {
        assert(nbr_owner(g, i, j, k) == p);
        lemma_mine_dirs_keeps(g, i, j, k + 1, p);
    } else {
        assert(k < d);
        lemma_mine_dirs_finds(g, i, j, k + 1, p, d);
    }
}

/// A mine whose inhabitable neighbours belong to one country `p` (or to
/// nobody), with at least one of `p`, belongs to `p`.
pub proof fn law_mine_goes_to_its_one_neighbour_country(g: Grid, i: int, j: int, p: int, d: int)
    requires
        p != 0,
        0 <= d < 6,
        inhabitable_at(g, nbr((i, j), d).0, nbr((i, j), d).1),
        nbr_owner(g, i, j, d) == p,
        forall|e: int| 0 <= e < 6 && #[trigger] inhabitable_at(g, nbr((i, j), e).0, nbr((i, j), e).1)
            ==> nbr_owner(g, i, j, e) == 0 || nbr_owner(g, i, j, e) == p,
    ensures
        mine_owner_spec(g, i, j) == p,
{
    lemma_mine_dirs_finds(g, i, j, 0, p, d);
}

/// In a step of a mine whose inhabitable neighbours belong to one country
/// `p` (or to nobody), with at least one of `p`, the mine goes to `p` and
/// pays `p` one gold; nobody else's gold changes.
pub proof fn law_mine_pays_its_owner(
    a: Grid,
    ga: [i64; MAX_PLAYER],
    b: Grid,
    gb: [i64; MAX_PLAYER],
    i: int,
    j: int,
    p: int,
    d: int,
)
    requires
        a.tile(i, j).cl == TileClass::Mine,
        tile_step(a, ga, b, gb, i, j),
        0 < p < MAX_PLAYER,
        0 <= d < 6,
        inhabitable_at(a, nbr((i, j), d).0, nbr((i, j), d).1),
        nbr_owner(a, i, j, d) == p,
        forall|e: int| 0 <= e < 6 && #[trigger] inhabitable_at(a, nbr((i, j), e).0, nbr((i, j), e).1)
            ==> nbr_owner(a, i, j, e) == 0 || nbr_owner(a, i, j, e) == p,
    ensures
        b.tile(i, j).pl.0 == p,
        gb[p] == ga[p] + 1,
        forall|q: int| 0 <= q < MAX_PLAYER && q != p ==> #[trigger] gb[q] == ga[q],
{
    law_mine_goes_to_its_one_neighbour_country(a, i, j, p, d);
    let k = spec_idx(a.height as int, i, j);
    let t0 = a.tiles@[k];
    let (dmg, gr) = choose|dmg: Seq<int>, gr: int| #[trigger] sim_tile_ok(t0, p, b.tiles@[k], dmg, gr);
    assert(sim_tile_ok(t0, p, b.tiles@[k], dmg, gr));
}

/// The country `best_from` settles on has at least as many people as any
/// bucket, and more than every bucket before it.
proof fn lemma_best_from_max(pop: Seq<int>, p: int, best: int)
    requires
        pop.len() == MAX_PLAYER,
        1 <= p <= MAX_PLAYER,
        0 <= best < p,
        forall|q: int| 0 <= q < p ==> #[trigger] pop[q] <= pop[best],
        forall|q: int| 0 <= q < best ==> #[trigger] pop[q] < pop[best],
    ensures
        forall|q: int| 0 <= q < MAX_PLAYER ==> #[trigger] pop[q] <= pop[best_from(pop, p, best)],
        forall|q: int| 0 <= q < best_from(pop, p, best) ==> #[trigger] pop[q] < pop[best_from(pop, p, best)],
        0 <= best_from(pop, p, best) < MAX_PLAYER,
    decreases MAX_PLAYER - p,
{
    if p < MAX_PLAYER {
        let nb = if pop[p] > pop[best] { p } else { best };
        lemma_best_from_max(pop, p + 1, nb);
    }
}

/// The growth factor of a city class in tenths, from its level: a village
/// 11, a town 12, a castle 13.
pub open spec fn city_growth_tenths(cl: TileClass) -> int {
    if cl == TileClass::Village {
        11
    } else if cl == TileClass::Town {
        12
    } else {
        13
    }
}

/// One tile's step, in terms of the tile before and after and the combat
/// damages `dmg`: a city burns one level down (upgrading it gives back
/// what it was) exactly when its owner lost more than 99 in combat; a mine
/// takes the owner its neighbours give it (`mo`); an inhabitable tile goes
/// to the country with the most people on it afterwards (the earliest on
/// ties, neutral unless a country has more than the neutral bucket); and
/// a city's owner grows by its factor, 1.1, 1.2 or 1.3, rounded to an
/// integer one way or the other and capped at `MAX_POP`, while the other
/// buckets keep what combat left them.
pub proof fn law_tile_step(t0: Tile, mo: int, t1: Tile, dmg: Seq<int>, gr: int)
    requires
        tile_wf(t0),
        sim_tile_ok(t0, mo, t1, dmg, gr),
    ensures
        t1.cl != t0.cl <==> spec_is_city(t0.cl) && tile_total(t0) != 0 && dmg[t0.pl.0 as int] > 99,
        t1.cl != t0.cl ==> crate::ai::upgraded(t1.cl) == t0.cl,
        t0.cl == TileClass::Mine ==> t1.cl == TileClass::Mine && t1.pl.0 == mo,
        spec_is_inhabitable(t1.cl) ==> {
            &&& forall|p: int| 0 <= p < MAX_PLAYER ==> #[trigger] t1.pop[p] <= t1.pop[t1.pl.0 as int]
            &&& forall|p: int| 0 <= p < t1.pl.0 ==> #[trigger] t1.pop[p] < t1.pop[t1.pl.0 as int]
        },
        forall|p: int| 0 <= p < MAX_PLAYER && !(spec_is_city(t1.cl) && p == t1.pl.0 && p != 0)
            ==> #[trigger] t1.pop[p] == after_combat(t0, dmg)[p],
        spec_is_city(t1.cl) && t1.pl.0 != 0 ==> {
            let o = t1.pl.0 as int;
            let before = after_combat(t0, dmg)[o];
            &&& t1.pop[o] <= MAX_POP
            &&& 10 * t1.pop[o] <= before * city_growth_tenths(t1.cl) + 9
            &&& (t1.pop[o] == MAX_POP || before * city_growth_tenths(t1.cl) <= 10 * t1.pop[o] + 9)
        },
{
    let c = after_combat(t0, dmg);
    let t = tile_total(t0);
    if t != 0 {
        assert forall|p: int| 0 <= p < MAX_PLAYER implies 0 <= #[trigger] dmg[p] by {
            assert(rounds((t - t0.pop[p]) * t0.pop[p], t, dmg[p]));
            assert((t - t0.pop[p]) * t0.pop[p] >= 0) by (nonlinear_arith)
                requires t0.pop[p] >= 0, t - t0.pop[p] >= 0;
            assert((t - t0.pop[p]) * t0.pop[p] / t >= 0) by (nonlinear_arith)
                requires (t - t0.pop[p]) * t0.pop[p] >= 0, t > 0;
        }
    }
    assert forall|p: int| 0 <= p < MAX_PLAYER implies 0 <= #[trigger] c[p] <= t0.pop[p] <= MAX_POP by {
    }
    let cl2 = t1.cl;
    if spec_is_inhabitable(cl2) {
        lemma_best_from_max(c, 1, 0);
        let o = t1.pl.0 as int;
        if spec_is_city(cl2) && o != 0 {
            let f = spec_growth(cl2);
            assert(f == city_growth_tenths(cl2));
            assert(rounds(c[o] * f, 10, gr));
            assert(c[o] * f >= 10 * c[o]) by (nonlinear_arith) requires f >= 11, c[o] >= 0;
            assert(gr >= c[o]);
        }
    }
    if spec_is_city(cl2) && t1.pl.0 != 0 {
        let o = t1.pl.0 as int;
        let f = spec_growth(cl2);
        let num = c[o] * f;
        assert(f == city_growth_tenths(cl2));
        assert(rounds(num, 10, gr));
        assert(num >= 0) by (nonlinear_arith) requires c[o] >= 0, f >= 0, num == c[o] * f;
        assert(10 * (num / 10) <= num < 10 * (num / 10) + 10);
        assert(num % 10 != 0 ==> 10 * (num / 10) < num);
        assert(10 * gr <= num + 9);
        assert(num <= 10 * gr + 9);
    }
}

/// Combat on a tile: when anybody lives there, each player loses its
/// share of the enemies, `(total - own) * own / total`, rounded one way or
/// the other, and never drops below zero; on an empty tile nothing
/// happens.
pub proof fn law_combat_share(t0: Tile, mo: int, t1: Tile, dmg: Seq<int>, gr: int, p: int)
    requires
        tile_wf(t0),
        sim_tile_ok(t0, mo, t1, dmg, gr),
        0 <= p < MAX_PLAYER,
    ensures
        ({
            let t = tile_total(t0);
            let own = t0.pop[p] as int;
            &&& t == 0 ==> after_combat(t0, dmg)[p] == own
            &&& t != 0 ==> {
                &&& dmg[p] * t <= (t - own) * own + t - 1
                &&& (t - own) * own <= dmg[p] * t + t - 1
                &&& after_combat(t0, dmg)[p] == if own - dmg[p] < 0 { 0 } else { own - dmg[p] }
            }
        }),
{
    let t = tile_total(t0);
    let own = t0.pop[p] as int;
    if t != 0 {
        let num = (t - own) * own;
        assert(rounds(num, t, dmg[p]));
        assert(t > 0);
        assert(num >= 0) by (nonlinear_arith) requires own >= 0, t - own >= 0, num == (t - own) * own;
        let q = num / t;
        assert(t * q <= num < t * q + t) by (nonlinear_arith) requires t > 0, q == num / t, num >= 0;
        assert(num % t != 0 ==> t * q < num) by (nonlinear_arith) requires t > 0, q == num / t, num >= 0;
        assert(dmg[p] * t == t * dmg[p]) by (nonlinear_arith);
        if dmg[p] == q + 1 {
            assert(t * (q + 1) == t * q + t) by (nonlinear_arith);
        }
    }
}

/// The tile's owner has at least as many people on it as any bucket,
/// and more than every bucket before it.
pub open spec fn held_by_most(t: Tile) -> bool {
    &&& forall|p: int| 0 <= p < MAX_PLAYER ==> #[trigger] t.pop[p] <= t.pop[t.pl.0 as int]
    &&& forall|p: int| 0 <= p < t.pl.0 ==> #[trigger] t.pop[p] < t.pop[t.pl.0 as int]
}

/// After a simulation step every inhabitable tile belongs to the country
/// with the most people on it (the earliest on ties, neutral unless a
/// country has more than the neutral bucket); and, after the tiles' own
/// steps, each computer player (neither neutral nor controlled) that has
/// gold earns 1 on the hard level and 2 on the hardest, nobody else
/// anything.
pub proof fn law_step_owners_and_bonus(
    a: Grid,
    ga: [i64; MAX_PLAYER],
    b: Grid,
    gb: [i64; MAX_PLAYER],
    flags: [FlagGrid; MAX_PLAYER],
    controlled: PlayerId,
    difficulty: Difficulty,
)
    requires
        sim_step(a, ga, b, gb, flags, controlled, difficulty),
    ensures
        forall|k: int| 0 <= k < b.tiles@.len() && spec_is_inhabitable(#[trigger] b.tiles@[k].cl)
            ==> held_by_most(b.tiles@[k]),
        exists|mid: Grid, gmid: [i64; MAX_PLAYER]| #[trigger] tiles_stepped(a, ga, mid, gmid)
            && forall|p: int| 0 <= p < MAX_PLAYER ==> #[trigger] gb[p] == gmid[p] + if p != 0 && p != controlled.0
                && gmid[p] > 0 {
                match difficulty {
                    Difficulty::Hard => 1int,
                    Difficulty::Hardest => 2int,
                    _ => 0int,
                }
            } else {
                0int
            },
{
    let (mid, gmid, mig) = choose|mid: Grid, gmid: [i64; MAX_PLAYER], mig: Grid| #[trigger] step_via(
        a, ga, b, gb, flags, controlled, difficulty, mid, gmid, mig);
    assert forall|k: int| 0 <= k < b.tiles@.len() && spec_is_inhabitable(#[trigger] b.tiles@[k].cl) implies
        held_by_most(b.tiles@[k]) by {
        let t = mig.tiles@[k];
        assert(b.tiles@[k] == owned_by_pop(t));
        assert(spec_is_inhabitable(t.cl));
        lemma_best_from_max(pops(t), 1, 0);
        let o = best_owner_spec(pops(t));
        assert(0 <= o < MAX_PLAYER);
        assert(b.tiles@[k].pl.0 as int == o);
        let bt = b.tiles@[k];
        assert forall|p: int| 0 <= p < MAX_PLAYER implies #[trigger] bt.pop[p] <= bt.pop[bt.pl.0 as int] by {
            assert(pops(t)[p] <= pops(t)[o]);
        }
        assert forall|p: int| 0 <= p < bt.pl.0 implies #[trigger] bt.pop[p] < bt.pop[bt.pl.0 as int] by {
            assert(pops(t)[p] < pops(t)[o]);
        }
    }
    assert(tiles_stepped(a, ga, mid, gmid));
}

/// An unowned mine whose remaining inhabitable neighbours belong to
/// nobody stays unowned.
proof fn lemma_mine_dirs_none(g: Grid, i: int, j: int, k: int)
    requires
        0 <= k,
        forall|d: int| k <= d < 6 && #[trigger] inhabitable_at(g, nbr((i, j), d).0, nbr((i, j), d).1)
            ==> nbr_owner(g, i, j, d) == 0,
    ensures
        mine_dirs(g, i, j, k, 0) == 0,
    decreases 6 - k,
{
    if k < 6 {
        lemma_mine_dirs_none(g, i, j, k + 1);
    }
}

/// A mine none of whose inhabitable neighbours belongs to a country
/// belongs to nobody.
pub proof fn law_mine_without_owned_neighbours_is_neutral(g: Grid, i: int, j: int)
    requires
        forall|d: int| 0 <= d < 6 && #[trigger] inhabitable_at(g, nbr((i, j), d).0, nbr((i, j), d).1)
            ==> nbr_owner(g, i, j, d) == 0,
    ensures
        mine_owner_spec(g, i, j) == 0,
{
    lemma_mine_dirs_none(g, i, j, 0);
}

} // verus!
