//! Computer-controlled kings: map evaluation, the builder shared by all of
//! them, and the flag-placing strategies.
use vstd::prelude::*;
use vstd::array::spec_array_update;
use crate::consts::{FLAG_POWER, MAX_PLAYER, MAX_POP, PRICE_CASTLE, PRICE_TOWN, PRICE_VILLAGE};
use crate::flags::{
    add_flag, can_add, can_remove, fits, flags_ok, lemma_add_flag_ok, lemma_flags_ok_call,
    lemma_remove_flag_ok, lemma_flag_credit_bounds, lemma_flag_ops_fit, loc_of, remove_flag,
    spec_add_flag, spec_remove_flag, spread, spread_u, spread_v, zeros, FlagGrid, FlagGridView,
};
use crate::wide::{lemma_pw_exp_mono, lemma_pw_mono, lemma_pw_one, lemma_pw_pos, lemma_pw_strict, pow10_7, pw, wide_less};
use crate::grid::inhabitable;
use crate::grid::{coord, fill, in_fill, inhabitable_at, lemma_area, lemma_idx, lemma_idx_inv, nbr, spec_idx, tile_wf, Grid, Tile};
use crate::rng::CowRng;
use crate::types::{dir, dir_i, dir_j, spec_is_inhabitable, Loc, PlayerId, TileClass};

verus! {

/// Strategy of a king.
#[derive(Clone, Copy, PartialEq, Eq, Structural, Hash, Debug)]
pub enum Strategy {
    Idle,
    AggrGreedy,
    OneGreedy,
    PersistentGreedy,
    Opportunist,
    Noble,
    Midas,
}

/// Game difficulty, as the simulation and the kings see it.
#[derive(Clone, Copy, PartialEq, Eq, Structural, Hash, Debug)]
pub enum Difficulty {
    Easiest,
    Easy,
    Normal,
    Hard,
    Hardest,
}

/// Gold the computer players earn per step on top of their mines.
pub open spec fn spec_ai_gold_bonus(d: Difficulty) -> i32 {
    match d {
        Difficulty::Hard => 1,
        Difficulty::Hardest => 2,
        _ => 0,
    }
}

impl Difficulty {
    /// Extra gold per step for computer players: 1 on hard, 2 on hardest,
    /// 0 otherwise.
    pub fn ai_gold_bonus(self) -> (r: i32)
        ensures
            r == spec_ai_gold_bonus(self),
    {
        match self {
            Difficulty::Hard => 1,
            Difficulty::Hardest => 2,
            _ => 0,
        }
    }
}

/// The fixed strategy of each computer player: 2 opportunist, 3 one-greedy,
/// 4 idle (no flags), 5 aggressive-greedy, 6 noble, 7 persistent-greedy; none for the
/// human (1) and anyone else.
pub open spec fn spec_default_strategy(pl: PlayerId) -> Option<Strategy> {
    if pl.0 == 2 { Some(Strategy::Opportunist) }
    else if pl.0 == 3 { Some(Strategy::OneGreedy) }
    else if pl.0 == 4 { Some(Strategy::Idle) }
    else if pl.0 == 5 { Some(Strategy::AggrGreedy) }
    else if pl.0 == 6 { Some(Strategy::Noble) }
    else if pl.0 == 7 { Some(Strategy::PersistentGreedy) }
    else { None }
}

/// Default strategy of a computer player (see `spec_default_strategy`).
pub fn default_strategy(pl: PlayerId) -> (r: Option<Strategy>)
    ensures
        r == spec_default_strategy(pl),
{
    match pl.0 {
        2 => Some(Strategy::Opportunist),
        3 => Some(Strategy::OneGreedy),
        4 => Some(Strategy::Idle),
        5 => Some(Strategy::AggrGreedy),
        6 => Some(Strategy::Noble),
        7 => Some(Strategy::PersistentGreedy),
        _ => None,
    }
}

/// A king controls one computer player, with its own value map of the
/// tiles.
#[derive(Clone, Debug)]
pub struct King {
    pub pl: PlayerId,
    pub strategy: Strategy,
    pub value: Vec<i32>,
    pub width: usize,
    pub height: usize,
}

impl King {
    /// Width of the value map.
    pub open spec fn w(&self) -> int {
        self.width as int
    }

    /// Height of the value map.
    pub open spec fn h(&self) -> int {
        self.height as int
    }

    /// The king matches the map: same dimensions, one value per tile, and
    /// it plays a valid player.
    pub open spec fn fits(&self, g: Grid) -> bool {
        &&& self.w() == g.width
        &&& self.h() == g.height
        &&& self.value@.len() == g.tiles@.len()
        &&& self.pl.0 < MAX_PLAYER
    }

    /// A king for `pl` with strategy `strategy` on a map of at most
    /// `40 x 29` tiles; its value map is all zeros.
    pub fn new(pl: PlayerId, strategy: Strategy, width: usize, height: usize) -> (k: King)
        ensures
            k.pl == pl,
            k.strategy == strategy,
            k.w() == if width < 40 { width } else { 40 },
            k.h() == if height < 29 { height } else { 29 },
            k.value@.len() == k.w() * k.h(),
            forall|x: int| 0 <= x < k.value@.len() ==> #[trigger] k.value@[x] == 0,
    {
        Self::new_clamped(pl, strategy, width, height)
    }

    /// A king for `pl` with strategy `strategy`, its map clamped to
    /// `40 x 29` tiles and its value map all zeros.
    pub fn new_clamped(pl: PlayerId, strategy: Strategy, w: usize, h: usize) -> (k: King)
        ensures
            k.pl == pl,
            k.strategy == strategy,
            k.w() == if w < 40 { w } else { 40 },
            k.h() == if h < 29 { h } else { 29 },
            k.value@.len() == k.w() * k.h(),
            forall|x: int| 0 <= x < k.value@.len() ==> #[trigger] k.value@[x] == 0,
    {
        let w = if w < 40 { w } else { 40 };
        let h = if h < 29 { h } else { 29 };
        proof { lemma_area(w as int, h as int); }
        let value = crate::flags::zero_vec(w * h);
        King { pl, strategy, value, width: w, height: h }
    }
}

/// Population of `pl` on `t` (its army) and of everybody else (the
/// enemy).
pub open spec fn spec_army_enemy(t: Tile, pl: int) -> (int, int) {
    (t.pop[pl] as int, t.pop[0] + t.pop[1] + t.pop[2] + t.pop[3] + t.pop[4] + t.pop[5] + t.pop[6] + t.pop[7] - t.pop[pl])
}

/// The army of `pl` on tile `idx` and the population of everybody else.
fn army_enemy(g: &Grid, idx: usize, pl: PlayerId) -> (r: (i32, i32))
    requires
        g.wf(),
        idx < g.tiles@.len(),
        pl.0 < MAX_PLAYER,
    ensures
        r.0 as int == spec_army_enemy(g.tiles@[idx as int], pl.0 as int).0,
        r.1 as int == spec_army_enemy(g.tiles@[idx as int], pl.0 as int).1,
        0 <= r.0 <= MAX_POP,
        0 <= r.1 <= 7 * MAX_POP,
{
    let t = g.tiles[idx];
    proof { assert(tile_wf(t)); }
    let army = t.pop[pl.index()];
    let mut enemy: i32 = 0;
    let mut p: usize = 0;
    while p < MAX_PLAYER
        invariant
            p <= MAX_PLAYER,
            tile_wf(t),
            pl.0 < MAX_PLAYER,
            enemy == (if p > 0 { t.pop[0] as int } else { 0 }) + (if p > 1 { t.pop[1] as int } else { 0 })
                + (if p > 2 { t.pop[2] as int } else { 0 }) + (if p > 3 { t.pop[3] as int } else { 0 })
                + (if p > 4 { t.pop[4] as int } else { 0 }) + (if p > 5 { t.pop[5] as int } else { 0 })
                + (if p > 6 { t.pop[6] as int } else { 0 }) + (if p > 7 { t.pop[7] as int } else { 0 })
                - (if pl.0 < p { t.pop[pl.0 as int] as int } else { 0 }),
        decreases MAX_PLAYER - p,
    {
        if p != pl.index() {
            enemy = enemy + t.pop[p];
        }
        p += 1;
    }
    (army, enemy)
}

/// Grassland, villages and towns can be upgraded.
pub open spec fn upgradable(cl: TileClass) -> bool {
    cl == TileClass::Grassland || cl == TileClass::Village || cl == TileClass::Town
}

/// The class an upgrade gives: grassland to village, village to town, town
/// to castle.
pub open spec fn upgraded(cl: TileClass) -> TileClass {
    match cl {
        TileClass::Grassland => TileClass::Village,
        TileClass::Village => TileClass::Town,
        _ => TileClass::Castle,
    }
}

/// The price of upgrading: 160 for a village, 240 for a town, 320 for a
/// castle.
pub open spec fn upgrade_price(cl: TileClass) -> i64 {
    match cl {
        TileClass::Grassland => PRICE_VILLAGE,
        TileClass::Village => PRICE_TOWN,
        _ => PRICE_CASTLE,
    }
}

/// The price constant of a city class: a village 160, a town 240, a
/// castle 320; other classes are not bought.
pub open spec fn city_price(cl: TileClass) -> i64 {
    match cl {
        TileClass::Village => PRICE_VILLAGE,
        TileClass::Town => PRICE_TOWN,
        TileClass::Castle => PRICE_CASTLE,
        _ => 0,
    }
}

/// An upgrade costs the price of the class it produces: grassland to a
/// village 160, a village to a town 240, a town to a castle 320.
pub proof fn law_upgrade_costs_the_new_class(cl: TileClass)
    requires
        upgradable(cl),
    ensures
        upgrade_price(cl) == city_price(upgraded(cl)),
        0 < upgrade_price(cl),
{
}

/// The downgrade of a city: castle to town, town to village, village to
/// grassland; other classes cannot be downgraded.
pub open spec fn spec_downgrade(cl: TileClass) -> Option<TileClass> {
    match cl {
        TileClass::Castle => Some(TileClass::Town),
        TileClass::Town => Some(TileClass::Village),
        TileClass::Village => Some(TileClass::Grassland),
        _ => None,
    }
}

/// Building at `(i, j)` succeeds for `pl`: the tile is on the map, can be
/// upgraded, is owned by `pl`, and `pl` can pay.
pub open spec fn can_build(g: Grid, gold: [i64; MAX_PLAYER], pl: int, i: int, j: int) -> bool {
    &&& g.in_map(i, j)
    &&& upgradable(g.tile(i, j).cl)
    &&& gold[pl] >= upgrade_price(g.tile(i, j).cl)
    &&& g.tile(i, j).pl.0 == pl
}

/// Downgrading a class undoes upgrading it.
pub proof fn law_downgrade_undoes_upgrade(cl: TileClass)
    requires
        upgradable(cl),
    ensures
        spec_downgrade(upgraded(cl)) == Some(cl),
{
}

/// `build`: upgrades the tile at `l` for `pl` and charges the price, when
/// `can_build` holds; otherwise changes nothing. Returns whether it built.
pub fn build(g: &mut Grid, gold: &mut [i64; MAX_PLAYER], pl: PlayerId, l: Loc) -> (r: bool)
    requires
        old(g).wf(),
        pl.0 < MAX_PLAYER,
    ensures
        final(g).wf(),
        final(g).width == old(g).width,
        final(g).height == old(g).height,
        r == can_build(*old(g), *old(gold), pl.0 as int, l.i as int, l.j as int),
        !r ==> *final(g) == *old(g) && *final(gold) == *old(gold),
        r ==> {
            let k = spec_idx(old(g).height as int, l.i as int, l.j as int);
            let t = old(g).tiles@[k];
            &&& final(g).tiles@ == old(g).tiles@.update(k, Tile { cl: upgraded(t.cl), pl: t.pl, pop: t.pop })
            &&& *final(gold) == spec_array_update(
                *old(gold),
                pl.0 as int,
                (old(gold)[pl.0 as int] - upgrade_price(t.cl)) as i64,
            )
        },
{
    let t = match g.get(l) {
        Some(t) => *t,
        None => {
            return false;
        },
    };
    let (price, new_cl) = match t.cl {
        TileClass::Grassland => (PRICE_VILLAGE, TileClass::Village),
        TileClass::Village => (PRICE_TOWN, TileClass::Town),
        TileClass::Town => (PRICE_CASTLE, TileClass::Castle),
        _ => {
            return false;
        },
    };
    if gold[pl.index()] < price {
        return false;
    }
    if t.pl.0 != pl.0 {
        return false;
    }
    let ghost g0 = *g;
    let idx = i_h(g, l);
    g.tiles.set(idx, Tile { cl: new_cl, pl: t.pl, pop: t.pop });
    gold[pl.index()] = gold[pl.index()] - price;
    proof {
        assert forall|k: int| 0 <= k < g.tiles@.len() implies tile_wf(#[trigger] g.tiles@[k]) by {
            assert(tile_wf(g0.tiles@[k]));
        }
        assert(*gold =~= spec_array_update(*old(gold), pl.0 as int, (old(gold)[pl.0 as int] - price) as i64));
    }
    true
}

/// `degrade`: downgrades the city at `l` by one level; anything else stays.
/// Returns whether it downgraded.
pub fn degrade(g: &mut Grid, l: Loc) -> (r: bool)
    requires
        old(g).wf(),
    ensures
        final(g).wf(),
        final(g).width == old(g).width,
        final(g).height == old(g).height,
        r == (old(g).in_map(l.i as int, l.j as int) && spec_downgrade(old(g).tile(l.i as int, l.j as int).cl) is Some),
        !r ==> *final(g) == *old(g),
        r ==> {
            let k = spec_idx(old(g).height as int, l.i as int, l.j as int);
            let t = old(g).tiles@[k];
            final(g).tiles@ == old(g).tiles@.update(k, Tile { cl: spec_downgrade(t.cl)->0, pl: t.pl, pop: t.pop })
        },
{
    let t = match g.get(l) {
        Some(t) => *t,
        None => {
            return false;
        },
    };
    let new_cl = match t.cl {
        TileClass::Castle => TileClass::Town,
        TileClass::Town => TileClass::Village,
        TileClass::Village => TileClass::Grassland,
        _ => {
            return false;
        },
    };
    let ghost g0 = *g;
    let idx = i_h(g, l);
    g.tiles.set(idx, Tile { cl: new_cl, pl: t.pl, pop: t.pop });
    proof {
        assert forall|k: int| 0 <= k < g.tiles@.len() implies tile_wf(#[trigger] g.tiles@[k]) by {
            assert(tile_wf(g0.tiles@[k]));
        }
    }
    true
}

/// Every inhabitable neighbour of `(i, j)` on the map belongs to `pl`.
pub open spec fn surrounded_by(g: Grid, i: int, j: int, pl: int) -> bool {
    forall|k: int| 0 <= k < 6 && inhabitable_at(g, #[trigger] nbr((i, j), k).0, nbr((i, j), k).1)
        ==> g.tile(nbr((i, j), k).0, nbr((i, j), k).1).pl.0 == pl
}

/// How much king `k` wants to build on tile `x`: zero unless the tile is
/// its own, inhabitable, surrounded by its own tiles, holds an army of at
/// least `MAX_POP / 10` and can be upgraded; otherwise the weight of its
/// class (grassland 1, village 8, town 32; times `value + 10` for the
/// Midas strategy) times the room left for the army.
pub open spec fn build_score(k: King, g: Grid, x: int) -> int {
    let t = g.tiles@[x];
    let c = (x / g.height as int, x % g.height as int);
    let army = t.pop[k.pl.0 as int] as int;
    let base = if t.cl == TileClass::Grassland { 1int } else if t.cl == TileClass::Village { 8int } else { 32int };
    let weight = if k.strategy == Strategy::Midas { base * (k.value@[x] + 10) } else { base };
    if t.pl == k.pl && spec_is_inhabitable(t.cl) && surrounded_by(g, c.0, c.1, k.pl.0 as int)
        && army >= MAX_POP / 10 && upgradable(t.cl) {
        weight * (MAX_POP - army)
    } else {
        0
    }
}

/// The build score of tile `x` when the king's gold pays for the upgrade
/// there; 0 otherwise.
pub open spec fn afford_score(k: King, g: Grid, gold: [i64; MAX_PLAYER], x: int) -> int {
    if gold[k.pl.0 as int] >= upgrade_price(g.tiles@[x].cl) { build_score(k, g, x) } else { 0 }
}

/// The tile the builder picks among `q..n`, given the best so far: the
/// first tile whose score among those the king can afford beats every
/// earlier one (and zero); -1 for none.
pub open spec fn pick_from(k: King, g: Grid, gold: [i64; MAX_PLAYER], q: int, best: int, best_v: int) -> int
    decreases g.tiles@.len() - q,
{
    if q < 0 || q >= g.tiles@.len() {
        best
    } else if afford_score(k, g, gold, q) > best_v {
        pick_from(k, g, gold, q + 1, q, afford_score(k, g, gold, q))
    } else {
        pick_from(k, g, gold, q + 1, best, best_v)
    }
}

/// Scores are bounded, so they fit in 64 bits.
proof fn lemma_build_score_bounds(k: King, g: Grid, x: int)
    requires
        g.wf(),
        k.fits(g),
        0 <= x < g.tiles@.len(),
    ensures
        -0x10_0000_0000_0000 <= build_score(k, g, x) <= 0x10_0000_0000_0000,
{
    let t = g.tiles@[x];
    assert(tile_wf(t));
    let army = t.pop[k.pl.0 as int] as int;
    let v = k.value@[x] as int;
    assert(-0x1_0000_0000 <= v + 10 <= 0x1_0000_0000);
    assert(0 <= MAX_POP - army <= 499);
    assert(-0x1_0000_0000 * 32 <= 32 * (v + 10) <= 0x1_0000_0000 * 32);
    if army >= MAX_POP / 10 {
        let b: int = if t.cl == TileClass::Grassland { 1int } else if t.cl == TileClass::Village { 8int } else { 32int };
        assert(-0x20_0000_0000 <= b * (v + 10) <= 0x20_0000_0000) by (nonlinear_arith)
            requires 1 <= b <= 32, -0x1_0000_0000 <= v + 10 <= 0x1_0000_0000;
        assert(-0x10_0000_0000_0000 <= b * (v + 10) * (MAX_POP - army) <= 0x10_0000_0000_0000) by (nonlinear_arith)
            requires -0x20_0000_0000 <= b * (v + 10) <= 0x20_0000_0000, 0 <= MAX_POP - army <= 499;
        assert(-0x10_0000_0000_0000 <= b * (MAX_POP - army) <= 0x10_0000_0000_0000) by (nonlinear_arith)
            requires 1 <= b <= 32, 0 <= MAX_POP - army <= 499;
    }
}

/// The build score of tile `idx` for king `k`.
fn score_at(k: &King, g: &Grid, idx: usize) -> (r: i64)
    requires
        g.wf(),
        k.fits(*g),
        idx < g.tiles@.len(),
    ensures
        r == build_score(*k, *g, idx as int),
{
    proof { lemma_build_score_bounds(*k, *g, idx as int); }
    let h: usize = g.height;
    let t = g.tiles[idx];
    proof {
        assert(tile_wf(t));
        assert(h > 0) by (nonlinear_arith)
            requires idx < g.tiles@.len(), g.tiles@.len() == g.width * h;
        lemma_idx_inv(g.width as int, h as int, idx as int);
        lemma_area(g.width as int, h as int);
    }
    if t.pl.0 != k.pl.0 || !t.cl.is_inhabitable() {
        return 0;
    }
    let i: i16 = (idx / h) as i16;
    let j: i16 = (idx % h) as i16;
    let mut d: usize = 0;
    while d < 6
        invariant
            d <= 6,
            g.wf(),
            h == g.height,
            i as int == idx as int / h as int,
            j as int == idx as int % h as int,
            0 <= i < g.width,
            0 <= j < h,
            forall|q: int| 0 <= q < d && inhabitable_at(*g, #[trigger] nbr((i as int, j as int), q).0, nbr((i as int, j as int), q).1)
                ==> g.tile(nbr((i as int, j as int), q).0, nbr((i as int, j as int), q).1).pl.0 == k.pl.0,
        decreases 6 - d,
    {
        let dd = dir(d);
        let n = Loc::new(i + dd.i, j + dd.j);
        if inhabitable(g, n) {
            let p = g.get(n).unwrap().pl;
            if p.0 != k.pl.0 {
                proof {
                    let c = nbr((i as int, j as int), d as int);
                    assert(c == (n.i as int, n.j as int));
                    assert(inhabitable_at(*g, c.0, c.1));
                    assert(g.tile(c.0, c.1).pl.0 != k.pl.0);
                    assert(!surrounded_by(*g, i as int, j as int, k.pl.0 as int));
                }
                return 0;
            }
        }
        d += 1;
    }
    let army: i32 = t.pop[k.pl.index()];
    if army < MAX_POP / 10 {
        return 0;
    }
    let base: i64 = match t.cl {
        TileClass::Grassland => 1,
        TileClass::Village => 8,
        TileClass::Town => 32,
        _ => {
            return 0;
        },
    };
    let weight: i64 = if k.strategy == Strategy::Midas {
        proof {
            assert(-0x20_0000_0000 <= base * (k.value@[idx as int] + 10) <= 0x20_0000_0000) by (nonlinear_arith)
                requires 1 <= base <= 32, -0x1_0000_0000 <= k.value@[idx as int] + 10 <= 0x1_0000_0000;
        }
        base * (k.value[idx] as i64 + 10)
    } else {
        base
    };
    proof {
        assert(-0x10_0000_0000_0000 <= weight * (MAX_POP - army) <= 0x10_0000_0000_0000) by (nonlinear_arith)
            requires -0x20_0000_0000 <= weight <= 0x20_0000_0000, 0 <= MAX_POP - army <= 499;
    }
    weight * ((MAX_POP - army) as i64)
}

/// What `builder_default` does: `b` is the tile it picks among those it
/// can afford (-1 for none); with a pick that `can_build` allows, the tile
/// is upgraded and its price charged (`r` is true); otherwise map and gold
/// stay.
pub open spec fn builds(k: King, g0: Grid, gold0: [i64; MAX_PLAYER], g1: Grid, gold1: [i64; MAX_PLAYER], r: bool) -> bool {
    let b = pick_from(k, g0, gold0, 0, -1, 0);
    let c = (b / g0.height as int, b % g0.height as int);
    &&& g1.width == g0.width
    &&& g1.height == g0.height
    &&& b == -1 ==> !r && g1 == g0 && gold1 == gold0
    &&& b != -1 ==> r == can_build(g0, gold0, k.pl.0 as int, c.0, c.1)
    &&& b != -1 && !r ==> g1 == g0 && gold1 == gold0
    &&& b != -1 && r ==> {
        let x = spec_idx(g0.height as int, c.0, c.1);
        let t = g0.tiles@[x];
        &&& g1.tiles@ == g0.tiles@.update(x, Tile { cl: upgraded(t.cl), pl: t.pl, pop: t.pop })
        &&& gold1 == spec_array_update(gold0, k.pl.0 as int, (gold0[k.pl.0 as int] - upgrade_price(t.cl)) as i64)
    }
}

/// Building never raises anybody's gold, and never takes more than the
/// builder has.
pub proof fn lemma_builds_gold(k: King, g0: Grid, gold0: [i64; MAX_PLAYER], g1: Grid, gold1: [i64; MAX_PLAYER], r: bool, p: int)
    requires
        builds(k, g0, gold0, g1, gold1, r),
        0 <= p < MAX_PLAYER,
        k.pl.0 < MAX_PLAYER,
    ensures
        gold1[p] <= gold0[p],
        0 <= gold0[p] ==> 0 <= gold1[p],
{
    let b = pick_from(k, g0, gold0, 0, -1, 0);
    if b != -1 && r {
        let c = (b / g0.height as int, b % g0.height as int);
        let x = spec_idx(g0.height as int, c.0, c.1);
        let t = g0.tiles@[x];
        assert(gold1@ == gold0@.update(k.pl.0 as int, (gold0[k.pl.0 as int] - upgrade_price(t.cl)) as i64));
        assert(gold1[p] == gold1@[p]);
        assert(gold0[p] == gold0@[p]);
    }
}

/// `builder_default`: the builder every king shares, which builds the best
/// city it can afford. Picks, among the tiles whose upgrade the king's gold
/// pays for, the one with the best `build_score` (the first of equals;
/// none when no score is positive) and builds there (see `builds`).
/// Returns whether it built.
pub fn builder_default(king: &King, g: &mut Grid, gold: &mut [i64; MAX_PLAYER]) -> (r: bool)
    requires
        old(g).wf(),
        king.fits(*old(g)),
    ensures
        final(g).wf(),
        builds(*king, *old(g), *old(gold), *final(g), *final(gold), r),
{
    let n: usize = g.tiles.len();
    let mut best: i64 = -1;
    let mut best_v: i64 = 0;
    let mut q: usize = 0;
    proof { lemma_area(g.width as int, g.height as int); }
    while q < n
        invariant
            q <= n,
            n == g.tiles@.len(),
            n <= 1160,
            g.wf(),
            king.fits(*g),
            -1 <= best < q,
            king.pl.0 < MAX_PLAYER,
            pick_from(*king, *g, *gold, q as int, best as int, best_v as int) == pick_from(*king, *g, *gold, 0, -1, 0),
        decreases n - q,
    {
        let score = score_at(king, g, q);
        let price: i64 = match g.tiles[q].cl {
            TileClass::Grassland => PRICE_VILLAGE,
            TileClass::Village => PRICE_TOWN,
            _ => PRICE_CASTLE,
        };
        let v: i64 = if gold[king.pl.index()] >= price { score } else { 0 };
        if v > best_v {
            best_v = v;
            best = q as i64;
        }
        q += 1;
    }
    if best < 0 {
        return false;
    }
    let b: usize = best as usize;
    let h: usize = g.height;
    proof {
        assert(h > 0) by (nonlinear_arith)
            requires b < n, n == g.width * h;
        lemma_idx_inv(g.width as int, h as int, b as int);
    }
    let l = Loc::new((b / h) as i16, (b % h) as i16);
    build(g, gold, king.pl, l)
}

/// `max(0, x)`.
pub open spec fn nonneg(x: int) -> int {
    if x < 0 { 0 } else { x }
}

/// `spread_value`: spreads `val` from `l` over the scratch field `u` (as
/// `spread` does) and adds the growth of `u`, times `factor`, to the value
/// field `v`, never going below zero.
pub fn spread_value(g: &Grid, u: &mut Vec<i32>, v: &mut Vec<i32>, l: Loc, val: i32, factor: i32)
    requires
        g.wf(),
        old(u)@.len() == g.tiles@.len(),
        old(v)@.len() == g.tiles@.len(),
        -1 <= factor <= 1,
        forall|x: int| 0 <= x < old(u)@.len() ==> 0 <= #[trigger] old(u)@[x],
        forall|x: int| 0 <= x < old(v)@.len() ==> 0 <= #[trigger] old(v)@[x],
        factor == 1 ==> forall|x: int| 0 <= x < old(u)@.len() && old(u)@[x] < val
            ==> old(v)@[x] + (val - old(u)@[x]) <= i32::MAX,
    ensures
        final(u)@ == spread_u(*g, old(u)@, l.i as int, l.j as int, val),
        final(u)@.len() == old(u)@.len(),
        final(v)@.len() == old(v)@.len(),
        forall|x: int| 0 <= x < old(u)@.len() ==> old(u)@[x] <= #[trigger] final(u)@[x],
        forall|x: int| 0 <= x < old(u)@.len() ==>
            final(u)@[x] == old(u)@[x] || #[trigger] final(u)@[x] <= val,
        forall|x: int| 0 <= x < old(v)@.len() ==> #[trigger] final(v)@[x]
            == nonneg(old(v)@[x] + (final(u)@[x] - old(u)@[x]) * factor),
{
    let ghost v0 = v@;
    let ghost u0 = u@;
    spread(g, u, v, l, val, factor);
    let ghost v1 = v@;
    let n: usize = v.len();
    let mut k: usize = 0;
    while k < n
        invariant
            k <= n,
            n == v@.len(),
            v1.len() == n,
            forall|x: int| 0 <= x < n ==> #[trigger] v@[x] == if x < k { nonneg(v1[x] as int) } else { v1[x] as int },
        decreases n - k,
    {
        if v[k] < 0 {
            v.set(k, 0);
        }
        k += 1;
    }
    proof {
        assert forall|x: int| 0 <= x < v0.len() implies #[trigger] v@[x]
            == nonneg(v0[x] + (u@[x] - u0[x]) * factor) by {
            assert(v1[x] == spread_v(v0[x] as int, factor as int, u@[x] - u0[x]));
            assert(0 <= v0[x]);
            assert(u0[x] <= u@[x]);
            if factor == 1 {
                assert((u@[x] - u0[x]) * factor == u@[x] - u0[x]);
            } else if factor == 0 {
                assert((u@[x] - u0[x]) * factor == 0);
            } else {
                assert(factor == -1);
                assert((u@[x] - u0[x]) * factor == -(u@[x] - u0[x])) by (nonlinear_arith)
                    requires factor == -1;
            }
        }
    }
}

/// `even_value`: resets the scratch field to `val` over the region a fill
/// from `l` reaches (see `even`).
pub fn even_value(g: &Grid, u: &mut Vec<i32>, l: Loc, val: i32)
    requires
        g.wf(),
        old(u)@.len() == g.tiles@.len(),
    ensures
        final(u)@.len() == old(u)@.len(),
        forall|a: int, b: int| g.in_map(a, b) ==> #[trigger] final(u)@[spec_idx(g.height as int, a, b)]
            == if in_fill(*g, old(u)@, val, (l.i as int, l.j as int), false, (a, b)) {
                val
            } else {
                old(u)@[spec_idx(g.height as int, a, b)]
            },
{
    fill(g, u, l, val, false)
}

/// The scratch field after `even_value` from `(i, j)`.
pub open spec fn evened(g: Grid, u: Seq<i32>, i: int, j: int, val: i32) -> Seq<i32> {
    Seq::new(u.len(), |x: int| if in_fill(g, u, val, (i, j), false, coord(g, x)) { val } else { u[x] })
}

/// One spread of `val` from `(i, j)` into the value field, followed by the
/// reset of the scratch field: the pair (scratch, values) afterwards.
pub open spec fn spread_step(g: Grid, st: (Seq<i32>, Seq<i32>), i: int, j: int, val: i32) -> (Seq<i32>, Seq<i32>) {
    let u1 = spread_u(g, st.0, i, j, val);
    (evened(g, u1, i, j, 0), Seq::new(st.1.len(), |x: int| (st.1[x] + (u1[x] - st.0[x])) as i32))
}

/// Spreads `val` from the neighbours of a mine at `(i, j)` in directions
/// `k..6`, in order.
pub open spec fn mine_steps(g: Grid, st: (Seq<i32>, Seq<i32>), i: int, j: int, val: i32, k: int) -> (Seq<i32>, Seq<i32>)
    decreases 6 - k,
{
    if k < 0 || k >= 6 {
        st
    } else {
        mine_steps(g, spread_step(g, st, i + dir_i(k), j + dir_j(k), val), i, j, val, k + 1)
    }
}

/// What a king with strategy `s` adds around tile `x`: castles 16 (32 for
/// nobles), towns 8, villages 4 (2 for nobles), and 4 (8 for Midas) from
/// each neighbour of a mine.
pub open spec fn tile_step(g: Grid, s: Strategy, st: (Seq<i32>, Seq<i32>), x: int) -> (Seq<i32>, Seq<i32>) {
    let c = coord(g, x);
    let cl = g.tiles@[x].cl;
    if cl == TileClass::Castle {
        spread_step(g, st, c.0, c.1, if s == Strategy::Noble { 32i32 } else { 16i32 })
    } else if cl == TileClass::Town {
        spread_step(g, st, c.0, c.1, 8i32)
    } else if cl == TileClass::Village {
        spread_step(g, st, c.0, c.1, if s == Strategy::Noble { 2i32 } else { 4i32 })
    } else if cl == TileClass::Mine {
        mine_steps(g, st, c.0, c.1, if s == Strategy::Midas { 8i32 } else { 4i32 }, 0)
    } else {
        st
    }
}

/// The steps of tiles `0..q`, in storage order.
pub open spec fn value_fold(g: Grid, s: Strategy, st: (Seq<i32>, Seq<i32>), q: int) -> (Seq<i32>, Seq<i32>)
    decreases q,
{
    if q <= 0 {
        st
    } else {
        tile_step(g, s, value_fold(g, s, st, q - 1), q - 1)
    }
}

/// Base value of tile `x`: 1 on an inhabitable tile (2 for the persistent
/// greedy strategy), 0 elsewhere.
pub open spec fn base_value(g: Grid, s: Strategy, x: int) -> i32 {
    if spec_is_inhabitable(g.tiles@[x].cl) {
        if s == Strategy::PersistentGreedy { 2i32 } else { 1i32 }
    } else {
        0i32
    }
}

/// The value map of a king with strategy `s` on `g`, before the
/// difficulty noise.
pub open spec fn evaluated(g: Grid, s: Strategy) -> Seq<i32> {
    let n = g.tiles@.len();
    value_fold(g, s, (zeros(n), Seq::new(n, |x: int| base_value(g, s, x))), n as int).1
}

/// `v` is the noisy version of the value `e` at `difficulty`: on the
/// easiest level `e / 4` plus a draw in `-3..=3`, on easy `e / 2` plus a
/// draw in `-1..=1`, never below zero; unchanged on the other levels.
pub open spec fn noisy(difficulty: Difficulty, e: int, v: int) -> bool {
    match difficulty {
        Difficulty::Easiest => nonneg(e / 4 - 3) <= v <= e / 4 + 3 && v >= 0,
        Difficulty::Easy => nonneg(e / 2 - 1) <= v <= e / 2 + 1 && v >= 0,
        _ => v == e,
    }
}

/// The scratch field holds no negative entry and the values stay within
/// `0..=bound`.
pub open spec fn fields_ok(u: Seq<i32>, v: Seq<i32>, n: int, bound: int) -> bool {
    &&& u.len() == n
    &&& v.len() == n
    &&& forall|x: int| 0 <= x < n ==> 0 <= #[trigger] u[x]
    &&& forall|x: int| 0 <= x < n ==> 0 <= #[trigger] v[x] <= bound
}

/// Runs one `spread_step` on the fields.
fn value_spread(g: &Grid, u: &mut Vec<i32>, v: &mut Vec<i32>, l: Loc, val: i32, Ghost(bound): Ghost<int>)
    requires
        g.wf(),
        0 < val <= 32,
        0 <= bound <= 1_000_000,
        fields_ok(old(u)@, old(v)@, g.tiles@.len() as int, bound),
    ensures
        (final(u)@, final(v)@) == spread_step(*g, (old(u)@, old(v)@), l.i as int, l.j as int, val),
        fields_ok(final(u)@, final(v)@, g.tiles@.len() as int, bound + 32),
        forall|x: int| 0 <= x < g.tiles@.len() ==> old(v)@[x] <= #[trigger] final(v)@[x],
        forall|x: int| 0 <= x < g.tiles@.len() && !spec_is_inhabitable(g.tiles@[x].cl)
            ==> #[trigger] final(v)@[x] == old(v)@[x],
{
    let ghost u0 = u@;
    let ghost v0 = v@;
    spread_value(g, u, v, l, val, 1);
    let ghost u1 = u@;
    let ghost v1 = v@;
    even_value(g, u, l, 0);
    proof {
        let n = g.tiles@.len() as int;
        let h = g.height as int;
        let e = spread_step(*g, (u0, v0), l.i as int, l.j as int, val);
        assert(u1 == spread_u(*g, u0, l.i as int, l.j as int, val));
        assert forall|x: int| 0 <= x < n implies #[trigger] u@[x] == evened(*g, u1, l.i as int, l.j as int, 0)[x] by {
            assert(h > 0) by (nonlinear_arith)
                requires 0 <= x < n, n == g.width * h;
            lemma_idx_inv(g.width as int, h, x);
            let c = coord(*g, x);
            assert(g.in_map(c.0, c.1));
            assert(u@[spec_idx(h, c.0, c.1)] == if in_fill(*g, u1, 0, (l.i as int, l.j as int), false, (c.0, c.1)) {
                0i32
            } else {
                u1[spec_idx(h, c.0, c.1)]
            });
        }
        assert(u@ =~= e.0);
        crate::flags::lemma_spread_u_bounds(*g, u0, l.i as int, l.j as int, val);
        assert forall|x: int| 0 <= x < n implies #[trigger] v@[x] == e.1[x] && v0[x] <= v@[x]
            && (!spec_is_inhabitable(g.tiles@[x].cl) ==> v@[x] == v0[x]) by {
            assert(v@[x] == nonneg(v0[x] + (u1[x] - u0[x]) * 1));
            assert(u0[x] <= u1[x]);
        }
        assert(v@ =~= e.1);
        assert forall|x: int| 0 <= x < n implies 0 <= #[trigger] u@[x] by {
            assert(u@[x] == e.0[x]);
        }
    }
}

/// Runs the `tile_step` of tile `x` on the fields.
fn value_tile(g: &Grid, s: Strategy, u: &mut Vec<i32>, v: &mut Vec<i32>, x: usize, Ghost(bound): Ghost<int>)
    requires
        g.wf(),
        x < g.tiles@.len(),
        0 <= bound <= 500_000,
        fields_ok(old(u)@, old(v)@, g.tiles@.len() as int, bound),
    ensures
        (final(u)@, final(v)@) == tile_step(*g, s, (old(u)@, old(v)@), x as int),
        fields_ok(final(u)@, final(v)@, g.tiles@.len() as int, bound + 192),
        forall|y: int| 0 <= y < g.tiles@.len() ==> old(v)@[y] <= #[trigger] final(v)@[y],
        forall|y: int| 0 <= y < g.tiles@.len() && !spec_is_inhabitable(g.tiles@[y].cl)
            ==> #[trigger] final(v)@[y] == old(v)@[y],
{
    let h: usize = g.height;
    proof {
        assert(h > 0) by (nonlinear_arith)
            requires x < g.tiles@.len(), g.tiles@.len() == g.width * h;
        lemma_idx_inv(g.width as int, h as int, x as int);
    }
    let i: i16 = (x / h) as i16;
    let j: i16 = (x % h) as i16;
    let l = Loc::new(i, j);
    let cl = g.tiles[x].cl;
    match cl {
        TileClass::Castle => {
            let val: i32 = if s == Strategy::Noble { 32 } else { 16 };
            value_spread(g, u, v, l, val, Ghost(bound));
        },
        TileClass::Town => {
            value_spread(g, u, v, l, 8, Ghost(bound));
        },
        TileClass::Village => {
            let val: i32 = if s == Strategy::Noble { 2 } else { 4 };
            value_spread(g, u, v, l, val, Ghost(bound));
        },
        TileClass::Mine => {
            let val: i32 = if s == Strategy::Midas { 8 } else { 4 };
            let ghost st0 = (u@, v@);
            let mut k: usize = 0;
            while k < 6
                invariant
                    k <= 6,
                    g.wf(),
                    0 <= i < 40,
                    0 <= j < 29,
                    0 < val <= 32,
                    0 <= bound <= 500_000,
                    fields_ok(u@, v@, g.tiles@.len() as int, bound + 32 * k),
                    mine_steps(*g, (u@, v@), i as int, j as int, val, k as int)
                        == mine_steps(*g, st0, i as int, j as int, val, 0),
                    st0.1.len() == g.tiles@.len(),
                    forall|y: int| 0 <= y < g.tiles@.len() ==> st0.1[y] <= #[trigger] v@[y],
                    forall|y: int| 0 <= y < g.tiles@.len() && !spec_is_inhabitable(g.tiles@[y].cl)
                        ==> #[trigger] v@[y] == st0.1[y],
                decreases 6 - k,
            {
                let dd = dir(k);
                let n = Loc::new(i + dd.i, j + dd.j);
                value_spread(g, u, v, n, val, Ghost(bound + 32 * k));
                k += 1;
            }
        },
        _ => {},
    }
}

impl King {
    /// `evaluate_map`: recomputes the king's value map, `evaluated(g,
    /// strategy)`, then blurs it with noise on the easy levels (see
    /// `noisy`). On the other levels it draws nothing, every tile that can
    /// hold people is worth at least its `base_value` and every other tile
    /// nothing.
    pub fn evaluate_map(&mut self, g: &Grid, difficulty: Difficulty, rng: &mut CowRng)
        requires
            g.wf(),
            old(self).fits(*g),
        ensures
            final(self).pl == old(self).pl,
            final(self).strategy == old(self).strategy,
            final(self).width == old(self).width,
            final(self).height == old(self).height,
            final(self).value@.len() == old(self).value@.len(),
            forall|x: int| 0 <= x < final(self).value@.len() ==> noisy(
                difficulty,
                evaluated(*g, old(self).strategy)[x] as int,
                #[trigger] final(self).value@[x] as int,
            ),
            difficulty != Difficulty::Easiest && difficulty != Difficulty::Easy ==> {
                &&& final(rng).generator() == old(rng).generator()
                &&& forall|x: int| 0 <= x < final(self).value@.len()
                    ==> base_value(*g, old(self).strategy, x) <= #[trigger] final(self).value@[x]
                &&& forall|x: int| 0 <= x < final(self).value@.len() && !spec_is_inhabitable(g.tiles@[x].cl)
                    ==> #[trigger] final(self).value@[x] == 0
            },
    {
        let n: usize = self.value.len();
        let s = self.strategy;
        proof { lemma_area(g.width as int, g.height as int); }
        let mut u = crate::flags::zero_vec(n);
        let mut v: Vec<i32> = Vec::new();
        let mut x: usize = 0;
        while x < n
            invariant
                x <= n,
                n == g.tiles@.len(),
                g.wf(),
                v@.len() == x,
                forall|y: int| 0 <= y < x ==> #[trigger] v@[y] == base_value(*g, s, y),
            decreases n - x,
        {
            let b: i32 = if g.tiles[x].cl.is_inhabitable() {
                if s == Strategy::PersistentGreedy { 2 } else { 1 }
            } else {
                0
            };
            v.push(b);
            x += 1;
        }
        let ghost st0 = (u@, v@);
        proof {
            assert(v@ =~= Seq::new(n as nat, |y: int| base_value(*g, s, y)));
            assert(u@ =~= zeros(n as nat));
        }
        let mut q: usize = 0;
        while q < n
            invariant
                q <= n,
                n == g.tiles@.len(),
                n <= 1160,
                g.wf(),
                fields_ok(u@, v@, n as int, 2 + 192 * q),
                (u@, v@) == value_fold(*g, s, st0, q as int),
                forall|y: int| 0 <= y < n ==> base_value(*g, s, y) <= #[trigger] v@[y],
                forall|y: int| 0 <= y < n && !spec_is_inhabitable(g.tiles@[y].cl) ==> #[trigger] v@[y] == 0,
            decreases n - q,
        {
            value_tile(g, s, &mut u, &mut v, q, Ghost(2 + 192 * q as int));
            q += 1;
        }
        let ghost e = v@;
        proof {
            assert(e == evaluated(*g, s));
        }
        let mut x: usize = 0;
        while x < n
            invariant
                x <= n,
                v@.len() == n,
                fields_ok(u@, e, n as int, 2 + 192 * n),
                n <= 1160,
                forall|y: int| x <= y < n ==> #[trigger] v@[y] == e[y],
                forall|y: int| 0 <= y < x ==> noisy(difficulty, e[y] as int, #[trigger] v@[y] as int),
                forall|y: int| 0 <= y < n ==> base_value(*g, s, y) <= #[trigger] e[y],
                forall|y: int| 0 <= y < n && !spec_is_inhabitable(g.tiles@[y].cl) ==> #[trigger] e[y] == 0,
                difficulty != Difficulty::Easiest && difficulty != Difficulty::Easy
                    ==> rng.generator() == old(rng).generator(),
            decreases n - x,
        {
            let cur: i32 = v[x];
            match difficulty {
                Difficulty::Easiest => {
                    let r = rng.gen_range(-3, 3);
                    let y: i32 = cur / 4 + r;
                    v.set(x, if y < 0 { 0 } else { y });
                },
                Difficulty::Easy => {
                    let r = rng.gen_range(-1, 1);
                    let y: i32 = cur / 2 + r;
                    v.set(x, if y < 0 { 0 } else { y });
                },
                _ => {},
            }
            x += 1;
        }
        self.value = v;
    }
}

/// `n * sqrt(a) > t`, for `t > 0`, in exact integers.
pub open spec fn sqrt_gt(n: int, a: int, t: int) -> bool {
    n > 0 && a > 0 && n * n * a > t * t
}

/// `(y / 2) * a^0.7 > t`, for `t > 0`, in exact integers.
pub open spec fn pow07_gt(y: int, a: int, t: int) -> bool {
    y > 0 && a > 0 && pw(y, 10) * pw(a, 7) > pw(2 * t, 10)
}

/// `(y / 2) * a^0.7 < t`, for `t > 0`, in exact integers.
pub open spec fn pow07_lt(y: int, a: int, t: int) -> bool {
    !(y > 0 && a > 0) || pw(y, 10) * pw(a, 7) < pw(2 * t, 10)
}

/// Army and enemy of king `k` on tile `x`.
pub open spec fn tile_ae(k: King, g: Grid, x: int) -> (int, int) {
    spec_army_enemy(g.tiles@[x], k.pl.0 as int)
}

/// Aggressive greedy: flag a tile when `value * (2 enemy - army) *
/// sqrt(army) > 5000`.
pub open spec fn aggr_cond(k: King, g: Grid, x: int) -> bool {
    let ae = tile_ae(k, g, x);
    sqrt_gt(k.value@[x] * (2 * ae.1 - ae.0), ae.0, 5000)
}

/// One greedy: the weight `value * (5 enemy - army)` of tile `x`.
pub open spec fn og_weight(k: King, g: Grid, x: int) -> int {
    let ae = tile_ae(k, g, x);
    k.value@[x] * (5 * ae.1 - ae.0)
}

/// One greedy: tile `x` is a candidate when `weight * sqrt(army) > 5000`.
pub open spec fn og_cond(k: King, g: Grid, x: int) -> bool {
    sqrt_gt(og_weight(k, g, x), tile_ae(k, g, x).0, 5000)
}

/// One greedy: the square of the score `weight * sqrt(army)`, which orders
/// the candidates as the score does.
pub open spec fn og_key(k: King, g: Grid, x: int) -> int {
    og_weight(k, g, x) * og_weight(k, g, x) * tile_ae(k, g, x).0
}

/// One greedy: the first candidate of best score among tiles `q..`, given
/// the best so far (-1 for none).
pub open spec fn og_best_from(k: King, g: Grid, q: int, best: int) -> int
    decreases g.tiles@.len() - q,
{
    if q < 0 || q >= g.tiles@.len() {
        best
    } else if og_cond(k, g, q) && (best < 0 || og_key(k, g, q) > og_key(k, g, best)) {
        og_best_from(k, g, q + 1, q)
    } else {
        og_best_from(k, g, q + 1, best)
    }
}

/// The best tile so far among `0..q` is `best` (or none qualifies, for
/// `best < 0`).
pub open spec fn og_best_so_far(k: King, g: Grid, q: int, best: int) -> bool {
    &&& best < q
    &&& best < 0 ==> forall|y: int| 0 <= y < q ==> !#[trigger] og_cond(k, g, y)
    &&& best >= 0 ==> {
        &&& og_cond(k, g, best)
        &&& forall|y: int| 0 <= y < q && #[trigger] og_cond(k, g, y) ==> og_key(k, g, y) <= og_key(k, g, best)
        &&& forall|y: int| 0 <= y < best && #[trigger] og_cond(k, g, y) ==> og_key(k, g, y) < og_key(k, g, best)
    }
}

proof fn lemma_og_best_from(k: King, g: Grid, q: int, best: int)
    requires
        0 <= q <= g.tiles@.len(),
        og_best_so_far(k, g, q, best),
    ensures
        og_best_so_far(k, g, g.tiles@.len() as int, og_best_from(k, g, q, best)),
    decreases g.tiles@.len() - q,
{
    if q < g.tiles@.len() {
        if og_cond(k, g, q) && (best < 0 || og_key(k, g, q) > og_key(k, g, best)) {
            assert(og_best_so_far(k, g, q + 1, q));
            lemma_og_best_from(k, g, q + 1, q);
        } else {
            assert(og_best_so_far(k, g, q + 1, best));
            lemma_og_best_from(k, g, q + 1, best);
        }
    }
}

/// One greedy: the square of tile `x`'s score `value * (5 enemy - army)
/// * sqrt(army)`, from the weight and the army.
pub open spec fn og_score_sq(k: King, g: Grid, x: int) -> int {
    og_weight(k, g, x) * og_weight(k, g, x) * tile_ae(k, g, x).0
}

/// One greedy: tile `x` qualifies, its score positive and above 5000.
pub open spec fn og_qualifies(k: King, g: Grid, x: int) -> bool {
    og_weight(k, g, x) > 0 && tile_ae(k, g, x).0 > 0 && og_score_sq(k, g, x) > 5000 * 5000
}

/// The one greedy king's pick: a tile that qualifies, with a score at
/// least that of every qualifying tile and above that of every qualifying
/// tile before it; no pick only when no tile qualifies. (Scores are
/// compared squared, which orders them alike since they are positive.)
pub proof fn law_one_greedy_picks_the_best(k: King, g: Grid)
    ensures
        og_best_from(k, g, 0, -1) < 0 ==> forall|y: int| 0 <= y < g.tiles@.len() ==> !#[trigger] og_qualifies(k, g, y),
        og_best_from(k, g, 0, -1) >= 0 ==> {
            let b = og_best_from(k, g, 0, -1);
            &&& b < g.tiles@.len()
            &&& og_qualifies(k, g, b)
            &&& forall|y: int| 0 <= y < g.tiles@.len() && #[trigger] og_qualifies(k, g, y)
                ==> og_score_sq(k, g, y) <= og_score_sq(k, g, b)
            &&& forall|y: int| 0 <= y < b && #[trigger] og_qualifies(k, g, y)
                ==> og_score_sq(k, g, y) < og_score_sq(k, g, b)
        },
{
    assert(og_best_so_far(k, g, 0, -1));
    lemma_og_best_from(k, g, 0, -1);
    assert forall|y: int| #![trigger og_qualifies(k, g, y)] og_cond(k, g, y) == og_qualifies(k, g, y)
        && og_key(k, g, y) == og_score_sq(k, g, y) by {
    }
}

/// Opportunist and noble: the weight `value * (MAX_POP - (enemy - army))`.
pub open spec fn opp_weight(k: King, g: Grid, x: int) -> int {
    let ae = tile_ae(k, g, x);
    k.value@[x] * (MAX_POP - (ae.1 - ae.0))
}

/// Opportunist and noble: the enemy outnumbers the army and
/// `weight * sqrt(army) > 7000`.
pub open spec fn opp_cond(k: King, g: Grid, x: int) -> bool {
    let ae = tile_ae(k, g, x);
    ae.1 > ae.0 && sqrt_gt(opp_weight(k, g, x), ae.0, 7000)
}

/// Persistent greedy: the doubled weights of its two scores, `value * (5
/// enemy - 2 army)` and `value * (MAX_POP - (enemy - army))`; each score is
/// half the weight times `army^0.7`.
pub open spec fn pg_weights(k: King, g: Grid, x: int) -> (int, int) {
    let ae = tile_ae(k, g, x);
    (k.value@[x] * (5 * ae.1 - 2 * ae.0), k.value@[x] * (MAX_POP - (ae.1 - ae.0)))
}

/// Persistent greedy: the better score exceeds 9000 (the second counts
/// only where the enemy outnumbers the army).
pub open spec fn pg_high(k: King, g: Grid, x: int) -> bool {
    let ae = tile_ae(k, g, x);
    let w = pg_weights(k, g, x);
    pow07_gt(w.0, ae.0, 9000) || (ae.1 > ae.0 && pow07_gt(w.1, ae.0, 9000))
}

/// Persistent greedy: the better score is below 1000.
pub open spec fn pg_low(k: King, g: Grid, x: int) -> bool {
    let ae = tile_ae(k, g, x);
    let w = pg_weights(k, g, x);
    pow07_lt(w.0, ae.0, 1000) && (ae.1 <= ae.0 || pow07_lt(w.1, ae.0, 1000))
}

/// Removes (when `remove`) and then adds (when `add`) a flag of power
/// `FLAG_POWER` at the tile stored at `x`.
pub open spec fn flag_at_op(g: Grid, f: FlagGridView, x: int, remove: bool, add: bool) -> FlagGridView {
    let l = loc_of(f.height, x);
    let f1 = if remove { spec_remove_flag(g, f, l.i as int, l.j as int, FLAG_POWER) } else { f };
    if add { spec_add_flag(g, f1, l.i as int, l.j as int, FLAG_POWER) } else { f1 }
}

/// What the sweep of king `k` does at tile `x`: the aggressive greedy and
/// the opportunist clear the flag and flag the tile again if it qualifies;
/// the one greedy and the noble clear it; the persistent greedy clears a
/// flag whose score fell below 1000 and flags an unflagged tile whose score
/// exceeds 9000; the others leave the overlay alone.
pub open spec fn sweep_step(k: King, g: Grid, f: FlagGridView, x: int) -> FlagGridView {
    if k.strategy == Strategy::AggrGreedy {
        flag_at_op(g, f, x, true, aggr_cond(k, g, x))
    } else if k.strategy == Strategy::Opportunist {
        flag_at_op(g, f, x, true, opp_cond(k, g, x))
    } else if k.strategy == Strategy::OneGreedy || k.strategy == Strategy::Noble {
        flag_at_op(g, f, x, true, false)
    } else if k.strategy == Strategy::PersistentGreedy {
        if f.flag[x] {
            flag_at_op(g, f, x, pg_low(k, g, x), false)
        } else {
            flag_at_op(g, f, x, false, pg_high(k, g, x))
        }
    } else {
        f
    }
}

/// The sweep over tiles `0..q`, in storage order.
pub open spec fn sweep(k: King, g: Grid, f: FlagGridView, q: int) -> FlagGridView
    decreases q,
{
    if q <= 0 {
        f
    } else {
        sweep_step(k, g, sweep(k, g, f, q - 1), q - 1)
    }
}

/// Every call value lies within `-bound..=bound`.
pub open spec fn call_below(f: FlagGridView, bound: int) -> bool {
    forall|x: int| 0 <= x < f.call.len() ==> -bound <= #[trigger] f.call[x] <= bound
}

/// A flag operation keeps the overlay matched to the map and moves no
/// call value by more than `FLAG_POWER`.
proof fn lemma_flag_op_bound(g: Grid, f: FlagGridView, x: int, remove: bool, add: bool, bound: int)
    requires
        g.wf(),
        fits(g, f),
        call_below(f, bound),
        0 <= bound,
        bound + FLAG_POWER <= i32::MAX,
    ensures
        fits(g, flag_at_op(g, f, x, remove, add)),
        call_below(flag_at_op(g, f, x, remove, add), bound + FLAG_POWER),
{
    let l = loc_of(f.height, x);
    let i = l.i as int;
    let j = l.j as int;
    lemma_flag_ops_fit(g, f, i, j, FLAG_POWER);
    lemma_flag_credit_bounds(g, i, j, FLAG_POWER);
    let f1 = if remove { spec_remove_flag(g, f, i, j, FLAG_POWER) } else { f };
    lemma_flag_ops_fit(g, f1, i, j, FLAG_POWER);
    assert forall|y: int| 0 <= y < f1.call.len() implies -bound - FLAG_POWER <= #[trigger] f1.call[y] <= bound by {
        assert(-bound <= f.call[y] <= bound);
    }
    if add && can_add(g, f1, i, j) {
        let f2 = spec_add_flag(g, f1, i, j, FLAG_POWER);
        assert forall|y: int| 0 <= y < f2.call.len() implies -bound - FLAG_POWER <= #[trigger] f2.call[y] <= bound + FLAG_POWER by {
            assert(-bound - FLAG_POWER <= f1.call[y] <= bound);
        }
    }
}

/// A value times a small factor stays within 48 bits.
proof fn lemma_weight_bound(val: int, c: int)
    requires
        -0x8000_0000 <= val <= 0x8000_0000,
        -20000 <= c <= 20000,
    ensures
        -0x8000_0000_0000 <= val * c <= 0x8000_0000_0000,
{
    assert(-0x8000_0000 * 20000 <= val * c <= 0x8000_0000 * 20000) by (nonlinear_arith)
        requires -0x8000_0000 <= val <= 0x8000_0000, -20000 <= c <= 20000;
}

/// `n * sqrt(a) > t` in exact integers.
fn sqrt_scaled_gt(n: i64, a: i32, t: i64) -> (r: bool)
    requires
        -0x8000_0000_0000 <= n <= 0x8000_0000_0000,
        0 <= a <= MAX_POP,
        0 < t <= 10000,
    ensures
        r == sqrt_gt(n as int, a as int, t as int),
{
    if n <= 0 || a <= 0 {
        return false;
    }
    let nn: i128 = n as i128;
    proof {
        assert(0 <= nn * nn <= 0x4000_0000_0000_0000_0000_0000) by (nonlinear_arith)
            requires 0 < nn <= 0x8000_0000_0000;
        assert(0 <= nn * nn * a <= 0x4000_0000_0000_0000_0000_0000 * 499) by (nonlinear_arith)
            requires 0 <= nn * nn <= 0x4000_0000_0000_0000_0000_0000, 0 < a <= 499;
        assert(0 < t * t <= 100_000_000) by (nonlinear_arith)
            requires 0 < t <= 10000;
    }
    nn * nn * (a as i128) > (t as i128) * (t as i128)
}

/// `(y / 2) * a^0.7 > t` in exact integers.
fn pow07_scaled_gt(y: i64, a: i32, t: u32) -> (r: bool)
    requires
        0 <= a <= MAX_POP,
        0 < t <= 9000,
    ensures
        r == pow07_gt(y as int, a as int, t as int),
{
    if y <= 0 || a <= 0 {
        return false;
    }
    if y > 2 * t as i64 {
        proof {
            lemma_pw_mono(2 * t as int, y as int, 10);
            lemma_pw_pos(2 * t as int, 10);
            lemma_pw_exp_mono(a as int, 0, 7);
            lemma_pw_pos(2 * t as int + 1, 10);
            lemma_pw_mono(2 * t as int + 1, y as int, 10);
            lemma_pw_strict(2 * t as int, 2 * t as int + 1, 10);
            assert(pw(y as int, 10) * pw(a as int, 7) >= pw(y as int, 10)) by (nonlinear_arith)
                requires pw(a as int, 7) >= 1, pw(y as int, 10) >= 0;
        }
        return true;
    }
    let lhs = pow10_7(y as u32, a as u32);
    let rhs = pow10_7(2 * t, 1);
    proof {
        assert(pw(1, 7) == 1) by { lemma_pw_one(7); }
    }
    wide_less(&rhs, &lhs)
}

/// `(y / 2) * a^0.7 < t` in exact integers.
fn pow07_scaled_lt(y: i64, a: i32, t: u32) -> (r: bool)
    requires
        0 <= a <= MAX_POP,
        0 < t <= 9000,
    ensures
        r == pow07_lt(y as int, a as int, t as int),
{
    if y <= 0 || a <= 0 {
        return true;
    }
    if y >= 2 * t as i64 {
        proof {
            lemma_pw_mono(2 * t as int, y as int, 10);
            lemma_pw_pos(2 * t as int, 10);
            lemma_pw_exp_mono(a as int, 0, 7);
            assert(pw(y as int, 10) * pw(a as int, 7) >= pw(y as int, 10)) by (nonlinear_arith)
                requires pw(a as int, 7) >= 1, pw(y as int, 10) >= 0;
        }
        return false;
    }
    let lhs = pow10_7(y as u32, a as u32);
    let rhs = pow10_7(2 * t, 1);
    proof {
        assert(pw(1, 7) == 1) by { lemma_pw_one(7); }
    }
    wide_less(&lhs, &rhs)
}

/// The integer square root of `x`: the largest `r` with `r * r <= x`.
fn isqrt(x: u128) -> (r: u64)
    requires
        x < 0x1_0000_0000_0000_0000_0000_0000,
    ensures
        r * r <= x < (r + 1) * (r + 1),
{
    let mut lo: u64 = 0;
    let mut hi: u64 = 0x1_0000_0000_0000;
    assert(x < hi * hi) by (nonlinear_arith)
        requires x < 0x1_0000_0000_0000_0000_0000_0000, hi == 0x1_0000_0000_0000;
    while hi - lo > 1
        invariant
            lo < hi <= 0x1_0000_0000_0000,
            lo * lo <= x < hi * hi,
        decreases hi - lo,
    {
        let mid: u64 = lo + (hi - lo) / 2;
        assert(mid * mid <= 0x1_0000_0000_0000_0000_0000_0000) by (nonlinear_arith)
            requires mid <= 0x1_0000_0000_0000;
        let sq: u128 = (mid as u128) * (mid as u128);
        if sq <= x {
            lo = mid;
        } else {
            hi = mid;
        }
    }
    lo
}

/// The first index in `i..max` whose value is below `v`; `max` if none.
pub open spec fn first_below(vals: Seq<i32>, v: int, i: int, max: int) -> int
    decreases max - i,
{
    if i >= max {
        max
    } else if vals[i] >= v {
        first_below(vals, v, i + 1, max)
    } else {
        i
    }
}

/// `s` with `x` inserted at `i`, the entries from `i` on moved one place up
/// within the first `max`, the one at `max - 1` dropped.
pub open spec fn inserted<T>(s: Seq<T>, i: int, max: int, x: T) -> Seq<T> {
    s.take(i).push(x) + s.subrange(i, max - 1) + s.skip(max)
}

/// The first `max` entries of `s` do not increase.
pub open spec fn sorted_desc(s: Seq<i32>, max: int) -> bool {
    forall|a: int, b: int| 0 <= a < b < max ==> #[trigger] s[a] >= #[trigger] s[b]
}

/// Number of entries `insert_locval` works on.
pub open spec fn locval_max(nl: int, nv: int, len: int) -> int {
    if nl <= nv && nl <= len { nl } else if nv <= len { nv } else { len }
}

proof fn lemma_first_below(vals: Seq<i32>, v: int, i: int, max: int)
    requires
        0 <= i <= max <= vals.len(),
    ensures
        i <= first_below(vals, v, i, max) <= max,
        forall|k: int| i <= k < first_below(vals, v, i, max) ==> #[trigger] vals[k] >= v,
        first_below(vals, v, i, max) < max ==> vals[first_below(vals, v, i, max)] < v,
    decreases max - i,
{
    if i < max && vals[i] >= v {
        lemma_first_below(vals, v, i + 1, max);
    }
}

/// `insert_locval`: inserts `(l, v)` into the table `(locs, vals)`, kept in
/// non-increasing order of value over its first `len` entries, before the
/// first entry of lower value, pushing the later ones down one place and
/// dropping the last; when no entry is lower, the table stays. A table in
/// order stays in order.
pub fn insert_locval(locs: &mut Vec<Loc>, vals: &mut Vec<i32>, len: usize, l: Loc, v: i32)
    ensures
        ({
            let max = locval_max(old(locs)@.len() as int, old(vals)@.len() as int, len as int);
            let i = first_below(old(vals)@, v as int, 0, max);
            &&& i >= max ==> final(locs)@ == old(locs)@ && final(vals)@ == old(vals)@
            &&& i < max ==> final(locs)@ == inserted(old(locs)@, i, max, l)
                && final(vals)@ == inserted(old(vals)@, i, max, v)
            &&& sorted_desc(old(vals)@, max) ==> sorted_desc(final(vals)@, max)
        }),
        final(locs)@.len() == old(locs)@.len(),
        final(vals)@.len() == old(vals)@.len(),
{
    let nl = locs.len();
    let nv = vals.len();
    let max: usize = if nl <= nv && nl <= len { nl } else if nv <= len { nv } else { len };
    let ghost l0 = locs@;
    let ghost v0 = vals@;
    proof { lemma_first_below(v0, v as int, 0, max as int); }
    let mut i: usize = 0;
    while i < max && vals[i] >= v
        invariant
            i <= max,
            max <= vals@.len(),
            max <= locs@.len(),
            vals@ == v0,
            first_below(v0, v as int, i as int, max as int) == first_below(v0, v as int, 0, max as int),
        decreases max - i,
    {
        i += 1;
    }
    if i >= max {
        return;
    }
    let mut j: usize = max - 1;
    while j > i
        invariant
            i <= j < max,
            max <= l0.len(),
            max <= v0.len(),
            locs@.len() == l0.len(),
            vals@.len() == v0.len(),
            forall|k: int| 0 <= k <= j || max <= k < l0.len() ==> #[trigger] locs@[k] == l0[k],
            forall|k: int| 0 <= k <= j || max <= k < v0.len() ==> #[trigger] vals@[k] == v0[k],
            forall|k: int| j < k < max ==> #[trigger] locs@[k] == l0[k - 1],
            forall|k: int| j < k < max ==> #[trigger] vals@[k] == v0[k - 1],
        decreases j,
    {
        let pl = locs[j - 1];
        let pv = vals[j - 1];
        locs.set(j, pl);
        vals.set(j, pv);
        j -= 1;
    }
    locs.set(i, l);
    vals.set(i, v);
    proof {
        let e = inserted(l0, i as int, max as int, l);
        assert(locs@ =~= e);
        let f = inserted(v0, i as int, max as int, v);
        assert(vals@ =~= f);
        if sorted_desc(v0, max as int) {
            assert forall|a: int, b: int| 0 <= a < b < max implies #[trigger] vals@[a] >= #[trigger] vals@[b] by {
                if b > i {
                    assert(v0[b - 1] <= v0[i as int]);
                    if a > i {
                        assert(v0[a - 1] >= v0[b - 1]);
                    }
                }
            }
        }
    }
}

/// `r` is the integer square root of `x`.
pub open spec fn is_isqrt(x: int, r: int) -> bool {
    0 <= r && r * r <= x < (r + 1) * (r + 1)
}

/// The largest `r >= 0` with `r * r <= x`.
pub open spec fn floor_sqrt(x: int) -> int {
    choose|r: int| #[trigger] is_isqrt(x, r)
}

proof fn lemma_floor_sqrt(x: int, r: int)
    requires
        0 <= r,
        r * r <= x < (r + 1) * (r + 1),
    ensures
        floor_sqrt(x) == r,
{
    assert(is_isqrt(x, r));
    let q = floor_sqrt(x);
    assert(is_isqrt(x, q));
    if q < r {
        assert((q + 1) * (q + 1) <= r * r) by (nonlinear_arith)
            requires 0 <= q < r;
    } else if q > r {
        assert((r + 1) * (r + 1) <= q * q) by (nonlinear_arith)
            requires 0 <= r < q;
    }
}

/// The noble's priority of tile `x`: its score `weight * sqrt(army)`,
/// rounded down and capped at `i32::MAX`.
pub open spec fn noble_value(k: King, g: Grid, x: int) -> i32 {
    let w = opp_weight(k, g, x);
    let r = floor_sqrt(w * w * tile_ae(k, g, x).0);
    if r > i32::MAX { i32::MAX } else { r as i32 }
}

/// An empty slot of the noble's priority table.
pub open spec fn no_loc() -> Loc {
    Loc { i: -1i16, j: -1i16 }
}

/// The noble's priority table after tiles `0..q`: 32 slots of which the
/// first 5 are used, each qualifying tile (see `opp_cond`) inserted by
/// `insert_locval`.
pub open spec fn noble_table(k: King, g: Grid, q: int) -> (Seq<Loc>, Seq<i32>)
    decreases q,
{
    if q <= 0 {
        (Seq::new(32, |y: int| no_loc()), Seq::new(32, |y: int| -1i32))
    } else {
        let t = noble_table(k, g, q - 1);
        let x = q - 1;
        if opp_cond(k, g, x) {
            let v = noble_value(k, g, x);
            let i = first_below(t.1, v as int, 0, 5);
            if i >= 5 {
                t
            } else {
                (inserted(t.0, i, 5, loc_of(g.height as int, x)), inserted(t.1, i, 5, v))
            }
        } else {
            t
        }
    }
}

/// Flags placed from the table, slots `j..5`: one at each slot holding a
/// positive value and a location.
pub open spec fn noble_adds(g: Grid, f: FlagGridView, t: (Seq<Loc>, Seq<i32>), j: int) -> FlagGridView
    decreases 5 - j,
{
    if j < 0 || j >= 5 {
        f
    } else {
        let l = t.0[j];
        let f1 = if t.1[j] > 0 && l.i >= 0 && l.j >= 0 {
            spec_add_flag(g, f, l.i as int, l.j as int, FLAG_POWER)
        } else {
            f
        };
        noble_adds(g, f1, t, j + 1)
    }
}

/// The overlay after `place_flags`: the sweep of the king's strategy, then
/// for the one greedy a flag on its best candidate and for the noble the
/// flags of its table.
pub open spec fn placed(k: King, g: Grid, f: FlagGridView) -> FlagGridView {
    let s = sweep(k, g, f, g.tiles@.len() as int);
    if k.strategy == Strategy::OneGreedy {
        let b = og_best_from(k, g, 0, -1);
        if b >= 0 { flag_at_op(g, s, b, false, true) } else { s }
    } else if k.strategy == Strategy::Noble {
        noble_adds(g, s, noble_table(k, g, g.tiles@.len() as int), 0)
    } else {
        s
    }
}

/// The sweep of the one greedy and the noble clears the flags of the
/// tiles it has visited.
proof fn lemma_sweep_clears(k: King, g: Grid, f: FlagGridView, q: int)
    requires
        k.strategy == Strategy::OneGreedy || k.strategy == Strategy::Noble,
        g.wf(),
        fits(g, f),
        crate::flags::flags_on_land(g, f),
        0 <= q <= f.flag.len(),
    ensures
        sweep(k, g, f, q).height == f.height,
        sweep(k, g, f, q).width == f.width,
        sweep(k, g, f, q).flag.len() == f.flag.len(),
        forall|z: int| 0 <= z < f.flag.len() ==> #[trigger] sweep(k, g, f, q).flag[z] == (f.flag[z] && z >= q),
    decreases q,
{
    if q > 0 {
        lemma_sweep_clears(k, g, f, q - 1);
        let prev = sweep(k, g, f, q - 1);
        let l = loc_of(f.height, q - 1);
        lemma_area(g.width as int, g.height as int);
        if g.height == 0 {
            assert(g.width * 0 == 0);
        }
        lemma_idx_inv(g.width as int, g.height as int, q - 1);
        assert(l.i == (q - 1) / f.height && l.j == (q - 1) % f.height);
        if f.flag[q - 1] {
            assert(spec_is_inhabitable(g.tiles@[q - 1].cl));
            assert(crate::flags::can_remove(g, prev, l.i as int, l.j as int));
        }
    }
}

/// The one greedy king keeps a single flag: after its turn the overlay
/// holds a flag exactly on its pick (see `law_one_greedy_picks_the_best`),
/// when that tile can hold people, and nowhere else.
pub proof fn law_one_greedy_flags_only_its_pick(k: King, g: Grid, f: FlagGridView)
    requires
        k.strategy == Strategy::OneGreedy,
        g.wf(),
        crate::flags::flags_ok(g, f),
    ensures
        placed(k, g, f).flag.len() == f.flag.len(),
        forall|z: int| 0 <= z < f.flag.len() ==> #[trigger] placed(k, g, f).flag[z]
            == (z == og_best_from(k, g, 0, -1) && spec_is_inhabitable(g.tiles@[z].cl)),
{
    let n = g.tiles@.len() as int;
    lemma_sweep_clears(k, g, f, n);
    let s = sweep(k, g, f, n);
    let b = og_best_from(k, g, 0, -1);
    assert(og_best_so_far(k, g, 0, -1));
    lemma_og_best_from(k, g, 0, -1);
    if b >= 0 {
        let l = loc_of(f.height, b);
        lemma_area(g.width as int, g.height as int);
        if g.height == 0 {
            assert(g.width * 0 == 0);
        }
        lemma_idx_inv(g.width as int, g.height as int, b);
        assert(l.i == b / f.height && l.j == b % f.height);
        assert(!s.flag[b]);
        assert forall|z: int| 0 <= z < f.flag.len() implies #[trigger] placed(k, g, f).flag[z]
            == (z == b && spec_is_inhabitable(g.tiles@[z].cl)) by {
            if z == b {
            }
        }
    }
}

/// Whether the sweep of king `k` leaves a flag on tile `z`, from the
/// overlay `f` it started with.
pub open spec fn swept_flag(k: King, g: Grid, f: FlagGridView, z: int) -> bool {
    let land = spec_is_inhabitable(g.tiles@[z].cl);
    if k.strategy == Strategy::AggrGreedy {
        land && aggr_cond(k, g, z)
    } else if k.strategy == Strategy::Opportunist {
        land && opp_cond(k, g, z)
    } else if k.strategy == Strategy::OneGreedy || k.strategy == Strategy::Noble {
        false
    } else if k.strategy == Strategy::PersistentGreedy {
        if f.flag[z] { !pg_low(k, g, z) } else { land && pg_high(k, g, z) }
    } else {
        f.flag[z]
    }
}

/// The sweep over tiles `0..q` decides the flags of those tiles as
/// `swept_flag` says and leaves the others.
proof fn lemma_sweep_flags(k: King, g: Grid, f: FlagGridView, q: int)
    requires
        g.wf(),
        fits(g, f),
        crate::flags::flags_on_land(g, f),
        0 <= q <= f.flag.len(),
    ensures
        sweep(k, g, f, q).height == f.height,
        sweep(k, g, f, q).width == f.width,
        sweep(k, g, f, q).flag.len() == f.flag.len(),
        forall|z: int| 0 <= z < f.flag.len() ==> #[trigger] sweep(k, g, f, q).flag[z]
            == if z < q { swept_flag(k, g, f, z) } else { f.flag[z] },
    decreases q,
{
    if q > 0 {
        lemma_sweep_flags(k, g, f, q - 1);
        let prev = sweep(k, g, f, q - 1);
        let l = loc_of(f.height, q - 1);
        lemma_area(g.width as int, g.height as int);
        if g.height == 0 {
            assert(g.width * 0 == 0);
        }
        lemma_idx_inv(g.width as int, g.height as int, q - 1);
        assert(l.i == (q - 1) / f.height && l.j == (q - 1) % f.height);
        assert(prev.flag[q - 1] == f.flag[q - 1]);
        if f.flag[q - 1] {
            assert(spec_is_inhabitable(g.tiles@[q - 1].cl));
        }
    }
}

/// The sweeping kings' turn: the aggressive greedy flags exactly the tiles
/// that can hold people where `value * (2 enemy - army) * sqrt(army) >
/// 5000`; the opportunist those where the enemy outnumbers the army and
/// `value * (MAX_POP - (enemy - army)) * sqrt(army) > 7000`; the
/// persistent greedy keeps a flag unless both its scores fall below 1000
/// and places one where one of them exceeds 9000 (scores `weight / 2 *
/// army^0.7`, the second counting only where the enemy outnumbers the
/// army); an idle king or Midas changes nothing. (Square roots and powers
/// are compared raised to an integer power.)
pub proof fn law_sweeping_kings_flag_by_score(k: King, g: Grid, f: FlagGridView, z: int)
    requires
        g.wf(),
        crate::flags::flags_ok(g, f),
        0 <= z < f.flag.len(),
        k.strategy != Strategy::OneGreedy,
        k.strategy != Strategy::Noble,
    ensures
        ({
            let land = spec_is_inhabitable(g.tiles@[z].cl);
            let a = tile_ae(k, g, z).0;
            let e = tile_ae(k, g, z).1;
            let v = k.value@[z] as int;
            let flag = placed(k, g, f).flag[z];
            &&& k.strategy == Strategy::AggrGreedy ==> flag == (land && v * (2 * e - a) > 0 && a > 0
                && v * (2 * e - a) * (v * (2 * e - a)) * a > 5000 * 5000)
            &&& k.strategy == Strategy::Opportunist ==> flag == (land && e > a && v * (MAX_POP - (e - a)) > 0
                && a > 0 && v * (MAX_POP - (e - a)) * (v * (MAX_POP - (e - a))) * a > 7000 * 7000)
            &&& k.strategy == Strategy::PersistentGreedy && f.flag[z] ==> flag == !(
                (!(v * (5 * e - 2 * a) > 0 && a > 0) || pw(v * (5 * e - 2 * a), 10) * pw(a, 7) < pw(2000, 10))
                && (e <= a || !(v * (MAX_POP - (e - a)) > 0 && a > 0)
                    || pw(v * (MAX_POP - (e - a)), 10) * pw(a, 7) < pw(2000, 10)))
            &&& k.strategy == Strategy::PersistentGreedy && !f.flag[z] ==> flag == (land && (
                (v * (5 * e - 2 * a) > 0 && a > 0 && pw(v * (5 * e - 2 * a), 10) * pw(a, 7) > pw(18000, 10))
                || (e > a && v * (MAX_POP - (e - a)) > 0 && a > 0
                    && pw(v * (MAX_POP - (e - a)), 10) * pw(a, 7) > pw(18000, 10))))
            &&& (k.strategy == Strategy::Idle || k.strategy == Strategy::Midas) ==> flag == f.flag[z]
        }),
{
    let n = g.tiles@.len() as int;
    lemma_sweep_flags(k, g, f, n);
}

/// A slot of the noble's table that names a tile of the map that
/// qualifies (see `opp_cond`).
pub open spec fn noble_slot_ok(k: King, g: Grid, l: Loc) -> bool {
    g.in_map(l.i as int, l.j as int) && opp_cond(k, g, spec_idx(g.height as int, l.i as int, l.j as int))
}

/// Every used slot of the noble's table names a qualifying tile.
proof fn lemma_noble_table_ok(k: King, g: Grid, q: int)
    requires
        g.wf(),
        0 <= q <= g.tiles@.len(),
    ensures
        noble_table(k, g, q).0.len() == 32,
        noble_table(k, g, q).1.len() == 32,
        forall|y: int| 0 <= y < 32 && #[trigger] noble_table(k, g, q).1[y] > 0 ==> noble_slot_ok(
            k,
            g,
            noble_table(k, g, q).0[y],
        ),
    decreases q,
{
    if q > 0 {
        lemma_noble_table_ok(k, g, q - 1);
        let t = noble_table(k, g, q - 1);
        let x = q - 1;
        if opp_cond(k, g, x) {
            let v = noble_value(k, g, x);
            lemma_first_below(t.1, v as int, 0, 5);
            let i = first_below(t.1, v as int, 0, 5);
            if i < 5 {
                lemma_area(g.width as int, g.height as int);
                if g.height == 0 {
                    assert(g.width * 0 == 0);
                }
                lemma_idx_inv(g.width as int, g.height as int, x);
                let l = loc_of(g.height as int, x);
                assert(l.i == x / g.height as int && l.j == x % g.height as int);
                assert(noble_slot_ok(k, g, l));
                let n0 = inserted(t.0, i, 5, l);
                let n1 = inserted(t.1, i, 5, v);
                assert forall|y: int| 0 <= y < 32 && #[trigger] n1[y] > 0 implies noble_slot_ok(k, g, n0[y]) by {
                    if y < i {
                        assert(n0[y] == t.0[y] && n1[y] == t.1[y]);
                    } else if y == i {
                    } else if y < 5 {
                        assert(n0[y] == t.0[y - 1] && n1[y] == t.1[y - 1]);
                    } else {
                        assert(n0[y] == t.0[y] && n1[y] == t.1[y]);
                    }
                }
            }
        }
    }
}

/// The flags of `f` all stand on tiles that can hold people and qualify
/// for the noble.
pub open spec fn noble_flags_ok(k: King, g: Grid, f: FlagGridView) -> bool {
    forall|z: int| 0 <= z < f.flag.len() && #[trigger] f.flag[z] ==> spec_is_inhabitable(g.tiles@[z].cl)
        && opp_cond(k, g, z)
}

proof fn lemma_noble_adds_qualify(k: King, g: Grid, f: FlagGridView, t: (Seq<Loc>, Seq<i32>), j: int)
    requires
        g.wf(),
        fits(g, f),
        noble_flags_ok(k, g, f),
        t.0.len() == 32,
        t.1.len() == 32,
        forall|y: int| 0 <= y < 32 && #[trigger] t.1[y] > 0 ==> noble_slot_ok(k, g, t.0[y]),
        0 <= j,
    ensures
        noble_flags_ok(k, g, noble_adds(g, f, t, j)),
        noble_adds(g, f, t, j).flag.len() == f.flag.len(),
    decreases 5 - j,
{
    if j < 5 {
        let l = t.0[j];
        let f1 = if t.1[j] > 0 && l.i >= 0 && l.j >= 0 {
            spec_add_flag(g, f, l.i as int, l.j as int, FLAG_POWER)
        } else {
            f
        };
        if t.1[j] > 0 && l.i >= 0 && l.j >= 0 && crate::flags::can_add(g, f, l.i as int, l.j as int) {
            lemma_idx(g.width as int, g.height as int, l.i as int, l.j as int);
            assert(noble_slot_ok(k, g, l));
            let zz = spec_idx(g.height as int, l.i as int, l.j as int);
            assert forall|z: int| 0 <= z < f1.flag.len() && #[trigger] f1.flag[z] implies spec_is_inhabitable(
                g.tiles@[z].cl) && opp_cond(k, g, z) by {
                if z != zz {
                    assert(f.flag[z]);
                }
            }
        }
        crate::flags::lemma_flag_ops_fit(g, f, l.i as int, l.j as int, FLAG_POWER);
        lemma_noble_adds_qualify(k, g, f1, t, j + 1);
    }
}

/// The noble's turn: it clears its flags and then flags only tiles that
/// can hold people where the enemy outnumbers its army and `value *
/// (MAX_POP - (enemy - army)) * sqrt(army) > 7000` (the root compared
/// squared).
pub proof fn law_noble_flags_only_qualifying_tiles(k: King, g: Grid, f: FlagGridView, z: int)
    requires
        k.strategy == Strategy::Noble,
        g.wf(),
        crate::flags::flags_ok(g, f),
        0 <= z < f.flag.len(),
        placed(k, g, f).flag[z],
    ensures
        ({
            let a = tile_ae(k, g, z).0;
            let e = tile_ae(k, g, z).1;
            let v = k.value@[z] as int;
            &&& spec_is_inhabitable(g.tiles@[z].cl)
            &&& e > a
            &&& a > 0
            &&& v * (MAX_POP - (e - a)) > 0
            &&& v * (MAX_POP - (e - a)) * (v * (MAX_POP - (e - a))) * a > 7000 * 7000
        }),
{
    let n = g.tiles@.len() as int;
    lemma_sweep_flags(k, g, f, n);
    let s = sweep(k, g, f, n);
    assert(noble_flags_ok(k, g, s));
    lemma_noble_table_ok(k, g, n);
    lemma_sweep_ok(k, g, f, n);
    lemma_noble_adds_qualify(k, g, s, noble_table(k, g, n), 0);
}

/// Headroom the call field needs for the flags one `place_flags` can add.
pub open spec fn call_room() -> int {
    i32::MAX - 10_000
}

impl King {
    /// The sweep of the king's strategy over every tile.
    fn sweep_flags(&self, g: &Grid, fg: &mut FlagGrid)
        requires
            g.wf(),
            self.fits(*g),
            fits(*g, old(fg)@),
            call_below(old(fg)@, call_room()),
        ensures
            final(fg)@ == sweep(*self, *g, old(fg)@, g.tiles@.len() as int),
            fits(*g, final(fg)@),
            call_below(final(fg)@, call_room() + FLAG_POWER * g.tiles@.len()),
    {
        let n: usize = self.value.len();
        let h: usize = g.height;
        let ghost f0 = fg@;
        proof { lemma_area(g.width as int, g.height as int); }
        let mut x: usize = 0;
        while x < n
            invariant
                x <= n,
                n == g.tiles@.len(),
                n <= 1160,
                h == g.height,
                g.wf(),
                self.fits(*g),
                fits(*g, fg@),
                call_below(fg@, call_room() + FLAG_POWER * x),
                fg@ == sweep(*self, *g, f0, x as int),
            decreases n - x,
        {
            proof {
                assert(h > 0) by (nonlinear_arith)
                    requires x < n, n == g.width * h;
                lemma_idx_inv(g.width as int, h as int, x as int);
                lemma_flag_op_bound(*g, fg@, x as int, true, true, call_room() + FLAG_POWER * x);
                lemma_flag_op_bound(*g, fg@, x as int, true, false, call_room() + FLAG_POWER * x);
                lemma_flag_op_bound(*g, fg@, x as int, false, true, call_room() + FLAG_POWER * x);
                lemma_flag_op_bound(*g, fg@, x as int, false, false, call_room() + FLAG_POWER * x);
                lemma_flag_ops_fit(*g, fg@, (x / h) as int, (x % h) as int, FLAG_POWER);
                lemma_flag_credit_bounds(*g, (x / h) as int, (x % h) as int, FLAG_POWER);
            }
            let l = Loc::new((x / h) as i16, (x % h) as i16);
            let ghost fx = fg@;
            assert(l == loc_of(fx.height, x as int));
            let (army, enemy) = army_enemy(g, x, self.pl);
            let val: i64 = self.value[x] as i64;
            proof {
                lemma_weight_bound(val as int, 2 * enemy - army);
                lemma_weight_bound(val as int, MAX_POP - (enemy - army));
                lemma_weight_bound(val as int, 5 * enemy - 2 * army);
            }
            match self.strategy {
                Strategy::AggrGreedy => {
                    if fg.flag[x] {
                        remove_flag(g, fg, l, FLAG_POWER);
                    }
                    let w: i64 = val * (2 * enemy - army) as i64;
                    if sqrt_scaled_gt(w, army, 5000) {
                        add_flag(g, fg, l, FLAG_POWER);
                    }
                },
                Strategy::Opportunist => {
                    if fg.flag[x] {
                        remove_flag(g, fg, l, FLAG_POWER);
                    }
                    let w: i64 = val * (MAX_POP - (enemy - army)) as i64;
                    if enemy > army && sqrt_scaled_gt(w, army, 7000) {
                        add_flag(g, fg, l, FLAG_POWER);
                    }
                },
                Strategy::OneGreedy | Strategy::Noble => {
                    if fg.flag[x] {
                        remove_flag(g, fg, l, FLAG_POWER);
                    }
                },
                Strategy::PersistentGreedy => {
                    let w1: i64 = val * (5 * enemy - 2 * army) as i64;
                    let w2: i64 = val * (MAX_POP - (enemy - army)) as i64;
                    if fg.flag[x] {
                        let low = pow07_scaled_lt(w1, army, 1000) && (enemy <= army || pow07_scaled_lt(w2, army, 1000));
                        if low {
                            remove_flag(g, fg, l, FLAG_POWER);
                        }
                    } else {
                        let high = pow07_scaled_gt(w1, army, 9000) || (enemy > army && pow07_scaled_gt(w2, army, 9000));
                        if high {
                            add_flag(g, fg, l, FLAG_POWER);
                        }
                    }
                },
                _ => {},
            }
            proof {
                assert(fg@ == sweep_step(*self, *g, fx, x as int));
                assert(call_room() + FLAG_POWER * x + FLAG_POWER == call_room() + FLAG_POWER * (x + 1));
            }
            x += 1;
        }
    }
}

impl King {
    /// The one greedy's best candidate, `og_best_from(self, g, 0, -1)`.
    fn og_pick(&self, g: &Grid) -> (r: i64)
        requires
            g.wf(),
            self.fits(*g),
        ensures
            r == og_best_from(*self, *g, 0, -1),
            -1 <= r < g.tiles@.len(),
    {
        let n: usize = self.value.len();
        proof { lemma_area(g.width as int, g.height as int); }
        let mut best: i64 = -1;
        let mut best_key: i128 = 0;
        let mut q: usize = 0;
        while q < n
            invariant
                q <= n,
                n == g.tiles@.len(),
                n <= 1160,
                g.wf(),
                self.fits(*g),
                -1 <= best < q,
                best >= 0 ==> best_key == og_key(*self, *g, best as int),
                og_best_from(*self, *g, q as int, best as int) == og_best_from(*self, *g, 0, -1),
            decreases n - q,
        {
            let (army, enemy) = army_enemy(g, q, self.pl);
            let val: i64 = self.value[q] as i64;
            proof { lemma_weight_bound(val as int, 5 * enemy - army); }
            let w: i64 = val * (5 * enemy - army) as i64;
            if sqrt_scaled_gt(w, army, 5000) {
                let ww: i128 = w as i128;
                proof {
                    assert(0 <= ww * ww <= 0x4000_0000_0000_0000_0000_0000) by (nonlinear_arith)
                        requires 0 < ww <= 0x8000_0000_0000;
                    assert(0 <= ww * ww * army <= 0x4000_0000_0000_0000_0000_0000 * 499) by (nonlinear_arith)
                        requires 0 <= ww * ww <= 0x4000_0000_0000_0000_0000_0000, 0 < army <= 499;
                }
                let key: i128 = ww * ww * (army as i128);
                if best < 0 || key > best_key {
                    best = q as i64;
                    best_key = key;
                }
            }
            q += 1;
        }
        best
    }

    /// The noble's priority table, `noble_table(self, g, n)`.
    fn noble_pick(&self, g: &Grid) -> (r: (Vec<Loc>, Vec<i32>))
        requires
            g.wf(),
            self.fits(*g),
        ensures
            (r.0@, r.1@) == noble_table(*self, *g, g.tiles@.len() as int),
            r.0@.len() == 32,
            r.1@.len() == 32,
    {
        let n: usize = self.value.len();
        let h: usize = g.height;
        proof { lemma_area(g.width as int, g.height as int); }
        let mut locs: Vec<Loc> = Vec::new();
        let mut vals: Vec<i32> = Vec::new();
        let mut k: usize = 0;
        while k < 32
            invariant
                k <= 32,
                locs@ == Seq::new(k as nat, |y: int| no_loc()),
                vals@ == Seq::new(k as nat, |y: int| -1i32),
            decreases 32 - k,
        {
            locs.push(Loc::new(-1, -1));
            vals.push(-1);
            k += 1;
            assert(locs@ =~= Seq::new(k as nat, |y: int| no_loc()));
            assert(vals@ =~= Seq::new(k as nat, |y: int| -1i32));
        }
        let mut q: usize = 0;
        while q < n
            invariant
                q <= n,
                n == g.tiles@.len(),
                n <= 1160,
                h == g.height,
                g.wf(),
                self.fits(*g),
                locs@.len() == 32,
                vals@.len() == 32,
                (locs@, vals@) == noble_table(*self, *g, q as int),
            decreases n - q,
        {
            proof {
                assert(h > 0) by (nonlinear_arith)
                    requires q < n, n == g.width * h;
                lemma_idx_inv(g.width as int, h as int, q as int);
            }
            let (army, enemy) = army_enemy(g, q, self.pl);
            let val: i64 = self.value[q] as i64;
            proof {
                lemma_weight_bound(val as int, MAX_POP - (enemy - army));
                assert(-0x800_0000_0000 <= val * (MAX_POP - (enemy - army)) <= 0x800_0000_0000) by (nonlinear_arith)
                    requires -0x8000_0000 <= val <= 0x8000_0000, -4000 <= MAX_POP - (enemy - army) <= 4000;
            }
            let w: i64 = val * (MAX_POP - (enemy - army)) as i64;
            if enemy > army && sqrt_scaled_gt(w, army, 7000) {
                let ww: i128 = w as i128;
                proof {
                    assert(0 <= ww * ww <= 0x40_0000_0000_0000_0000_0000) by (nonlinear_arith)
                        requires 0 < ww <= 0x800_0000_0000;
                    assert(0 <= ww * ww * army <= 0x40_0000_0000_0000_0000_0000 * 499) by (nonlinear_arith)
                        requires 0 <= ww * ww <= 0x40_0000_0000_0000_0000_0000, 0 < army <= 499;
                }
                let key: i128 = ww * ww * (army as i128);
                let r: u64 = isqrt(key as u128);
                proof { lemma_floor_sqrt(key as int, r as int); }
                let v: i32 = if r > 0x7fff_ffff { 0x7fff_ffff } else { r as i32 };
                let l = Loc::new((q / h) as i16, (q % h) as i16);
                insert_locval(&mut locs, &mut vals, 5, l, v);
            }
            q += 1;
        }
        (locs, vals)
    }

    /// `action_aggr_greedy`: clears every flag and flags each tile where
    /// `aggr_cond` holds.
    fn action_aggr_greedy(&self, g: &Grid, fg: &mut FlagGrid)
        requires
            g.wf(),
            self.fits(*g),
            self.strategy == Strategy::AggrGreedy,
            fits(*g, old(fg)@),
            call_below(old(fg)@, call_room()),
        ensures
            final(fg)@ == placed(*self, *g, old(fg)@),
            fits(*g, final(fg)@),
    {
        self.sweep_flags(g, fg);
    }

    /// `action_one_greedy`: clears every flag, then flags the first tile of
    /// best score among the candidates of `og_cond`, if there is one.
    fn action_one_greedy(&self, g: &Grid, fg: &mut FlagGrid)
        requires
            g.wf(),
            self.fits(*g),
            self.strategy == Strategy::OneGreedy,
            fits(*g, old(fg)@),
            call_below(old(fg)@, call_room()),
        ensures
            final(fg)@ == placed(*self, *g, old(fg)@),
            fits(*g, final(fg)@),
    {
        let best = self.og_pick(g);
        self.sweep_flags(g, fg);
        if best >= 0 {
            let b: usize = best as usize;
            let h: usize = g.height;
            proof {
                lemma_area(g.width as int, g.height as int);
                assert(h > 0) by (nonlinear_arith)
                    requires b < g.tiles@.len(), g.tiles@.len() == g.width * h;
                lemma_idx_inv(g.width as int, h as int, b as int);
                lemma_flag_op_bound(*g, fg@, b as int, false, true, call_room() + FLAG_POWER * g.tiles@.len());
                lemma_flag_ops_fit(*g, fg@, (b / h) as int, (b % h) as int, FLAG_POWER);
            }
            let l = Loc::new((b / h) as i16, (b % h) as i16);
            add_flag(g, fg, l, FLAG_POWER);
        }
    }

    /// `action_persistent_greedy`: keeps its flags while their score stays
    /// at 1000 or more, and flags the tiles whose score exceeds 9000.
    fn action_persistent_greedy(&self, g: &Grid, fg: &mut FlagGrid)
        requires
            g.wf(),
            self.fits(*g),
            self.strategy == Strategy::PersistentGreedy,
            fits(*g, old(fg)@),
            call_below(old(fg)@, call_room()),
        ensures
            final(fg)@ == placed(*self, *g, old(fg)@),
            fits(*g, final(fg)@),
    {
        self.sweep_flags(g, fg);
    }

    /// `action_opportunist`: clears every flag and flags each tile where
    /// `opp_cond` holds.
    fn action_opportunist(&self, g: &Grid, fg: &mut FlagGrid)
        requires
            g.wf(),
            self.fits(*g),
            self.strategy == Strategy::Opportunist,
            fits(*g, old(fg)@),
            call_below(old(fg)@, call_room()),
        ensures
            final(fg)@ == placed(*self, *g, old(fg)@),
            fits(*g, final(fg)@),
    {
        self.sweep_flags(g, fg);
    }

    /// `action_noble`: clears every flag, then flags the (at most five)
    /// tiles of its priority table.
    fn action_noble(&self, g: &Grid, fg: &mut FlagGrid)
        requires
            g.wf(),
            self.fits(*g),
            self.strategy == Strategy::Noble,
            fits(*g, old(fg)@),
            call_below(old(fg)@, call_room()),
        ensures
            final(fg)@ == placed(*self, *g, old(fg)@),
            fits(*g, final(fg)@),
    {
        let (locs, vals) = self.noble_pick(g);
        self.sweep_flags(g, fg);
        let ghost t = (locs@, vals@);
        let ghost s0 = fg@;
        proof { lemma_area(g.width as int, g.height as int); }
        let mut k: usize = 0;
        while k < 5
            invariant
                k <= 5,
                g.wf(),
                t == (locs@, vals@),
                locs@.len() == 32,
                vals@.len() == 32,
                fits(*g, fg@),
                g.tiles@.len() <= 1160,
                call_below(fg@, call_room() + FLAG_POWER * (g.tiles@.len() + k)),
                noble_adds(*g, fg@, t, k as int) == noble_adds(*g, s0, t, 0),
            decreases 5 - k,
        {
            let l = locs[k];
            if vals[k] > 0 && l.i >= 0 && l.j >= 0 {
                proof {
                    lemma_flag_ops_fit(*g, fg@, l.i as int, l.j as int, FLAG_POWER);
                    lemma_flag_credit_bounds(*g, l.i as int, l.j as int, FLAG_POWER);
                    let f = fg@;
                    let f2 = spec_add_flag(*g, f, l.i as int, l.j as int, FLAG_POWER);
                    let bnd = call_room() + FLAG_POWER * (g.tiles@.len() + k);
                    if can_add(*g, f, l.i as int, l.j as int) {
                        assert forall|y: int| 0 <= y < f2.call.len() implies #[trigger] f2.call[y] <= bnd + FLAG_POWER by {
                            assert(f.call[y] <= bnd);
                        }
                    }
                }
                add_flag(g, fg, l, FLAG_POWER);
            }
            proof {
                assert(call_room() + FLAG_POWER * (g.tiles@.len() + k) + FLAG_POWER
                    == call_room() + FLAG_POWER * (g.tiles@.len() + k + 1));
            }
            k += 1;
        }
    }

    /// `place_flags`: updates the overlay `fg` by the king's strategy (see
    /// `placed`); the Midas and idle strategies place no flags.
    pub fn place_flags(&self, g: &Grid, fg: &mut FlagGrid)
        requires
            g.wf(),
            self.fits(*g),
            fits(*g, old(fg)@),
            call_below(old(fg)@, call_room()),
        ensures
            final(fg)@ == placed(*self, *g, old(fg)@),
            fits(*g, final(fg)@),
    {
        match self.strategy {
            Strategy::AggrGreedy => self.action_aggr_greedy(g, fg),
            Strategy::OneGreedy => self.action_one_greedy(g, fg),
            Strategy::PersistentGreedy => self.action_persistent_greedy(g, fg),
            Strategy::Opportunist => self.action_opportunist(g, fg),
            Strategy::Noble => self.action_noble(g, fg),
            Strategy::Midas | Strategy::Idle => {
                proof { lemma_sweep_idle(*self, *g, fg@, g.tiles@.len() as int); }
            },
        }
    }
}

/// The sweep of a king that places no flags changes nothing.
proof fn lemma_sweep_idle(k: King, g: Grid, f: FlagGridView, q: int)
    requires
        k.strategy == Strategy::Midas || k.strategy == Strategy::Idle,
    ensures
        sweep(k, g, f, q) == f,
    decreases q,
{
    if q > 0 {
        lemma_sweep_idle(k, g, f, q - 1);
    }
}

/// A flag operation keeps the overlay consistent with the map.
proof fn lemma_flag_at_op_ok(g: Grid, f: FlagGridView, x: int, remove: bool, add: bool)
    requires
        g.wf(),
        flags_ok(g, f),
    ensures
        flags_ok(g, flag_at_op(g, f, x, remove, add)),
{
    let l = loc_of(f.height, x);
    lemma_remove_flag_ok(g, f, l.i as int, l.j as int);
    let f1 = if remove { spec_remove_flag(g, f, l.i as int, l.j as int, FLAG_POWER) } else { f };
    lemma_add_flag_ok(g, f1, l.i as int, l.j as int);
}

/// The sweep keeps the overlay consistent with the map.
proof fn lemma_sweep_ok(k: King, g: Grid, f: FlagGridView, q: int)
    requires
        g.wf(),
        flags_ok(g, f),
    ensures
        flags_ok(g, sweep(k, g, f, q)),
    decreases q,
{
    if q > 0 {
        lemma_sweep_ok(k, g, f, q - 1);
        let s = sweep(k, g, f, q - 1);
        let x = q - 1;
        lemma_flag_at_op_ok(g, s, x, true, aggr_cond(k, g, x));
        lemma_flag_at_op_ok(g, s, x, true, opp_cond(k, g, x));
        lemma_flag_at_op_ok(g, s, x, true, false);
        lemma_flag_at_op_ok(g, s, x, pg_low(k, g, x), false);
        lemma_flag_at_op_ok(g, s, x, false, pg_high(k, g, x));
    }
}

/// The noble's flags keep the overlay consistent with the map.
proof fn lemma_noble_adds_ok(g: Grid, f: FlagGridView, t: (Seq<Loc>, Seq<i32>), j: int)
    requires
        g.wf(),
        flags_ok(g, f),
    ensures
        flags_ok(g, noble_adds(g, f, t, j)),
    decreases 5 - j,
{
    if 0 <= j < 5 {
        let l = t.0[j];
        lemma_add_flag_ok(g, f, l.i as int, l.j as int);
        let f1 = if t.1[j] > 0 && l.i >= 0 && l.j >= 0 {
            spec_add_flag(g, f, l.i as int, l.j as int, FLAG_POWER)
        } else {
            f
        };
        lemma_noble_adds_ok(g, f1, t, j + 1);
    }
}

/// `place_flags` keeps an overlay consistent with the map.
pub proof fn lemma_placed_ok(k: King, g: Grid, f: FlagGridView)
    requires
        g.wf(),
        flags_ok(g, f),
    ensures
        flags_ok(g, placed(k, g, f)),
{
    let n = g.tiles@.len() as int;
    lemma_sweep_ok(k, g, f, n);
    let s = sweep(k, g, f, n);
    lemma_flag_at_op_ok(g, s, og_best_from(k, g, 0, -1), false, true);
    lemma_noble_adds_ok(g, s, noble_table(k, g, n), 0);
}

/// A consistent overlay has the headroom `place_flags` needs.
pub proof fn lemma_flags_ok_room(g: Grid, f: FlagGridView)
    requires
        g.wf(),
        flags_ok(g, f),
    ensures
        call_below(f, call_room()),
{
    lemma_area(g.width as int, g.height as int);
    assert forall|x: int| 0 <= x < f.call.len() implies -call_room() <= #[trigger] f.call[x] <= call_room() by {
        lemma_flags_ok_call(g, f, x);
    }
}

/// Storage index of `l` on the map.
fn i_h(g: &Grid, l: Loc) -> (r: usize)
    requires
        g.wf(),
        g.in_map(l.i as int, l.j as int),
    ensures
        r == spec_idx(g.height as int, l.i as int, l.j as int),
        r < g.tiles@.len(),
{
    proof {
        lemma_idx(g.width as int, g.height as int, l.i as int, l.j as int);
        lemma_area(g.width as int, g.height as int);
    }
    (l.i as usize) * g.height + (l.j as usize)
}

} // verus!
