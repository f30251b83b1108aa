//! The whole game: the options it starts from, the population timeline,
//! the state that owns the map, the flag overlays, the kings and the
//! random source, and the actions a player can take.
use vstd::prelude::*;
use crate::ai::{build, can_build, upgrade_price, upgraded, Difficulty};
use crate::consts::{FLAG_POWER, MAX_PLAYER, MAX_TIMELINE_MARK};
use crate::flags::{
    add_flag, flagged_prefix, flags_ok, picked, is_subseq, lemma_add_flag_ok, lemma_flags_ok_call, lemma_remove_all_ok,
    lemma_remove_flag_ok, remove_flag, remove_flags_with_prob, spec_add_flag, spec_remove_all, spec_remove_flag,
    FlagGrid, FlagGridView,
};
use crate::grid::{lemma_area, spec_idx, Grid, Tile};
use crate::ai::King;
use crate::rng::CowRng;
use crate::sim::{pop_sum, spec_win_or_lose, win_or_lose};
use crate::types::{Loc, Outcome, PlayerId, Shape, Speed};

verus! {

/// The options a game starts from.
#[derive(Clone, Copy, Debug)]
pub struct GameOptions {
    /// Absolutely random initial conditions.
    pub keep_random: bool,
    pub dif: Difficulty,
    pub speed: Speed,
    pub w: usize,
    pub h: usize,
    pub loc_num: usize,
    pub map_seed: u32,
    pub conditions: i32,
    pub timeline: bool,
    pub inequality: i32,
    pub shape: Shape,
}

impl Default for GameOptions {
    /// Normal difficulty and speed, a 21 by 21 rectangle with 4 countries,
    /// seed 0, random spawn quality, no inequality constraint, no timeline.
    fn default() -> (r: Self)
        ensures
            !r.keep_random,
            r.dif == Difficulty::Normal,
            r.speed == Speed::Normal,
            r.w == 21,
            r.h == 21,
            r.loc_num == 4,
            r.map_seed == 0,
            r.conditions == 0,
            !r.timeline,
            r.inequality == -1,
            r.shape == Shape::Rect,
    {
        GameOptions {
            keep_random: false,
            dif: Difficulty::Normal,
            speed: Speed::Normal,
            w: 21,
            h: 21,
            loc_num: 4,
            map_seed: 0,
            conditions: 0,
            timeline: false,
            inequality: -1,
            shape: Shape::Rect,
        }
    }
}

/// Ring buffer of population samples: per player, the population over
/// the inhabitable tiles at each recorded time; `mark` is the last slot
/// written (-1 before the first sample).
#[derive(Clone, Copy, Debug)]
pub struct Timeline {
    pub data: [[i64; MAX_TIMELINE_MARK]; MAX_PLAYER],
    pub time: [u64; MAX_TIMELINE_MARK],
    pub mark: i32,
}

impl Default for Timeline {
    /// No samples: everything zero, `mark == -1`.
    fn default() -> (r: Self)
        ensures
            r.mark == -1,
            forall|k: int| 0 <= k < MAX_TIMELINE_MARK ==> #[trigger] r.time[k] == 0,
            forall|p: int, k: int| 0 <= p < MAX_PLAYER && 0 <= k < MAX_TIMELINE_MARK ==> #[trigger] r.data[p][k] == 0,
    {
        Timeline { data: [[0i64; 72]; 8], time: [0u64; 72], mark: -1 }
    }
}

/// High-level player actions, which `State::apply` carries out.
#[derive(Clone, Copy, PartialEq, Eq, Structural, Hash, Debug)]
pub enum Action {
    Noop,
    /// New cursor position; the cursor lives outside the state.
    MoveCursor(i16, i16),
    SpeedUp,
    SlowDown,
    TogglePause,
    ToggleFlagAtCursor(Loc),
    BuildAtCursor(Loc),
    ClearAllFlags,
    ClearHalfFlags,
}

/// The whole game state; the only owner of the random source.
pub struct State {
    pub grid: Grid,
    pub flags: [FlagGrid; MAX_PLAYER],
    pub kings: Vec<King>,
    pub gold: [i64; MAX_PLAYER],
    pub timeline: Timeline,
    pub show_timeline: bool,
    pub time: u64,
    pub map_seed: u32,
    pub controlled: PlayerId,
    pub conditions: i32,
    pub inequality: i32,
    pub speed: Speed,
    pub prev_speed: Speed,
    pub dif: Difficulty,
    pub rng: CowRng,
}

/// The overlays of all players, by their views.
pub open spec fn flag_views(flags: [FlagGrid; MAX_PLAYER]) -> Seq<FlagGridView> {
    Seq::new(MAX_PLAYER as nat, |p: int| flags[p]@)
}

/// Speed and previous speed after an action: speeding up or slowing down
/// remembers the speed it left; pausing remembers the running speed, and
/// resuming goes back to it. Other actions keep both.
pub open spec fn speeds_after(a: Action, speed: Speed, prev: Speed) -> (Speed, Speed) {
    match a {
        Action::SpeedUp => (crate::types::spec_faster(speed), speed),
        Action::SlowDown => (crate::types::spec_slower(speed), speed),
        Action::TogglePause => if speed == Speed::Pause { (prev, prev) } else { (Speed::Pause, speed) },
        _ => (speed, prev),
    }
}

/// Pausing and then resuming gives back the running speed.
pub proof fn law_toggle_pause_twice(speed: Speed, prev: Speed)
    requires
        speed != Speed::Pause,
    ensures
        ({
            let once = speeds_after(Action::TogglePause, speed, prev);
            let twice = speeds_after(Action::TogglePause, once.0, once.1);
            &&& once.0 == Speed::Pause
            &&& twice == (speed, speed)
        }),
{
}

/// Toggling the flag at the same tile twice gives back the overlay, when
/// the overlay was consistent with the map.
pub proof fn law_toggle_flag_twice(g: Grid, f0: FlagGridView, f1: FlagGridView, f2: FlagGridView, l: Loc)
    requires
        g.wf(),
        flags_ok(g, f0),
        flags_after(Action::ToggleFlagAtCursor(l), g, f0, f1),
        flags_after(Action::ToggleFlagAtCursor(l), g, f1, f2),
    ensures
        f2 == f0,
{
    let (i, j) = (l.i as int, l.j as int);
    lemma_area(g.width as int, g.height as int);
    if g.in_map(i, j) {
        crate::grid::lemma_idx(g.width as int, g.height as int, i, j);
        let k = spec_idx(g.height as int, i, j);
        crate::flags::lemma_flag_credit_bounds(g, i, j, FLAG_POWER);
        assert forall|x: int| 0 <= x < f0.call.len() implies 0 <= #[trigger] f0.call[x]
            <= FLAG_POWER * g.tiles@.len() by {
            lemma_flags_ok_call(g, f0, x);
        }
        if f0.flag[k] {
            if crate::flags::can_remove(g, f0, i, j) {
                assert(f1.flag[k] == false);
                assert(crate::flags::can_add(g, f1, i, j));
                assert(f2.flag =~= f0.flag);
                assert(f2.call =~= f0.call);
            }
        } else {
            crate::flags::law_add_remove_roundtrip(g, f0, i, j, FLAG_POWER);
        }
    }
}

impl State {
    /// The state is consistent: a well-formed map, every flag overlay
    /// consistent with it, every king matched to it, and a valid
    /// controlled player.
    pub open spec fn wf(&self) -> bool {
        &&& self.grid.wf()
        &&& forall|p: int| 0 <= p < MAX_PLAYER ==> flags_ok(self.grid, #[trigger] self.flags[p]@)
        &&& forall|q: int| 0 <= q < self.kings@.len() ==> (#[trigger] self.kings@[q]).fits(self.grid)
        &&& self.controlled.0 < MAX_PLAYER
    }

    /// `win_or_lose`: the outcome for the controlled player.
    pub fn win_or_lose(&self) -> (r: Outcome)
        requires
            self.wf(),
        ensures
            r == spec_win_or_lose(self.grid.tiles@, self.controlled.0 as int),
    {
        win_or_lose(&self.grid, self.controlled)
    }
}

/// Building at `l` for `pl` (see `build`): the tile upgraded and the
/// price charged when `can_build` allows it; otherwise nothing changes.
pub open spec fn build_effect(g0: Grid, gold0: [i64; MAX_PLAYER], pl: int, l: Loc, g1: Grid, gold1: [i64; MAX_PLAYER]) -> bool {
    &&& g1.width == g0.width
    &&& g1.height == g0.height
    &&& if can_build(g0, gold0, pl, l.i as int, l.j as int) {
        let k = spec_idx(g0.height as int, l.i as int, l.j as int);
        let t = g0.tiles@[k];
        &&& g1.tiles@ == g0.tiles@.update(k, Tile { cl: upgraded(t.cl), pl: t.pl, pop: t.pop })
        &&& gold1 == vstd::array::spec_array_update(gold0, pl, (gold0[pl] - upgrade_price(t.cl)) as i64)
    } else {
        g1 == g0 && gold1 == gold0
    }
}

/// Building at `l`, when allowed, upgrades the tile one class and charges
/// its owner exactly the price of the class it now has; nobody else's gold
/// changes.
pub proof fn law_build_charges_the_new_class(
    g0: Grid,
    gold0: [i64; MAX_PLAYER],
    pl: int,
    l: Loc,
    g1: Grid,
    gold1: [i64; MAX_PLAYER],
)
    requires
        g0.wf(),
        0 <= pl < MAX_PLAYER,
        build_effect(g0, gold0, pl, l, g1, gold1),
        can_build(g0, gold0, pl, l.i as int, l.j as int),
    ensures
        g1.tile(l.i as int, l.j as int).cl == upgraded(g0.tile(l.i as int, l.j as int).cl),
        gold1[pl] == gold0[pl] - crate::ai::city_price(g1.tile(l.i as int, l.j as int).cl),
        forall|p: int| 0 <= p < MAX_PLAYER && p != pl ==> #[trigger] gold1[p] == gold0[p],
{
    let k = spec_idx(g0.height as int, l.i as int, l.j as int);
    crate::grid::lemma_idx(g0.width as int, g0.height as int, l.i as int, l.j as int);
    let t = g0.tiles@[k];
    crate::ai::law_upgrade_costs_the_new_class(t.cl);
    assert(gold1@ == gold0@.update(pl, (gold0[pl] - upgrade_price(t.cl)) as i64));
    assert(gold1[pl] == gold1@[pl]);
    assert forall|p: int| 0 <= p < MAX_PLAYER && p != pl implies #[trigger] gold1[p] == gold0[p] by {
        assert(gold1[p] == gold1@[p]);
        assert(gold0[p] == gold0@[p]);
    }
}

/// Building at `l` changes anything exactly when the tile lies on the map,
/// belongs to the builder, is grassland, a village or a town, and the
/// builder's gold covers the price of the class it would become.
pub proof fn law_build_only_when_owned_and_paid(
    g0: Grid,
    gold0: [i64; MAX_PLAYER],
    pl: int,
    l: Loc,
    g1: Grid,
    gold1: [i64; MAX_PLAYER],
)
    requires
        g0.wf(),
        0 <= pl < MAX_PLAYER,
        build_effect(g0, gold0, pl, l, g1, gold1),
    ensures
        (g1 != g0 || gold1 != gold0) <==> {
            let cl = g0.tile(l.i as int, l.j as int).cl;
            &&& g0.in_map(l.i as int, l.j as int)
            &&& g0.tile(l.i as int, l.j as int).pl.0 == pl
            &&& (cl == crate::types::TileClass::Grassland || cl == crate::types::TileClass::Village
                || cl == crate::types::TileClass::Town)
            &&& gold0[pl] >= crate::ai::city_price(upgraded(cl))
        },
{
    if can_build(g0, gold0, pl, l.i as int, l.j as int) {
        let k = spec_idx(g0.height as int, l.i as int, l.j as int);
        crate::grid::lemma_idx(g0.width as int, g0.height as int, l.i as int, l.j as int);
        let t = g0.tiles@[k];
        crate::ai::law_upgrade_costs_the_new_class(t.cl);
        assert(g1.tiles@[k].cl == upgraded(t.cl));
        assert(g1.tiles@[k].cl != g0.tiles@[k].cl);
    } else {
        if g0.in_map(l.i as int, l.j as int) {
            let cl = g0.tile(l.i as int, l.j as int).cl;
            if crate::ai::upgradable(cl) {
                crate::ai::law_upgrade_costs_the_new_class(cl);
            }
        }
    }
}

/// The controlled player's overlay after an action: clearing all flags
/// removes every flag in storage order; clearing half removes some of them
/// (each with even chance), in storage order; toggling removes the flag at
/// the location when one stands there and places one otherwise.
pub open spec fn flags_after(a: Action, g: Grid, f0: FlagGridView, f1: FlagGridView) -> bool {
    let all = flagged_prefix(f0, f0.flag.len() as int);
    match a {
        Action::ClearAllFlags => f1 == spec_remove_all(g, f0, all, FLAG_POWER),
        Action::ClearHalfFlags => exists|locs: Seq<Loc>| #[trigger] is_subseq(locs, all)
            && f1 == spec_remove_all(g, f0, locs, FLAG_POWER),
        Action::ToggleFlagAtCursor(l) => f1 == if 0 <= l.i < f0.width && 0 <= l.j < f0.height
            && f0.flag[spec_idx(f0.height, l.i as int, l.j as int)] {
            spec_remove_flag(g, f0, l.i as int, l.j as int, FLAG_POWER)
        } else {
            spec_add_flag(g, f0, l.i as int, l.j as int, FLAG_POWER)
        },
        _ => f1 == f0,
    }
}

/// Clearing half the flags, by the draws: the generator made one new draw
/// per flag of the controlled player, in storage order, and the flags
/// removed are those whose draw passes a chance of one half (`picked`).
pub open spec fn half_cleared(s0: State, s1: State) -> bool {
    let c = s0.controlled.0 as int;
    let f0 = s0.flags[c]@;
    let d0 = s0.rng.draws();
    let d1 = s1.rng.draws();
    &&& d1.len() == d0.len() + flagged_prefix(f0, f0.flag.len() as int).len()
    &&& d1.subrange(0, d0.len() as int) == d0
    &&& s1.flags[c]@ == spec_remove_all(
        s0.grid,
        f0,
        picked(f0, d1.subrange(d0.len() as int, d1.len() as int), 1, 2, f0.flag.len() as int),
        FLAG_POWER,
    )
}

/// Clearing half the flags removes each flag of the controlled player
/// with a chance of one half: the generator makes one new draw per flag,
/// in storage order, and a flag goes exactly when its draw, read as a unit
/// sample (`unit_scaled`), is at most one half; every other tile stays
/// without a flag.
pub proof fn law_clear_half_flags_is_a_coin_per_flag(s0: State, s1: State)
    requires
        s0.wf(),
        applied(s0, Action::ClearHalfFlags, s1),
    ensures
        ({
            let c = s0.controlled.0 as int;
            let f0 = s0.flags[c]@;
            let d0 = s0.rng.draws();
            let xs = s1.rng.draws().subrange(d0.len() as int, s1.rng.draws().len() as int);
            &&& s1.rng.draws().subrange(0, d0.len() as int) == d0
            &&& xs.len() == flagged_prefix(f0, f0.flag.len() as int).len()
            &&& s1.flags[c]@.flag.len() == f0.flag.len()
            &&& forall|z: int| 0 <= z < f0.flag.len() ==> #[trigger] s1.flags[c]@.flag[z]
                == (f0.flag[z] && crate::rng::unit_scaled(xs[flagged_prefix(f0, z).len() as int] as int) * 2
                    > 4294967296)
        }),
{
    let c = s0.controlled.0 as int;
    let f0 = s0.flags[c]@;
    let d0 = s0.rng.draws();
    let xs = s1.rng.draws().subrange(d0.len() as int, s1.rng.draws().len() as int);
    assert(half_cleared(s0, s1));
    assert(flags_ok(s0.grid, f0));
    crate::flags::lemma_remove_picked(s0.grid, f0, xs, 1, 2, f0.flag.len() as int);
}

/// Clearing all flags leaves the controlled player without any flag and
/// with no call anywhere; the other players' overlays stay.
pub proof fn law_clear_all_flags_leaves_nothing(s0: State, s1: State)
    requires
        s0.wf(),
        applied(s0, Action::ClearAllFlags, s1),
    ensures
        ({
            let c = s0.controlled.0 as int;
            &&& forall|x: int| 0 <= x < s0.flags[c]@.flag.len() ==> !#[trigger] s1.flags[c]@.flag[x]
            &&& forall|x: int| 0 <= x < s0.flags[c]@.call.len() ==> #[trigger] s1.flags[c]@.call[x] == 0
            &&& forall|p: int| 0 <= p < MAX_PLAYER && p != c ==> #[trigger] s1.flags[p]@ == s0.flags[p]@
        }),
{
    let c = s0.controlled.0 as int;
    assert(flags_ok(s0.grid, s0.flags[c]@));
    crate::flags::law_clear_all_flags(s0.grid, s0.flags[c]@);
}

/// Toggling the flag at `l` on a tile that can hold people flips the
/// controlled player's flag there and no other flag; elsewhere it changes
/// nothing.
pub proof fn law_toggle_flips_one_flag(s0: State, l: Loc, s1: State)
    requires
        s0.wf(),
        applied(s0, Action::ToggleFlagAtCursor(l), s1),
    ensures
        ({
            let c = s0.controlled.0 as int;
            let f0 = s0.flags[c]@;
            let f1 = s1.flags[c]@;
            let k = spec_idx(s0.grid.height as int, l.i as int, l.j as int);
            &&& f1.flag.len() == f0.flag.len()
            &&& crate::grid::inhabitable_at(s0.grid, l.i as int, l.j as int) ==> f1.flag[k] == !f0.flag[k]
            &&& forall|x: int| 0 <= x < f0.flag.len() && (x != k
                || !crate::grid::inhabitable_at(s0.grid, l.i as int, l.j as int)) ==> #[trigger] f1.flag[x] == f0.flag[x]
        }),
{
    let c = s0.controlled.0 as int;
    let f0 = s0.flags[c]@;
    assert(flags_ok(s0.grid, f0));
    if s0.grid.in_map(l.i as int, l.j as int) {
        crate::grid::lemma_idx(s0.grid.width as int, s0.grid.height as int, l.i as int, l.j as int);
    }
}

/// What `apply` does (see its description): the state `s1` after action
/// `a` on `s0`.
pub open spec fn applied(s0: State, a: Action, s1: State) -> bool {
    &&& (s1.speed, s1.prev_speed) == speeds_after(a, s0.speed, s0.prev_speed)
    &&& flags_after(a, s0.grid, s0.flags[s0.controlled.0 as int]@, s1.flags[s0.controlled.0 as int]@)
    &&& forall|p: int| 0 <= p < MAX_PLAYER && p != s0.controlled.0 ==>
            #[trigger] s1.flags[p]@ == s0.flags[p]@
    &&& a is BuildAtCursor ==> build_effect(s0.grid, s0.gold, s0.controlled.0 as int, a->BuildAtCursor_0, s1.grid, s1.gold)
    &&& !(a is BuildAtCursor) ==> s1.grid == s0.grid && s1.gold == s0.gold
    &&& a is ClearHalfFlags ==> half_cleared(s0, s1)
    &&& s1.kings == s0.kings
    &&& s1.timeline == s0.timeline
    &&& s1.show_timeline == s0.show_timeline
    &&& s1.time == s0.time
    &&& s1.map_seed == s0.map_seed
    &&& s1.controlled == s0.controlled
    &&& s1.conditions == s0.conditions
    &&& s1.inequality == s0.inequality
    &&& s1.dif == s0.dif
}

impl State {
    /// Replaces the overlay of player `p`.
    fn put_flags(&mut self, p: usize, fg: FlagGrid)
        requires
            p < MAX_PLAYER,
        ensures
            final(self).flags[p as int]@ == fg@,
            forall|q: int| 0 <= q < MAX_PLAYER && q != p ==> #[trigger] final(self).flags[q] == old(self).flags[q],
            final(self).grid == old(self).grid,
            final(self).rng == old(self).rng,
            final(self).kings == old(self).kings,
            final(self).gold == old(self).gold,
            final(self).timeline == old(self).timeline,
            final(self).show_timeline == old(self).show_timeline,
            final(self).time == old(self).time,
            final(self).map_seed == old(self).map_seed,
            final(self).controlled == old(self).controlled,
            final(self).conditions == old(self).conditions,
            final(self).inequality == old(self).inequality,
            final(self).speed == old(self).speed,
            final(self).prev_speed == old(self).prev_speed,
            final(self).dif == old(self).dif,
    {
        self.flags[p] = fg;
    }

    /// `apply`: carries out a player action. Speed changes follow
    /// `speeds_after`; the flag actions change the controlled player's
    /// overlay as `flags_after` says; building upgrades the tile at the
    /// location as `build_effect` says; moving the cursor and `Noop` change
    /// nothing here (the cursor lives outside the state).
    pub fn apply(&mut self, action: Action)
        requires
            old(self).wf(),
        ensures
            final(self).wf(),
            applied(*old(self), action, *final(self)),
    {
        let c: usize = self.controlled.index();
        match action {
            Action::SpeedUp => {
                self.prev_speed = self.speed;
                let sp = self.speed.faster();
                self.speed = sp;
            },
            Action::SlowDown => {
                self.prev_speed = self.speed;
                self.speed = self.speed.slower();
            },
            Action::TogglePause => {
                if self.speed == Speed::Pause {
                    self.speed = self.prev_speed;
                } else {
                    self.prev_speed = self.speed;
                    self.speed = Speed::Pause;
                }
            },
            Action::ClearAllFlags => {
                let mut fg = self.flags[c].duplicate();
                let ghost f0 = fg@;
                proof {
                    lemma_area(self.grid.width as int, self.grid.height as int);
                    assert forall|x: int| 0 <= x < fg.call@.len() implies #[trigger] fg.call@[x]
                        - FLAG_POWER * fg.call@.len() >= i32::MIN by {
                        crate::flags::lemma_flags_ok_call(self.grid, fg@, x);
                    }
                }
                remove_flags_with_prob(&mut self.rng, &self.grid, &mut fg, 1, 1);
                proof {
                    let locs = choose|locs: Seq<Loc>| {
                        &&& is_subseq(locs, flagged_prefix(f0, f0.flag.len() as int))
                        &&& fg@ == spec_remove_all(self.grid, f0, locs, FLAG_POWER)
                        &&& 1u64 >= 1u64 ==> locs == flagged_prefix(f0, f0.flag.len() as int)
                    };
                    lemma_remove_all_ok(self.grid, f0, locs);
                }
                self.put_flags(c, fg);
            },
            Action::ClearHalfFlags => {
                let mut fg = self.flags[c].duplicate();
                let ghost f0 = fg@;
                proof {
                    lemma_area(self.grid.width as int, self.grid.height as int);
                    assert forall|x: int| 0 <= x < fg.call@.len() implies #[trigger] fg.call@[x]
                        - FLAG_POWER * fg.call@.len() >= i32::MIN by {
                        crate::flags::lemma_flags_ok_call(self.grid, fg@, x);
                    }
                }
                remove_flags_with_prob(&mut self.rng, &self.grid, &mut fg, 1, 2);
                proof {
                    let locs = choose|locs: Seq<Loc>| {
                        &&& is_subseq(locs, flagged_prefix(f0, f0.flag.len() as int))
                        &&& fg@ == spec_remove_all(self.grid, f0, locs, FLAG_POWER)
                        &&& 1u64 >= 2u64 ==> locs == flagged_prefix(f0, f0.flag.len() as int)
                    };
                    lemma_remove_all_ok(self.grid, f0, locs);
                }
                self.put_flags(c, fg);
            },
            Action::ToggleFlagAtCursor(l) => {
                let mut fg = self.flags[c].duplicate();
                proof {
                    lemma_area(self.grid.width as int, self.grid.height as int);
                    lemma_remove_flag_ok(self.grid, fg@, l.i as int, l.j as int);
                    lemma_add_flag_ok(self.grid, fg@, l.i as int, l.j as int);
                    assert forall|x: int| 0 <= x < fg.call@.len() implies #[trigger] fg.call@[x] + FLAG_POWER <= i32::MAX
                        && fg.call@[x] - FLAG_POWER >= i32::MIN by {
                        lemma_flags_ok_call(self.grid, fg@, x);
                    }
                }
                if fg.flag_at(l) {
                    remove_flag(&self.grid, &mut fg, l, FLAG_POWER);
                } else {
                    add_flag(&self.grid, &mut fg, l, FLAG_POWER);
                }
                self.put_flags(c, fg);
            },
            Action::BuildAtCursor(l) => {
                let ghost g0 = self.grid;
                build(&mut self.grid, &mut self.gold, self.controlled, l);
                proof {
                    assert(crate::flags::same_mask(g0, self.grid)) by {
                        if can_build(g0, old(self).gold, c as int, l.i as int, l.j as int) {
                            let k = spec_idx(g0.height as int, l.i as int, l.j as int);
                            crate::grid::lemma_idx(g0.width as int, g0.height as int, l.i as int, l.j as int);
                            assert forall|q: int| 0 <= q < g0.tiles@.len() implies crate::types::spec_is_inhabitable(
                                #[trigger] g0.tiles@[q].cl) == crate::types::spec_is_inhabitable(self.grid.tiles@[q].cl) by {
                                if q == k {
                                    assert(self.grid.tiles@[q].cl == upgraded(g0.tiles@[q].cl));
                                }
                            }
                        }
                    }
                    assert forall|p: int| 0 <= p < MAX_PLAYER implies flags_ok(self.grid, #[trigger] self.flags[p]@) by {
                        crate::flags::lemma_flags_ok_mask(g0, self.grid, self.flags[p]@);
                    }
                    assert forall|q: int| 0 <= q < self.kings@.len() implies (#[trigger] self.kings@[q]).fits(self.grid) by {
                        assert(self.kings@[q].fits(g0));
                    }
                }
            },
            Action::MoveCursor(_, _) | Action::Noop => {},
        }
    }
}

/// The timeline after recording the populations of `ts` at `time`: the
/// next slot after `mark` takes the sample; when the buffer is full (or
/// `mark` is out of range) every sample moves one slot down, the oldest
/// drops out, and the last slot takes the sample.
pub open spec fn timeline_after(t0: Timeline, time: u64, ts: Seq<Tile>, t1: Timeline) -> bool {
    let sh = t0.mark + 1 < 0 || t0.mark + 1 >= MAX_TIMELINE_MARK;
    let m = if sh { MAX_TIMELINE_MARK - 1 } else { t0.mark + 1 };
    &&& t1.mark == m
    &&& t1.time[m] == time
    &&& forall|p: int| 0 <= p < MAX_PLAYER ==> #[trigger] t1.data[p][m] == pop_sum(ts, p, true)
    &&& forall|k: int| 0 <= k < MAX_TIMELINE_MARK && k != m ==>
        #[trigger] t1.time[k] == if sh { t0.time[k + 1] } else { t0.time[k] }
    &&& forall|p: int, k: int| 0 <= p < MAX_PLAYER && 0 <= k < MAX_TIMELINE_MARK && k != m ==>
        #[trigger] t1.data[p][k] == if sh { t0.data[p][k + 1] } else { t0.data[p][k] }
}

/// Recording keeps the mark in `0..MAX_TIMELINE_MARK` (the buffer never
/// overflows).
pub proof fn law_timeline_mark_in_range(t0: Timeline, time: u64, ts: Seq<Tile>, t1: Timeline)
    requires
        timeline_after(t0, time, ts, t1),
    ensures
        0 <= t1.mark < MAX_TIMELINE_MARK,
{
}

/// `row` moved one slot down: slot `k` takes slot `k + 1`, the last slot
/// stays.
fn shift_row(row: [i64; MAX_TIMELINE_MARK]) -> (r: [i64; MAX_TIMELINE_MARK])
    ensures
        forall|k: int| 0 <= k < MAX_TIMELINE_MARK - 1 ==> #[trigger] r[k] == row[k + 1],
        r[MAX_TIMELINE_MARK - 1] == row[MAX_TIMELINE_MARK - 1],
{
    let mut r = row;
    let mut i: usize = 0;
    while i < MAX_TIMELINE_MARK - 1
        invariant
            i <= MAX_TIMELINE_MARK - 1,
            forall|k: int| 0 <= k < i ==> #[trigger] r[k] == row[k + 1],
            forall|k: int| i <= k < MAX_TIMELINE_MARK ==> #[trigger] r[k] == row[k],
        decreases MAX_TIMELINE_MARK - 1 - i,
    {
        let x = r[i + 1];
        r[i] = x;
        i += 1;
    }
    r
}

/// The time slots moved one slot down.
fn shift_times(row: [u64; MAX_TIMELINE_MARK]) -> (r: [u64; MAX_TIMELINE_MARK])
    ensures
        forall|k: int| 0 <= k < MAX_TIMELINE_MARK - 1 ==> #[trigger] r[k] == row[k + 1],
        r[MAX_TIMELINE_MARK - 1] == row[MAX_TIMELINE_MARK - 1],
{
    let mut r = row;
    let mut i: usize = 0;
    while i < MAX_TIMELINE_MARK - 1
        invariant
            i <= MAX_TIMELINE_MARK - 1,
            forall|k: int| 0 <= k < i ==> #[trigger] r[k] == row[k + 1],
            forall|k: int| i <= k < MAX_TIMELINE_MARK ==> #[trigger] r[k] == row[k],
        decreases MAX_TIMELINE_MARK - 1 - i,
    {
        let x = r[i + 1];
        r[i] = x;
        i += 1;
    }
    r
}

impl State {
    /// `update_timeline`: records the current populations (see
    /// `timeline_after`).
    fn update_timeline(&mut self)
        requires
            old(self).grid.wf(),
            old(self).timeline.mark < i32::MAX,
        ensures
            timeline_after(old(self).timeline, old(self).time, old(self).grid.tiles@, final(self).timeline),
            final(self).grid == old(self).grid,
            final(self).flags == old(self).flags,
            final(self).kings == old(self).kings,
            final(self).gold == old(self).gold,
            final(self).show_timeline == old(self).show_timeline,
            final(self).time == old(self).time,
            final(self).map_seed == old(self).map_seed,
            final(self).controlled == old(self).controlled,
            final(self).conditions == old(self).conditions,
            final(self).inequality == old(self).inequality,
            final(self).speed == old(self).speed,
            final(self).prev_speed == old(self).prev_speed,
            final(self).dif == old(self).dif,
    {
        let t0 = self.timeline;
        let mut tl = self.timeline;
        let next: i32 = tl.mark + 1;
        let sh: bool = next < 0 || next >= MAX_TIMELINE_MARK as i32;
        if sh {
            tl.time = shift_times(t0.time);
            let ghost times1 = tl.time;
            let mut p: usize = 0;
            while p < MAX_PLAYER
                invariant
                    p <= MAX_PLAYER,
                    tl.time == times1,
                    forall|q: int, k: int| 0 <= q < p && 0 <= k < MAX_TIMELINE_MARK - 1 ==>
                        #[trigger] tl.data[q][k] == t0.data[q][k + 1],
                    forall|q: int| p <= q < MAX_PLAYER ==> #[trigger] tl.data[q] == t0.data[q],
                decreases MAX_PLAYER - p,
            {
                let row = shift_row(tl.data[p]);
                tl.data[p] = row;
                p += 1;
            }
        }
        let m: usize = if sh { MAX_TIMELINE_MARK - 1 } else { next as usize };
        tl.mark = m as i32;
        tl.time[m] = self.time;
        let ghost t1 = tl;
        let pop = crate::sim::inhabitable_pops(&self.grid);
        let mut p: usize = 0;
        while p < MAX_PLAYER
            invariant
                p <= MAX_PLAYER,
                m < MAX_TIMELINE_MARK,
                tl.mark == t1.mark,
                tl.time == t1.time,
                forall|q: int| 0 <= q < p ==> #[trigger] tl.data[q][m as int] == pop[q],
                forall|q: int, k: int| 0 <= q < p && 0 <= k < MAX_TIMELINE_MARK && k != m ==>
                    #[trigger] tl.data[q][k] == t1.data[q][k],
                forall|q: int| p <= q < MAX_PLAYER ==> #[trigger] tl.data[q] == t1.data[q],
            decreases MAX_PLAYER - p,
        {
            let mut row = tl.data[p];
            row[m] = pop[p];
            tl.data[p] = row;
            p += 1;
        }
        self.timeline = tl;
    }
}

/// Index of the first king in `ks` from `i` on that plays `pl`; -1 if
/// none does.
pub open spec fn first_king_from(ks: Seq<King>, pl: PlayerId, i: int) -> int
    decreases ks.len() - i,
{
    if i < 0 || i >= ks.len() {
        -1
    } else if ks[i].pl == pl {
        i
    } else {
        first_king_from(ks, pl, i + 1)
    }
}

/// The king that acts for the king at `q`: the first one playing the same
/// player.
pub open spec fn acting_king(ks: Seq<King>, q: int) -> King {
    ks[first_king_from(ks, ks[q].pl, 0)]
}

/// The turn of the king at `q`: its acting king places flags on its
/// player's overlay (`placed`) and then builds (`builds`).
pub open spec fn king_turn(
    ks: Seq<King>,
    q: int,
    g0: Grid,
    gold0: [i64; MAX_PLAYER],
    f0: Seq<FlagGridView>,
    g1: Grid,
    gold1: [i64; MAX_PLAYER],
    f1: Seq<FlagGridView>,
    built: bool,
) -> bool {
    let k = acting_king(ks, q);
    let p = ks[q].pl.0 as int;
    &&& f1 == f0.update(p, crate::ai::placed(k, g0, f0[p]))
    &&& crate::ai::builds(k, g0, gold0, g1, gold1, built)
}

/// The turns of all kings, in order, through the intermediate maps, gold
/// and overlays of the trace.
pub open spec fn turns(
    ks: Seq<King>,
    grids: Seq<Grid>,
    golds: Seq<[i64; MAX_PLAYER]>,
    fs: Seq<Seq<FlagGridView>>,
    builts: Seq<bool>,
) -> bool {
    &&& grids.len() == ks.len() + 1
    &&& golds.len() == ks.len() + 1
    &&& fs.len() == ks.len() + 1
    &&& builts.len() == ks.len()
    &&& forall|q: int| 0 <= q < ks.len() ==> #[trigger] king_turn(
        ks, q, grids[q], golds[q], fs[q], grids[q + 1], golds[q + 1], fs[q + 1], builts[q])
}

/// `kings_move` went from `(g0, gold0, f0)` to `(g1, gold1, f1)`, some king
/// building exactly when `any`.
pub open spec fn kings_moved(
    ks: Seq<King>,
    g0: Grid,
    gold0: [i64; MAX_PLAYER],
    f0: Seq<FlagGridView>,
    g1: Grid,
    gold1: [i64; MAX_PLAYER],
    f1: Seq<FlagGridView>,
    any: bool,
) -> bool {
    exists|grids: Seq<Grid>, golds: Seq<[i64; MAX_PLAYER]>, fs: Seq<Seq<FlagGridView>>, builts: Seq<bool>|
        #[trigger] turns(ks, grids, golds, fs, builts)
        && grids[0] == g0 && golds[0] == gold0 && fs[0] == f0
        && grids[ks.len() as int] == g1 && golds[ks.len() as int] == gold1 && fs[ks.len() as int] == f1
        && any == exists|q: int| 0 <= q < ks.len() && #[trigger] builts[q]
}

/// The kings after the re-evaluation that follows a build: the same kings
/// with fresh value maps (see `evaluate_map`).
pub open spec fn reevaluated(ks0: Seq<King>, g: Grid, dif: Difficulty, ks1: Seq<King>) -> bool {
    &&& ks1.len() == ks0.len()
    &&& forall|q: int| 0 <= q < ks0.len() ==> {
        let a = #[trigger] ks0[q];
        let b = ks1[q];
        &&& b.pl == a.pl
        &&& b.strategy == a.strategy
        &&& b.width == a.width
        &&& b.height == a.height
        &&& b.value@.len() == a.value@.len()
        &&& forall|x: int| 0 <= x < b.value@.len() ==> crate::ai::noisy(
            dif,
            crate::ai::evaluated(g, a.strategy)[x] as int,
            #[trigger] b.value@[x] as int,
        )
    }
}

/// Building keeps the shape of the map and which tiles are inhabitable.
proof fn lemma_builds_mask(k: King, g0: Grid, gold0: [i64; MAX_PLAYER], g1: Grid, gold1: [i64; MAX_PLAYER], r: bool)
    requires
        g0.wf(),
        crate::ai::builds(k, g0, gold0, g1, gold1, r),
    ensures
        crate::flags::same_mask(g0, g1),
{
    let b = crate::ai::pick_from(k, g0, gold0, 0, -1, 0);
    if b != -1 && r {
        let c = (b / g0.height as int, b % g0.height as int);
        let x = spec_idx(g0.height as int, c.0, c.1);
        crate::grid::lemma_idx(g0.width as int, g0.height as int, c.0, c.1);
        assert forall|q: int| 0 <= q < g0.tiles@.len() implies crate::types::spec_is_inhabitable(
            #[trigger] g0.tiles@[q].cl) == crate::types::spec_is_inhabitable(g1.tiles@[q].cl) by {
            if q == x {
                assert(g1.tiles@[q].cl == upgraded(g0.tiles@[q].cl));
            }
        }
    }
}

/// The first king from `i` on that plays `pl`, if any.
fn find_king(ks: &Vec<King>, pl: PlayerId) -> (r: usize)
    requires
        exists|q: int| 0 <= q < ks@.len() && #[trigger] ks@[q].pl == pl,
    ensures
        r as int == first_king_from(ks@, pl, 0),
        r < ks@.len(),
{
    let mut i: usize = 0;
    while i < ks.len()
        invariant
            i <= ks@.len(),
            first_king_from(ks@, pl, i as int) == first_king_from(ks@, pl, 0),
            forall|q: int| 0 <= q < i ==> #[trigger] ks@[q].pl != pl,
        decreases ks@.len() - i,
    {
        if ks[i].pl == pl {
            return i;
        }
        i += 1;
    }
    i
}

impl State {
    /// `kings_move`: every king in turn places its flags and builds (see
    /// `kings_moved`); if any of them built, every king re-evaluates the
    /// map (see `reevaluated`).
    pub fn kings_move(&mut self)
        requires
            old(self).wf(),
        ensures
            final(self).wf(),
            exists|g1: Grid, gold1: [i64; MAX_PLAYER], any: bool| #[trigger] kings_moved(
                old(self).kings@,
                old(self).grid,
                old(self).gold,
                flag_views(old(self).flags),
                g1,
                gold1,
                flag_views(final(self).flags),
                any,
            ) && g1 == final(self).grid && gold1 == final(self).gold
                && if any { reevaluated(old(self).kings@, g1, old(self).dif, final(self).kings@) }
                else { final(self).kings@ == old(self).kings@ },
            forall|p: int| 0 <= p < MAX_PLAYER ==> #[trigger] final(self).gold[p] <= old(self).gold[p],
            final(self).timeline == old(self).timeline,
            final(self).show_timeline == old(self).show_timeline,
            final(self).time == old(self).time,
            final(self).map_seed == old(self).map_seed,
            final(self).controlled == old(self).controlled,
            final(self).conditions == old(self).conditions,
            final(self).inequality == old(self).inequality,
            final(self).speed == old(self).speed,
            final(self).prev_speed == old(self).prev_speed,
            final(self).dif == old(self).dif,
    {
        let nk: usize = self.kings.len();
        let ghost ks = self.kings@;
        let mut any_built = false;
        let ghost mut grids: Seq<Grid> = seq![self.grid];
        let ghost mut golds: Seq<[i64; MAX_PLAYER]> = seq![self.gold];
        let ghost mut fs: Seq<Seq<FlagGridView>> = seq![flag_views(self.flags)];
        let ghost mut builts: Seq<bool> = seq![];
        let mut q: usize = 0;
        while q < nk
            invariant
                q <= nk,
                nk == ks.len(),
                self.kings@ == ks,
                self.wf(),
                grids.len() == q + 1,
                golds.len() == q + 1,
                fs.len() == q + 1,
                builts.len() == q,
                grids[0] == old(self).grid,
                golds[0] == old(self).gold,
                fs[0] == flag_views(old(self).flags),
                grids[q as int] == self.grid,
                golds[q as int] == self.gold,
                fs[q as int] == flag_views(self.flags),
                forall|r: int| 0 <= r < q ==> #[trigger] king_turn(
                    ks, r, grids[r], golds[r], fs[r], grids[r + 1], golds[r + 1], fs[r + 1], builts[r]),
                any_built == exists|r: int| 0 <= r < q && #[trigger] builts[r],
                forall|p: int| 0 <= p < MAX_PLAYER ==> #[trigger] self.gold[p] <= old(self).gold[p],
                self.timeline == old(self).timeline,
                self.show_timeline == old(self).show_timeline,
                self.time == old(self).time,
                self.map_seed == old(self).map_seed,
                self.controlled == old(self).controlled,
                self.conditions == old(self).conditions,
                self.inequality == old(self).inequality,
                self.speed == old(self).speed,
                self.prev_speed == old(self).prev_speed,
                self.dif == old(self).dif,
            decreases nk - q,
        {
            let pl = self.kings[q].pl;
            proof { assert(ks[q as int].pl == pl); }
            let f = find_king(&self.kings, pl);
            let pidx: usize = pl.index();
            proof {
                assert(self.kings@[f as int].fits(self.grid));
                assert(self.kings@[q as int].fits(self.grid));
                crate::ai::lemma_flags_ok_room(self.grid, self.flags[pidx as int]@);
                crate::ai::lemma_placed_ok(self.kings@[f as int], self.grid, self.flags[pidx as int]@);
            }
            let ghost g0 = self.grid;
            let ghost gold0 = self.gold;
            let ghost f0 = flag_views(self.flags);
            let mut fg = self.flags[pidx].duplicate();
            self.kings[f].place_flags(&self.grid, &mut fg);
            self.put_flags(pidx, fg);
            let ghost f1 = flag_views(self.flags);
            proof {
                assert(f1 =~= f0.update(pidx as int, crate::ai::placed(ks[f as int], g0, f0[pidx as int])));
            }
            let b = crate::ai::builder_default(&self.kings[f], &mut self.grid, &mut self.gold);
            proof {
                lemma_builds_mask(ks[f as int], g0, gold0, self.grid, self.gold, b);
                assert forall|p: int| 0 <= p < MAX_PLAYER implies #[trigger] self.gold[p] <= old(self).gold[p] by {
                    assert(gold0[p] <= old(self).gold[p]);
                    crate::ai::lemma_builds_gold(ks[f as int], g0, gold0, self.grid, self.gold, b, p);
                }
                assert forall|p: int| 0 <= p < MAX_PLAYER implies flags_ok(self.grid, #[trigger] self.flags[p]@) by {
                    crate::flags::lemma_flags_ok_mask(g0, self.grid, self.flags[p]@);
                }
                assert forall|r: int| 0 <= r < self.kings@.len() implies (#[trigger] self.kings@[r]).fits(self.grid) by {
                    assert(self.kings@[r].fits(g0));
                }
                assert(king_turn(ks, q as int, g0, gold0, f0, self.grid, self.gold, f1, b));
                let ghost bo = builts;
                grids = grids.push(self.grid);
                golds = golds.push(self.gold);
                fs = fs.push(f1);
                builts = builts.push(b);
                assert forall|r: int| 0 <= r < q implies #[trigger] builts[r] == bo[r] by {}
                if b {
                    assert(builts[q as int]);
                    assert(exists|r: int| 0 <= r < q + 1 && #[trigger] builts[r]);
                } else {
                    if any_built {
                        let w = choose|r: int| 0 <= r < q && #[trigger] bo[r];
                        assert(builts[w]);
                        assert(exists|r: int| 0 <= r < q + 1 && #[trigger] builts[r]);
                    } else {
                        assert forall|r: int| 0 <= r < q + 1 implies !#[trigger] builts[r] by {
                            if r < q {
                                assert(!bo[r]);
                            }
                        }
                    }
                }
                assert forall|r: int| 0 <= r < q + 1 implies #[trigger] king_turn(
                    ks, r, grids[r], golds[r], fs[r], grids[r + 1], golds[r + 1], fs[r + 1], builts[r]) by {
                    if r < q {
                        assert(king_turn(ks, r, grids[r], golds[r], fs[r], grids[r + 1], golds[r + 1], fs[r + 1], builts[r]));
                    }
                }
            }
            if b {
                any_built = true;
            }
            q += 1;
        }
        proof {
            assert(turns(ks, grids, golds, fs, builts));
            assert(kings_moved(ks, old(self).grid, old(self).gold, flag_views(old(self).flags),
                self.grid, self.gold, flag_views(self.flags), any_built));
        }
        let ghost pre = *self;
        if any_built {
            let ghost g = self.grid;
            let mut rest: Vec<King> = Vec::new();
            std::mem::swap(&mut rest, &mut self.kings);
            let mut out: Vec<King> = Vec::new();
            let mut r: usize = 0;
            while r < nk
                invariant
                    r <= nk,
                    nk == ks.len(),
                    rest@ == ks.skip(r as int),
                    out@.len() == r,
                    self.grid == g,
                    g.wf(),
                    forall|x: int| 0 <= x < ks.len() ==> (#[trigger] ks[x]).fits(g),
                    reevaluated(ks.take(r as int), g, self.dif, out@),
                    forall|x: int| 0 <= x < r ==> (#[trigger] out@[x]).fits(g),
                    self.flags == pre.flags,
                    self.gold == pre.gold,
                    forall|p: int| 0 <= p < MAX_PLAYER ==> #[trigger] self.gold[p] <= old(self).gold[p],
                    self.timeline == pre.timeline,
                    self.show_timeline == pre.show_timeline,
                    self.time == pre.time,
                    self.map_seed == pre.map_seed,
                    self.controlled == pre.controlled,
                    self.conditions == pre.conditions,
                    self.inequality == pre.inequality,
                    self.speed == pre.speed,
                    self.prev_speed == pre.prev_speed,
                    self.dif == pre.dif,
                decreases nk - r,
            {
                let mut k = rest.remove(0);
                proof { assert(k == ks[r as int]); }
                k.evaluate_map(&self.grid, self.dif, &mut self.rng);
                out.push(k);
                proof {
                    assert(rest@ =~= ks.skip(r + 1));
                    assert forall|x: int| 0 <= x < r + 1 implies {
                        let a = #[trigger] ks.take(r + 1)[x];
                        let b = out@[x];
                        &&& b.pl == a.pl
                        &&& b.strategy == a.strategy
                        &&& b.width == a.width
                        &&& b.height == a.height
                        &&& b.value@.len() == a.value@.len()
                        &&& forall|y: int| 0 <= y < b.value@.len() ==> crate::ai::noisy(
                            self.dif,
                            crate::ai::evaluated(g, a.strategy)[y] as int,
                            #[trigger] b.value@[y] as int,
                        )
                    } by {
                        if x < r {
                            assert(ks.take(r + 1)[x] == ks.take(r as int)[x]);
                        }
                    }
                }
                r += 1;
            }
            self.kings = out;
            proof {
                assert(ks.take(nk as int) =~= ks);
            }
        }
        proof {
            assert(flag_views(self.flags) == flag_views(pre.flags));
            assert(kings_moved(ks, old(self).grid, old(self).gold, flag_views(old(self).flags),
                self.grid, self.gold, flag_views(self.flags), any_built));
        }
    }
}

/// What one simulation step keeps (see `simulate_one_step`): the shape of
/// the map; tiles only burn one level; gold never falls and grows by at
/// most 1162.
pub open spec fn sim_stepped(g0: Grid, gold0: [i64; MAX_PLAYER], g1: Grid, gold1: [i64; MAX_PLAYER]) -> bool {
    &&& g1.wf()
    &&& g1.width == g0.width
    &&& g1.height == g0.height
    &&& forall|k: int| 0 <= k < g0.tiles@.len() ==> crate::sim::class_step(g0.tiles@[k].cl, #[trigger] g1.tiles@[k].cl)
    &&& forall|p: int| 0 <= p < MAX_PLAYER ==> gold0[p] <= #[trigger] gold1[p] <= gold0[p] + 1162
}

/// A simulation step keeps the shape of the map and which tiles are
/// inhabitable.
proof fn lemma_sim_mask(g0: Grid, gold0: [i64; MAX_PLAYER], g1: Grid, gold1: [i64; MAX_PLAYER])
    requires
        g0.wf(),
        sim_stepped(g0, gold0, g1, gold1),
    ensures
        crate::flags::same_mask(g0, g1),
{
    assert forall|k: int| 0 <= k < g0.tiles@.len() implies crate::types::spec_is_inhabitable(
        #[trigger] g0.tiles@[k].cl) == crate::types::spec_is_inhabitable(g1.tiles@[k].cl) by {
        assert(crate::sim::class_step(g0.tiles@[k].cl, g1.tiles@[k].cl));
    }
}

/// What `step` does (see its description): the state `s1` after one
/// step from `s0`.
pub open spec fn stepped(s0: State, s1: State) -> bool {
    &&& exists|g1: Grid, gold1: [i64; MAX_PLAYER], any: bool|
        #[trigger] kings_moved(s0.kings@, s0.grid, s0.gold, flag_views(s0.flags), g1, gold1, flag_views(s1.flags), any)
            && crate::sim::sim_step(g1, gold1, s1.grid, s1.gold, s1.flags, s0.controlled, s0.dif)
            && sim_stepped(g1, gold1, s1.grid, s1.gold)
            && if any { reevaluated(s0.kings@, g1, s0.dif, s1.kings@) } else { s1.kings@ == s0.kings@ }
    &&& s1.time == (if s0.time == u64::MAX { 0 } else { s0.time + 1 })
    &&& if s0.show_timeline && s1.time % 10 == 0 {
            timeline_after(s0.timeline, s1.time, s1.grid.tiles@, s1.timeline)
        } else {
            s1.timeline == s0.timeline
        }
    &&& s1.show_timeline == s0.show_timeline
    &&& s1.map_seed == s0.map_seed
    &&& s1.controlled == s0.controlled
    &&& s1.conditions == s0.conditions
    &&& s1.inequality == s0.inequality
    &&& s1.speed == s0.speed
    &&& s1.prev_speed == s0.prev_speed
    &&& s1.dif == s0.dif
}

impl State {
    /// `step`: one simulation step of the game. The kings move
    /// (`kings_move`), the map is simulated (`sim_step`), the clock
    /// advances by one (wrapping), and with the timeline shown every tenth
    /// step records the populations (`timeline_after`).
    pub fn step(&mut self)
        requires
            old(self).wf(),
            forall|p: int| 0 <= p < MAX_PLAYER ==> #[trigger] old(self).gold[p] <= i64::MAX - 2000,
            old(self).timeline.mark < i32::MAX,
        ensures
            final(self).wf(),
            stepped(*old(self), *final(self)),
    {
        self.kings_move();
        let ghost g1 = self.grid;
        let ghost gold1 = self.gold;
        let ghost any = choose|any: bool| #[trigger] kings_moved(
            old(self).kings@, old(self).grid, old(self).gold, flag_views(old(self).flags),
            g1, gold1, flag_views(self.flags), any)
            && if any { reevaluated(old(self).kings@, g1, old(self).dif, self.kings@) }
            else { self.kings@ == old(self).kings@ };
        proof {
            assert forall|p: int| 0 <= p < MAX_PLAYER implies crate::flags::fits(self.grid, #[trigger] self.flags[p]@) by {
                assert(flags_ok(self.grid, self.flags[p]@));
            }
        }
        crate::sim::simulate_one_step(&mut self.grid, &mut self.gold, &self.flags, self.controlled, self.dif, &mut self.rng);
        proof {
            assert(sim_stepped(g1, gold1, self.grid, self.gold));
            assert(crate::sim::sim_step(g1, gold1, self.grid, self.gold, self.flags, self.controlled, self.dif));
            lemma_sim_mask(g1, gold1, self.grid, self.gold);
            assert forall|p: int| 0 <= p < MAX_PLAYER implies flags_ok(self.grid, #[trigger] self.flags[p]@) by {
                crate::flags::lemma_flags_ok_mask(g1, self.grid, self.flags[p]@);
            }
            assert forall|q: int| 0 <= q < self.kings@.len() implies (#[trigger] self.kings@[q]).fits(self.grid) by {
                assert(self.kings@[q].fits(g1));
            }
        }
        let ghost mid = *self;
        proof {
            assert(kings_moved(old(self).kings@, old(self).grid, old(self).gold, flag_views(old(self).flags),
                g1, gold1, flag_views(self.flags), any));
        }
        self.time = self.time.wrapping_add(1);
        if self.show_timeline && self.time % 10 == 0 {
            self.update_timeline();
        }
        proof {
            assert(self.flags == mid.flags);
            assert(self.kings == mid.kings);
            assert(kings_moved(old(self).kings@, old(self).grid, old(self).gold, flag_views(old(self).flags),
                g1, gold1, flag_views(self.flags), any));
        }
    }
}

/// The kings a new game starts with: one for each computer player 2..=7,
/// in that order, with its default strategy and a value map of the
/// difficulty `dif` on `g` (see `evaluate_map`).
pub open spec fn initial_kings(ks: Seq<King>, g: Grid, dif: Difficulty) -> bool {
    &&& ks.len() == 6
    &&& forall|q: int| 0 <= q < 6 ==> {
        let k = #[trigger] ks[q];
        &&& k.pl.0 == q + 2
        &&& crate::ai::spec_default_strategy(k.pl) == Some(k.strategy)
        &&& k.fits(g)
        &&& forall|x: int| 0 <= x < k.value@.len() ==> crate::ai::noisy(
            dif,
            crate::ai::evaluated(g, k.strategy)[x] as int,
            #[trigger] k.value@[x] as int,
        )
    }
}

/// The starting locations of a stencil lie near the map.
proof fn lemma_stencil_locs_small(shape: Shape, w: int, h: int)
    requires
        0 <= w <= 40,
        0 <= h <= 29,
    ensures
        forall|k: int| 0 <= k < crate::grid::stencil_locs(shape, w, h).len() ==>
            -100 <= (#[trigger] crate::grid::stencil_locs(shape, w, h)[k]).0 <= 100
            && -100 <= crate::grid::stencil_locs(shape, w, h)[k].1 <= 100,
        crate::grid::stencil_locs(shape, w, h).len() >= 4,
{
}

/// The number of starting locations a placement uses: `loc_num` limited to
/// `2..=n` for `n` candidates.
pub open spec fn clamped_locs(loc_num: int, n: int) -> int {
    if loc_num < 2 { 2 } else if loc_num > n { n } else { loc_num }
}

/// One placement attempt on a `w` by `h` map went through the random
/// terrain `terrain` (every tile `generated_tile`), the same map `carved`
/// by the stencil of `shape`, and the placement `cfg` of the stencil's
/// candidates (`ranked_via`, or wiped when the players are too few), which
/// answered `placed` and left `g1`; `r` says whether it succeeded and the
/// owned tiles of `g1` are connected.
pub open spec fn attempt_via<F: Fn(&Grid, &Vec<Loc>, i32) -> Option<Vec<usize>>>(
    w: int,
    h: int,
    rank: F,
    shape: Shape,
    comp: Seq<PlayerId>,
    ui: Seq<PlayerId>,
    loc_num: int,
    conditions: int,
    inequality: int,
    terrain: Grid,
    carved: Grid,
    cfg: crate::grid::ConflictConfig,
    placed: Result<(), ()>,
    r: bool,
    g1: Grid,
) -> bool {
    let locs = crate::grid::to_locs(crate::grid::stencil_locs(shape, w, h));
    let players = comp.len() + ui.len();
    &&& terrain.width == w && terrain.height == h && terrain.tiles@.len() == w * h
    &&& forall|k: int| 0 <= k < w * h ==> crate::grid::generated_tile(#[trigger] terrain.tiles@[k])
    &&& carved.width == w && carved.height == h && carved.tiles@.len() == w * h
    &&& forall|a: int, b: int| carved.in_map(a, b) ==> #[trigger] carved.tile(a, b) == if crate::grid::stencil_cut(
        shape, w, h, a, b) {
        Tile { cl: crate::types::TileClass::Abyss, pl: PlayerId(0), pop: [0i32; MAX_PLAYER] }
    } else {
        terrain.tile(a, b)
    }
    &&& cfg.loc_arr@ == locs
    &&& cfg.comp_players@ == comp
    &&& cfg.ui_players@ == ui
    &&& cfg.loc_num == clamped_locs(loc_num, locs.len() as int)
    &&& cfg.conditions == conditions
    &&& cfg.inequality == inequality
    &&& crate::grid::used_loc_num(cfg.loc_num as int, locs.len() as int) > players ==> placed is Err
        && g1.tiles@ == carved.tiles@.map_values(|t: Tile| crate::grid::wiped(t))
    &&& crate::grid::used_loc_num(cfg.loc_num as int, locs.len() as int) <= players ==> exists|
        mg: Grid,
        chosen: Vec<Loc>,
        res: Option<Vec<usize>>,
    | #[trigger] crate::grid::ranked_via(carved, rank, cfg, mg, chosen, res, placed, g1)
    &&& g1.width == w && g1.height == h
    &&& r == (placed is Ok && crate::grid::connected(g1))
}

/// One placement attempt on a `w` by `h` map (see `attempt_via`) left the
/// map `g1` and the answer `r`.
pub open spec fn attempt_made<F: Fn(&Grid, &Vec<Loc>, i32) -> Option<Vec<usize>>>(
    w: int,
    h: int,
    rank: F,
    shape: Shape,
    comp: Seq<PlayerId>,
    ui: Seq<PlayerId>,
    loc_num: int,
    conditions: int,
    inequality: int,
    r: bool,
    g1: Grid,
) -> bool {
    exists|terrain: Grid, carved: Grid, cfg: crate::grid::ConflictConfig, placed: Result<(), ()>| #[trigger] attempt_via(
        w, h, rank, shape, comp, ui, loc_num, conditions, inequality, terrain, carved, cfg, placed, r, g1)
}

/// A requested map dimension `d`, limited to `max`.
pub open spec fn clamp_dim(d: int, max: int) -> int {
    if d < max { d } else { max }
}

/// The computer players of a new game.
pub open spec fn comp_players() -> Seq<PlayerId> {
    seq![PlayerId(2), PlayerId(3), PlayerId(4), PlayerId(5), PlayerId(6), PlayerId(7)]
}

/// `g` is a map that a successful placement attempt made for the options
/// `op`: all seven players, or `op.loc_num` starts, and `op.inequality`,
/// unless `op.keep_random` asks for all players and no inequality.
pub open spec fn first_map<F: Fn(&Grid, &Vec<Loc>, i32) -> Option<Vec<usize>>>(op: &GameOptions, rank: F, g: Grid) -> bool {
    attempt_made(
        clamp_dim(op.w as int, 40),
        clamp_dim(op.h as int, 29),
        rank,
        op.shape,
        comp_players(),
        seq![PlayerId(1)],
        if op.keep_random { 7 } else { op.loc_num as int },
        op.conditions as int,
        if op.keep_random { -1 } else { op.inequality as int },
        true,
        g,
    )
}

/// `g` is a map that a fallback placement attempt made for the options
/// `op` (all seven players, random conditions, no inequality), whether it
/// succeeded or not.
pub open spec fn fallback_map<F: Fn(&Grid, &Vec<Loc>, i32) -> Option<Vec<usize>>>(op: &GameOptions, rank: F, g: Grid) -> bool {
    exists|r: bool| #[trigger] attempt_made(
        clamp_dim(op.w as int, 40),
        clamp_dim(op.h as int, 29),
        rank,
        op.shape,
        comp_players(),
        seq![PlayerId(1)],
        7,
        0,
        -1,
        r,
        g,
    )
}

impl State {
    /// Runs one placement attempt: random terrain, the stencil of `shape`,
    /// and the starting locations; true when the placement succeeded and
    /// the owned tiles are connected.
    fn try_map<F>(
        grid: &mut Grid,
        rng: &mut CowRng,
        shape: Shape,
        comp: &Vec<PlayerId>,
        ui: &Vec<PlayerId>,
        loc_num: usize,
        conditions: i32,
        inequality: i32,
        rank: &F,
    ) -> (r: bool)
        where
            F: Fn(&Grid, &Vec<Loc>, i32) -> Option<Vec<usize>>,
        requires
            old(grid).wf(),
            comp@.len() == 6,
            ui@.len() == 1,
            crate::grid::valid_players(comp@),
            crate::grid::valid_players(ui@),
            forall|g: &Grid, c: &Vec<Loc>, q: i32| rank.requires((g, c, q)),
        ensures
            final(grid).wf(),
            final(grid).width == old(grid).width,
            final(grid).height == old(grid).height,
            attempt_made(old(grid).width as int, old(grid).height as int, *rank, shape, comp@, ui@,
                loc_num as int, conditions as int, inequality as int, r, *final(grid)),
    {
        grid.generate_random_terrain(rng);
        let ghost terrain = *grid;
        let locs = grid.apply_stencil(shape);
        let ghost carved = *grid;
        proof {
            lemma_stencil_locs_small(shape, grid.width as int, grid.height as int);
            assert forall|k: int| 0 <= k < locs@.len() implies crate::grid::start_room(#[trigger] locs@[k]) by {
                let c = crate::grid::stencil_locs(shape, grid.width as int, grid.height as int)[k];
                assert(-100 <= c.0 <= 100 && -100 <= c.1 <= 100);
            }
        }
        let n = locs.len();
        let ln: usize = if loc_num < 2 { 2 } else if loc_num > n { n } else { loc_num };
        let cfg = crate::grid::ConflictConfig::new(locs.as_slice(), comp.as_slice(), ui.as_slice(), ln, conditions, inequality);
        let placed = grid.apply_conflict(rng, &cfg, rank);
        let r = match placed {
            Ok(()) => grid.is_connected(),
            Err(()) => false,
        };
        proof {
            assert(attempt_via(carved.width as int, carved.height as int, *rank, shape, comp@, ui@,
                loc_num as int, conditions as int, inequality as int, terrain, carved, cfg, placed, r, *grid));
        }
        r
    }

    /// `State::new`: a new game. The start date is drawn from a generator
    /// seeded with `clock_seed`, which the program takes from system
    /// entropy (a year in 1850..1950 and a day of it); everything after is
    /// drawn from a generator seeded with `op.map_seed`: up to 200 attempts
    /// at a map that `rank` accepts and whose owned tiles are connected
    /// (`first_map`), then up to 50 more with random conditions and no
    /// inequality constraint, the last of which stands (`fallback_map`).
    /// The kings start as `initial_kings` says; there is no gold and no
    /// flag yet, and the timeline is empty with every slot at the start
    /// date.
    pub fn new<F>(op: &GameOptions, rank: &F, clock_seed: u32) -> (s: State)
        where
            F: Fn(&Grid, &Vec<Loc>, i32) -> Option<Vec<usize>>,
        requires
            forall|g: &Grid, c: &Vec<Loc>, q: i32| rank.requires((g, c, q)),
        ensures
            s.wf(),
            1850 * 360 <= s.time < 1950 * 360,
            s.grid.width == if op.w < 40 { op.w } else { 40 },
            s.grid.height == if op.h < 29 { op.h } else { 29 },
            initial_kings(s.kings@, s.grid, op.dif),
            forall|p: int| 0 <= p < MAX_PLAYER ==> #[trigger] s.gold[p] == 0,
            forall|p: int| 0 <= p < MAX_PLAYER ==> {
                &&& forall|x: int| 0 <= x < (#[trigger] s.flags[p]@).flag.len() ==> !s.flags[p]@.flag[x]
                &&& forall|x: int| 0 <= x < s.flags[p]@.call.len() ==> s.flags[p]@.call[x] == 0
            },
            first_map(op, *rank, s.grid) || fallback_map(op, *rank, s.grid),
            s.timeline.mark == -1,
            ledger_ok(s),
            forall|k: int| 0 <= k < MAX_TIMELINE_MARK ==> #[trigger] s.timeline.time[k] == s.time,
            forall|p: int, k: int| 0 <= p < MAX_PLAYER && 0 <= k < MAX_TIMELINE_MARK ==> #[trigger] s.timeline.data[p][k] == 0,
            s.show_timeline == op.timeline,
            s.map_seed == op.map_seed,
            s.controlled.0 == 1,
            s.conditions == op.conditions,
            s.inequality == op.inequality,
            s.speed == op.speed,
            s.prev_speed == op.speed,
            s.dif == op.dif,
    {
        let mut clock = CowRng::from_seed(clock_seed);
        let start_year: u64 = 1850 + clock.below(100) as u64;
        let start_day: u64 = clock.below(360) as u64;
        let time0: u64 = start_year * 360 + start_day;
        let mut rng = CowRng::from_seed(op.map_seed);
        let w: usize = if op.w < 40 { op.w } else { 40 };
        let h: usize = if op.h < 29 { op.h } else { 29 };
        let mut grid = Grid::empty(w, h);
        let controlled = PlayerId(1);
        let comp: Vec<PlayerId> = vec![PlayerId(2), PlayerId(3), PlayerId(4), PlayerId(5), PlayerId(6), PlayerId(7)];
        let ui: Vec<PlayerId> = vec![controlled];
        let mut succeeded = false;
        let mut attempt: usize = 0;
        while attempt < 200
            invariant_except_break
                !succeeded,
            invariant
                grid.wf(),
                grid.width == w,
                grid.height == h,
                w == clamp_dim(op.w as int, 40),
                h == clamp_dim(op.h as int, 29),
                comp@ == seq![PlayerId(2), PlayerId(3), PlayerId(4), PlayerId(5), PlayerId(6), PlayerId(7)],
                ui@ == seq![PlayerId(1)],
                forall|g: &Grid, c: &Vec<Loc>, q: i32| rank.requires((g, c, q)),
            ensures
                grid.wf(),
                grid.width == w,
                grid.height == h,
                succeeded ==> first_map(op, *rank, grid),
            decreases 200 - attempt,
        {
            let loc_num: usize = if op.keep_random { comp.len() + 1 } else { op.loc_num };
            let inequality: i32 = if op.keep_random { -1 } else { op.inequality };
            if Self::try_map(&mut grid, &mut rng, op.shape, &comp, &ui, loc_num, op.conditions, inequality, rank) {
                proof {
                    assert(comp@ == comp_players());
                    assert(attempt_made(clamp_dim(op.w as int, 40), clamp_dim(op.h as int, 29), *rank, op.shape,
                        comp_players(), seq![PlayerId(1)], if op.keep_random { 7 } else { op.loc_num as int },
                        op.conditions as int, if op.keep_random { -1 } else { op.inequality as int }, true, grid));
                }
                succeeded = true;
                break;
            }
            attempt += 1;
        }
        if !succeeded {
            let mut attempt: usize = 0;
            while attempt < 50
                invariant
                    grid.wf(),
                    grid.width == w,
                    grid.height == h,
                    w == clamp_dim(op.w as int, 40),
                    h == clamp_dim(op.h as int, 29),
                    comp@ == seq![PlayerId(2), PlayerId(3), PlayerId(4), PlayerId(5), PlayerId(6), PlayerId(7)],
                    ui@ == seq![PlayerId(1)],
                    forall|g: &Grid, c: &Vec<Loc>, q: i32| rank.requires((g, c, q)),
                    attempt > 0 ==> fallback_map(op, *rank, grid),
                ensures
                    grid.wf(),
                    grid.width == w,
                    grid.height == h,
                    fallback_map(op, *rank, grid),
                decreases 50 - attempt,
            {
                let found = Self::try_map(&mut grid, &mut rng, op.shape, &comp, &ui, comp.len() + 1, 0, -1, rank);
                proof {
                    assert(comp@ == comp_players());
                    assert(attempt_made(clamp_dim(op.w as int, 40), clamp_dim(op.h as int, 29), *rank, op.shape,
                        comp_players(), seq![PlayerId(1)], 7, 0, -1, found, grid));
                }
                if found {
                    break;
                }
                attempt += 1;
            }
        }
        let flags: [FlagGrid; MAX_PLAYER] = [
            FlagGrid::new(grid.width, grid.height),
            FlagGrid::new(grid.width, grid.height),
            FlagGrid::new(grid.width, grid.height),
            FlagGrid::new(grid.width, grid.height),
            FlagGrid::new(grid.width, grid.height),
            FlagGrid::new(grid.width, grid.height),
            FlagGrid::new(grid.width, grid.height),
            FlagGrid::new(grid.width, grid.height),
        ];
        let mut kings: Vec<King> = Vec::new();
        let mut q: usize = 0;
        while q < 6
            invariant
                q <= 6,
                grid.wf(),
                grid.width == w,
                grid.height == h,
                comp@ == seq![PlayerId(2), PlayerId(3), PlayerId(4), PlayerId(5), PlayerId(6), PlayerId(7)],
                kings@.len() == q,
                forall|r: int| 0 <= r < q ==> {
                    let k = #[trigger] kings@[r];
                    &&& k.pl.0 == r + 2
                    &&& crate::ai::spec_default_strategy(k.pl) == Some(k.strategy)
                    &&& k.fits(grid)
                    &&& forall|x: int| 0 <= x < k.value@.len() ==> crate::ai::noisy(
                        op.dif,
                        crate::ai::evaluated(grid, k.strategy)[x] as int,
                        #[trigger] k.value@[x] as int,
                    )
                },
            decreases 6 - q,
        {
            let pl = comp[q];
            let strategy = match crate::ai::default_strategy(pl) {
                Some(st) => st,
                None => crate::ai::Strategy::Idle,
            };
            let mut k = King::new_clamped(pl, strategy, grid.width, grid.height);
            proof { lemma_area(grid.width as int, grid.height as int); }
            k.evaluate_map(&grid, op.dif, &mut rng);
            kings.push(k);
            q += 1;
        }
        let mut timeline = Timeline::default();
        let mut k: usize = 0;
        while k < MAX_TIMELINE_MARK
            invariant
                k <= MAX_TIMELINE_MARK,
                timeline.mark == -1,
                forall|r: int| 0 <= r < k ==> #[trigger] timeline.time[r] == time0,
                forall|p: int, r: int| 0 <= p < MAX_PLAYER && 0 <= r < MAX_TIMELINE_MARK ==> #[trigger] timeline.data[p][r] == 0,
            decreases MAX_TIMELINE_MARK - k,
        {
            timeline.time[k] = time0;
            k += 1;
        }
        let s = State {
            grid,
            flags,
            kings,
            gold: [0i64; 8],
            timeline,
            show_timeline: op.timeline,
            time: time0,
            map_seed: op.map_seed,
            controlled,
            conditions: op.conditions,
            inequality: op.inequality,
            speed: op.speed,
            prev_speed: op.speed,
            dif: op.dif,
            rng,
        };
        proof {
            assert forall|p: int| 0 <= p < MAX_PLAYER implies flags_ok(s.grid, #[trigger] s.flags[p]@) by {
                crate::flags::lemma_new_flags_ok(s.grid, s.flags[p]@);
            }
            assert forall|q: int| 0 <= q < s.kings@.len() implies (#[trigger] s.kings@[q]).fits(s.grid) by {
                assert(s.kings@[q].fits(s.grid));
            }
        }
        s
    }
}

/// What every reachable state keeps: nobody's gold is negative, and the
/// timeline mark is `-1` (nothing recorded yet) or a slot of the buffer.
pub open spec fn ledger_ok(s: State) -> bool {
    &&& forall|p: int| 0 <= p < MAX_PLAYER ==> 0 <= #[trigger] s.gold[p]
    &&& -1 <= s.timeline.mark < MAX_TIMELINE_MARK
}

/// The first king from `i` on that plays the player of the king at `q`
/// (for `i <= q`) stands between `i` and `q`.
proof fn lemma_first_king_found(ks: Seq<King>, q: int, i: int)
    requires
        0 <= i <= q < ks.len(),
    ensures
        i <= first_king_from(ks, ks[q].pl, i) <= q,
        ks[first_king_from(ks, ks[q].pl, i)].pl == ks[q].pl,
    decreases q - i,
{
    if ks[i].pl != ks[q].pl {
        lemma_first_king_found(ks, q, i + 1);
    }
}

/// Over the kings' turns `0..n`, nobody's gold becomes negative.
proof fn lemma_turns_gold(
    ks: Seq<King>,
    grids: Seq<Grid>,
    golds: Seq<[i64; MAX_PLAYER]>,
    fs: Seq<Seq<FlagGridView>>,
    builts: Seq<bool>,
    n: int,
)
    requires
        turns(ks, grids, golds, fs, builts),
        0 <= n <= ks.len(),
        forall|q: int| 0 <= q < ks.len() ==> (#[trigger] ks[q]).pl.0 < MAX_PLAYER,
        forall|p: int| 0 <= p < MAX_PLAYER ==> 0 <= #[trigger] golds[0][p],
    ensures
        forall|p: int| 0 <= p < MAX_PLAYER ==> 0 <= #[trigger] golds[n][p],
    decreases n,
{
    if n > 0 {
        lemma_turns_gold(ks, grids, golds, fs, builts, n - 1);
        let q = n - 1;
        assert(king_turn(ks, q, grids[q], golds[q], fs[q], grids[q + 1], golds[q + 1], fs[q + 1], builts[q]));
        lemma_first_king_found(ks, q, 0);
        let k = acting_king(ks, q);
        assert(k.pl.0 < MAX_PLAYER) by {
            assert(ks[first_king_from(ks, ks[q].pl, 0)].pl.0 < MAX_PLAYER);
        }
        assert forall|p: int| 0 <= p < MAX_PLAYER implies 0 <= #[trigger] golds[n][p] by {
            assert(0 <= golds[q][p]);
            crate::ai::lemma_builds_gold(k, grids[q], golds[q], grids[q + 1], golds[q + 1], builts[q], p);
        }
    }
}

/// One step keeps what every reachable state keeps: the kings only build
/// what they can pay for, the simulation never lowers gold, and recording
/// the timeline keeps its mark in the buffer.
pub proof fn law_step_keeps_ledger(s0: State, s1: State)
    requires
        s0.wf(),
        ledger_ok(s0),
        stepped(s0, s1),
    ensures
        ledger_ok(s1),
{
    let (g1, gold1, any) = choose|g1: Grid, gold1: [i64; MAX_PLAYER], any: bool|
        #[trigger] kings_moved(s0.kings@, s0.grid, s0.gold, flag_views(s0.flags), g1, gold1, flag_views(s1.flags), any)
            && crate::sim::sim_step(g1, gold1, s1.grid, s1.gold, s1.flags, s0.controlled, s0.dif)
            && sim_stepped(g1, gold1, s1.grid, s1.gold)
            && if any { reevaluated(s0.kings@, g1, s0.dif, s1.kings@) } else { s1.kings@ == s0.kings@ };
    let (grids, golds, fs, builts) = choose|grids: Seq<Grid>, golds: Seq<[i64; MAX_PLAYER]>,
        fs: Seq<Seq<FlagGridView>>, builts: Seq<bool>|
        #[trigger] turns(s0.kings@, grids, golds, fs, builts)
            && grids[0] == s0.grid && golds[0] == s0.gold && fs[0] == flag_views(s0.flags)
            && grids[s0.kings@.len() as int] == g1 && golds[s0.kings@.len() as int] == gold1
            && fs[s0.kings@.len() as int] == flag_views(s1.flags)
            && any == exists|q: int| 0 <= q < s0.kings@.len() && #[trigger] builts[q];
    assert forall|q: int| 0 <= q < s0.kings@.len() implies (#[trigger] s0.kings@[q]).pl.0 < MAX_PLAYER by {
        assert(s0.kings@[q].fits(s0.grid));
    }
    lemma_turns_gold(s0.kings@, grids, golds, fs, builts, s0.kings@.len() as int);
    assert forall|p: int| 0 <= p < MAX_PLAYER implies 0 <= #[trigger] s1.gold[p] by {
        assert(0 <= gold1[p]);
        assert(gold1[p] <= s1.gold[p]);
    }
    if s0.show_timeline && s1.time % 10 == 0 {
        law_timeline_mark_in_range(s0.timeline, s1.time, s1.grid.tiles@, s1.timeline);
    }
}

/// Every action keeps what every reachable state keeps: a build is paid
/// only when the gold covers its price, and no action touches the
/// timeline.
pub proof fn law_apply_keeps_ledger(s0: State, a: Action, s1: State)
    requires
        s0.wf(),
        ledger_ok(s0),
        applied(s0, a, s1),
    ensures
        ledger_ok(s1),
{
    if a is BuildAtCursor {
        let l = a->BuildAtCursor_0;
        let pl = s0.controlled.0 as int;
        if can_build(s0.grid, s0.gold, pl, l.i as int, l.j as int) {
            let k = spec_idx(s0.grid.height as int, l.i as int, l.j as int);
            let t = s0.grid.tiles@[k];
            assert forall|p: int| 0 <= p < MAX_PLAYER implies 0 <= #[trigger] s1.gold[p] by {
                assert(s1.gold@ == s0.gold@.update(pl, (s0.gold[pl] - upgrade_price(t.cl)) as i64));
                assert(s1.gold[p] == s1.gold@[p]);
                assert(s0.gold[p] == s0.gold@[p]);
            }
        }
    }
}

} // verus!
