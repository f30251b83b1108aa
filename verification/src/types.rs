//! Core data types: player ids, tile coordinates, terrain classes, speeds,
//! difficulties, map shapes and game outcomes.
use vstd::prelude::*;
use crate::consts::{DIRECTIONS, MAX_PLAYER};

verus! {

/// A player id: 0 is neutral, 1..=7 are countries.
#[derive(Clone, Copy, PartialEq, Eq, Structural, Hash, Debug, Default)]
pub struct PlayerId(pub u8);

/// The neutral player (id 0).
pub fn neutral() -> (r: PlayerId)
    ensures
        r.0 == 0,
{
    PlayerId(0)
}

impl PlayerId {
    /// The id as an index into per-player arrays.
    pub fn index(self) -> (r: usize)
        ensures
            r == self.0,
    {
        self.0 as usize
    }

    /// True for non-neutral players (1..=7).
    pub fn is_country(self) -> (r: bool)
        ensures
            r == (1 <= self.0 && self.0 < MAX_PLAYER),
    {
        self.0 >= 1 && (self.0 as usize) < MAX_PLAYER
    }
}

/// Coordinate of a tile: column `i`, row `j`.
#[derive(Clone, Copy, PartialEq, Eq, Structural, Hash, Debug, Default)]
pub struct Loc {
    pub i: i16,
    pub j: i16,
}

impl Loc {
    /// Builds a coordinate.
    pub fn new(i: i16, j: i16) -> (r: Self)
        ensures
            r.i == i,
            r.j == j,
    {
        Loc { i, j }
    }
}

/// Column offset of the `k`-th neighbour direction of the hex grid.
pub open spec fn dir_i(k: int) -> int {
    if k == 0 { -1 }
    else if k == 1 { 1 }
    else if k == 2 { 0 }
    else if k == 3 { 0 }
    else if k == 4 { 1 }
    else { -1 }
}

/// Row offset of the `k`-th neighbour direction of the hex grid.
pub open spec fn dir_j(k: int) -> int {
    if k == 0 { 0 }
    else if k == 1 { 0 }
    else if k == 2 { -1 }
    else if k == 3 { 1 }
    else if k == 4 { -1 }
    else { 1 }
}

/// The `k`-th of the six neighbour offsets, in the fixed order
/// (-1,0), (1,0), (0,-1), (0,1), (1,-1), (-1,1).
pub fn dir(k: usize) -> (d: Loc)
    requires
        k < DIRECTIONS,
    ensures
        d.i == dir_i(k as int),
        d.j == dir_j(k as int),
{
    if k == 0 {
        Loc { i: -1, j: 0 }
    } else if k == 1 {
        Loc { i: 1, j: 0 }
    } else if k == 2 {
        Loc { i: 0, j: -1 }
    } else if k == 3 {
        Loc { i: 0, j: 1 }
    } else if k == 4 {
        Loc { i: 1, j: -1 }
    } else {
        Loc { i: -1, j: 1 }
    }
}

/// Tile terrain class.
#[derive(Clone, Copy, PartialEq, Eq, Structural, Hash, Debug)]
pub enum TileClass {
    Abyss,
    Mountain,
    Mine,
    Grassland,
    Village,
    Town,
    Castle,
}

/// Village, town and castle are cities.
pub open spec fn spec_is_city(c: TileClass) -> bool {
    c == TileClass::Village || c == TileClass::Town || c == TileClass::Castle
}

/// Grassland and cities can hold population.
pub open spec fn spec_is_inhabitable(c: TileClass) -> bool {
    c == TileClass::Grassland || spec_is_city(c)
}

/// Everything but the abyss is drawn on the map.
pub open spec fn spec_is_visible(c: TileClass) -> bool {
    c != TileClass::Abyss
}

impl TileClass {
    /// True for village, town and castle.
    pub fn is_city(self) -> (r: bool)
        ensures
            r == spec_is_city(self),
    {
        match self {
            TileClass::Village | TileClass::Town | TileClass::Castle => true,
            _ => false,
        }
    }

    /// True for grassland and cities.
    pub fn is_inhabitable(self) -> (r: bool)
        ensures
            r == spec_is_inhabitable(self),
    {
        match self {
            TileClass::Abyss | TileClass::Mountain | TileClass::Mine => false,
            _ => true,
        }
    }

    /// True for everything but the abyss.
    pub fn is_visible(self) -> (r: bool)
        ensures
            r == spec_is_visible(self),
    {
        match self {
            TileClass::Abyss => false,
            _ => true,
        }
    }
}

/// Game speed, from pause to fastest.
#[derive(Clone, Copy, PartialEq, Eq, Structural, Hash, Debug)]
pub enum Speed {
    Pause,
    Slowest,
    Slower,
    Slow,
    Normal,
    Fast,
    Faster,
    Fastest,
}

/// Position of a speed on the scale, 0 for pause up to 7 for fastest.
pub open spec fn speed_rank(s: Speed) -> int {
    match s {
        Speed::Pause => 0,
        Speed::Slowest => 1,
        Speed::Slower => 2,
        Speed::Slow => 3,
        Speed::Normal => 4,
        Speed::Fast => 5,
        Speed::Faster => 6,
        Speed::Fastest => 7,
    }
}

/// Render ticks between two simulation steps at the given speed.
pub open spec fn spec_slowdown(s: Speed) -> u32 {
    match s {
        Speed::Pause => 1,
        Speed::Slowest => 160,
        Speed::Slower => 80,
        Speed::Slow => 40,
        Speed::Normal => 20,
        Speed::Fast => 10,
        Speed::Faster => 5,
        Speed::Fastest => 2,
    }
}

/// The next faster speed, fastest staying fastest.
pub open spec fn spec_faster(s: Speed) -> Speed {
    match s {
        Speed::Pause => Speed::Slowest,
        Speed::Slowest => Speed::Slower,
        Speed::Slower => Speed::Slow,
        Speed::Slow => Speed::Normal,
        Speed::Normal => Speed::Fast,
        Speed::Fast => Speed::Faster,
        _ => Speed::Fastest,
    }
}

/// The next slower speed, pause staying pause.
pub open spec fn spec_slower(s: Speed) -> Speed {
    match s {
        Speed::Fastest => Speed::Faster,
        Speed::Faster => Speed::Fast,
        Speed::Fast => Speed::Normal,
        Speed::Normal => Speed::Slow,
        Speed::Slow => Speed::Slower,
        Speed::Slower => Speed::Slowest,
        _ => Speed::Pause,
    }
}

impl Speed {
    /// How many render ticks pass between simulation steps.
    pub fn slowdown(self) -> (r: u32)
        ensures
            r == spec_slowdown(self),
            r >= 1,
    {
        match self {
            Speed::Pause => 1,
            Speed::Slowest => 160,
            Speed::Slower => 80,
            Speed::Slow => 40,
            Speed::Normal => 20,
            Speed::Fast => 10,
            Speed::Faster => 5,
            Speed::Fastest => 2,
        }
    }

    /// One step faster, capped at fastest.
    pub fn faster(self) -> (r: Speed)
        ensures
            r == spec_faster(self),
            speed_rank(r) == if speed_rank(self) == 7 { 7 } else { speed_rank(self) + 1 },
    {
        match self {
            Speed::Pause => Speed::Slowest,
            Speed::Slowest => Speed::Slower,
            Speed::Slower => Speed::Slow,
            Speed::Slow => Speed::Normal,
            Speed::Normal => Speed::Fast,
            Speed::Fast => Speed::Faster,
            Speed::Faster | Speed::Fastest => Speed::Fastest,
        }
    }

    /// One step slower, capped at pause.
    pub fn slower(self) -> (r: Speed)
        ensures
            r == spec_slower(self),
            speed_rank(r) == if speed_rank(self) == 0 { 0 } else { speed_rank(self) - 1 },
    {
        match self {
            Speed::Fastest => Speed::Faster,
            Speed::Faster => Speed::Fast,
            Speed::Fast => Speed::Normal,
            Speed::Normal => Speed::Slow,
            Speed::Slow => Speed::Slower,
            Speed::Slower => Speed::Slowest,
            Speed::Slowest | Speed::Pause => Speed::Pause,
        }
    }
}

/// Speeding up moves one step up the scale, stopping at the fastest;
/// slowing down one step down, stopping at pause.
pub proof fn law_speed_steps_by_one(s: Speed)
    ensures
        speed_rank(spec_faster(s)) == if speed_rank(s) < 7 { speed_rank(s) + 1 } else { 7 },
        speed_rank(spec_slower(s)) == if speed_rank(s) > 0 { speed_rank(s) - 1 } else { 0 },
        forall|t: Speed| speed_rank(t) == speed_rank(s) ==> t == s,
{
}

/// Slowing down undoes speeding up, except at the top speed.
pub proof fn law_faster_slower_inverse(s: Speed)
    requires
        s != Speed::Fastest,
    ensures
        spec_slower(spec_faster(s)) == s,
{
}

/// Speeding up undoes slowing down, except at pause.
pub proof fn law_slower_faster_inverse(s: Speed)
    requires
        s != Speed::Pause,
    ensures
        spec_faster(spec_slower(s)) == s,
{
}

/// Game difficulty.
#[derive(Clone, Copy, PartialEq, Eq, Structural, Hash, Debug)]
pub enum Difficulty {
    Easiest,
    Easy,
    Normal,
    Hard,
    Hardest,
}

/// Map shape: controls the carved play area and the number of starting
/// locations.
#[derive(Clone, Copy, PartialEq, Eq, Structural, Hash, Debug)]
pub enum Shape {
    Rhombus,
    Rect,
    Hex,
}

/// Number of starting locations of a shape.
pub open spec fn spec_avlbl_loc_num(s: Shape) -> usize {
    match s {
        Shape::Rhombus => 4,
        Shape::Rect => 4,
        Shape::Hex => 6,
    }
}

impl Shape {
    /// Number of starting locations a stencil of this shape offers.
    pub fn avlbl_loc_num(self) -> (r: usize)
        ensures
            r == spec_avlbl_loc_num(self),
    {
        match self {
            Shape::Rhombus => 4,
            Shape::Rect => 4,
            Shape::Hex => 6,
        }
    }
}

/// Outcome of the periodic win/lose check.
#[derive(Clone, Copy, PartialEq, Eq, Structural, Hash, Debug)]
pub enum Outcome {
    Victory,
    Defeat,
    Undecided,
}

} // verus!
