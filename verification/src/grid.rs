//! The map: terrain, ownership and per-player population of every tile,
//! the stencils that carve the play area, the connectivity check and the
//! placement of the starting locations.
use vstd::prelude::*;
use vstd::array::spec_array_update;
use vstd::set_lib::{lemma_int_range, lemma_len_subset, set_int_range};
use crate::consts::{DIRECTIONS, MAX_AVLBL_LOC, MAX_HEIGHT, MAX_PLAYER, MAX_POP, MAX_WIDTH};
use crate::rng::CowRng;
use crate::types::{dir, dir_i, dir_j, spec_is_city, spec_is_inhabitable, Loc, PlayerId, Shape, TileClass};

verus! {

/// One tile: terrain class, owner, and one population bucket per player.
#[derive(Clone, Copy, Debug)]
pub struct Tile {
    pub cl: TileClass,
    pub pl: PlayerId,
    pub pop: [i32; MAX_PLAYER],
}

/// A tile is well formed when its owner is a valid player and every
/// population bucket lies in `0..=MAX_POP`.
pub open spec fn tile_wf(t: Tile) -> bool {
    &&& t.pl.0 < MAX_PLAYER
    &&& forall|p: int| 0 <= p < MAX_PLAYER ==> 0 <= #[trigger] t.pop[p] <= MAX_POP
}

/// A tile whose population buckets are all zero.
pub open spec fn pop_is_zero(t: Tile) -> bool {
    forall|p: int| 0 <= p < MAX_PLAYER ==> #[trigger] t.pop[p] == 0
}

impl Tile {
    /// A tile of class `cl` owned by `pl`, with no population.
    pub fn new(cl: TileClass, pl: PlayerId) -> (r: Tile)
        ensures
            r.cl == cl,
            r.pl == pl,
            pop_is_zero(r),
    {
        Tile { cl, pl, pop: [0; MAX_PLAYER] }
    }
}

/// The map. Tile `(i, j)` is stored at `tiles[i * height + j]`.
#[derive(Clone, Debug)]
pub struct Grid {
    pub width: usize,
    pub height: usize,
    pub tiles: Vec<Tile>,
}

/// Index of `(i, j)` in a map of height `h`.
pub open spec fn spec_idx(h: int, i: int, j: int) -> int {
    i * h + j
}

/// Index arithmetic: an in-bounds coordinate has an in-bounds index, and
/// the index gives the coordinate back.
pub proof fn lemma_idx(w: int, h: int, i: int, j: int)
    requires
        0 <= i < w,
        0 <= j < h,
    ensures
        0 <= spec_idx(h, i, j) < w * h,
        spec_idx(h, i, j) / h == i,
        spec_idx(h, i, j) % h == j,
{
    assert(0 <= i * h + j < w * h) by (nonlinear_arith)
        requires 0 <= i < w, 0 <= j < h;
    assert((i * h + j) / h == i && (i * h + j) % h == j) by (nonlinear_arith)
        requires 0 <= i, 0 <= j < h;
}

/// A map within the size limits has at most `MAX_WIDTH * MAX_HEIGHT` tiles.
pub proof fn lemma_area(w: int, h: int)
    requires
        0 <= w <= MAX_WIDTH,
        0 <= h <= MAX_HEIGHT,
    ensures
        w * h <= 1160,
{
    assert(w * h <= 40 * 29) by (nonlinear_arith)
        requires 0 <= w <= 40, 0 <= h <= 29;
}

/// An index splits into an in-bounds coordinate.
pub proof fn lemma_idx_inv(w: int, h: int, k: int)
    requires
        0 <= k < w * h,
        h > 0,
    ensures
        0 <= k / h < w,
        0 <= k % h < h,
        spec_idx(h, k / h, k % h) == k,
{
    assert(0 <= k / h < w && 0 <= k % h < h && (k / h) * h + k % h == k) by (nonlinear_arith)
        requires 0 <= k < w * h, h > 0;
}

impl Grid {
    /// The map's dimensions are within the limits, it stores one tile per
    /// coordinate, and every tile is well formed.
    pub open spec fn wf(&self) -> bool {
        &&& self.width <= MAX_WIDTH
        &&& self.height <= MAX_HEIGHT
        &&& self.tiles@.len() == self.width * self.height
        &&& forall|k: int| 0 <= k < self.tiles@.len() ==> tile_wf(#[trigger] self.tiles@[k])
    }

    /// `(i, j)` lies on the map.
    pub open spec fn in_map(&self, i: int, j: int) -> bool {
        0 <= i < self.width && 0 <= j < self.height
    }

    /// The tile at `(i, j)`.
    pub open spec fn tile(&self, i: int, j: int) -> Tile {
        self.tiles@[spec_idx(self.height as int, i, j)]
    }

    /// An all-abyss map of at most `MAX_WIDTH` by `MAX_HEIGHT` tiles,
    /// neutral and empty.
    pub fn empty(width: usize, height: usize) -> (g: Grid)
        ensures
            g.wf(),
            g.width == if width < MAX_WIDTH { width } else { MAX_WIDTH },
            g.height == if height < MAX_HEIGHT { height } else { MAX_HEIGHT },
            forall|k: int| 0 <= k < g.tiles@.len() ==> {
                &&& (#[trigger] g.tiles@[k]).cl == TileClass::Abyss
                &&& g.tiles@[k].pl.0 == 0
                &&& pop_is_zero(g.tiles@[k])
            },
    {
        let width = if width < MAX_WIDTH { width } else { MAX_WIDTH };
        let height = if height < MAX_HEIGHT { height } else { MAX_HEIGHT };
        proof { lemma_area(width as int, height as int); }
        let n: usize = width * height;
        let mut tiles: Vec<Tile> = Vec::new();
        let mut k: usize = 0;
        while k < n
            invariant
                k <= n,
                n == width * height,
                tiles@.len() == k,
                forall|q: int| 0 <= q < k ==> {
                    &&& (#[trigger] tiles@[q]).cl == TileClass::Abyss
                    &&& tiles@[q].pl.0 == 0
                    &&& pop_is_zero(tiles@[q])
                },
            decreases n - k,
        {
            tiles.push(Tile::new(TileClass::Abyss, PlayerId(0)));
            k += 1;
        }
        Grid { width, height, tiles }
    }

    /// True when `l` lies on the map.
    pub fn in_bounds(&self, l: Loc) -> (r: bool)
        ensures
            r == self.in_map(l.i as int, l.j as int),
    {
        l.i >= 0 && l.j >= 0 && (l.i as usize) < self.width && (l.j as usize) < self.height
    }

    /// The tile at `l`, or `None` off the map.
    pub fn get(&self, l: Loc) -> (r: Option<&Tile>)
        requires
            self.wf(),
        ensures
            r is Some <==> self.in_map(l.i as int, l.j as int),
            r matches Some(t) ==> *t == self.tile(l.i as int, l.j as int),
    {
        if l.i < 0 || l.j < 0 {
            return None;
        }
        let i: usize = l.i as usize;
        let j: usize = l.j as usize;
        if i >= self.width || j >= self.height {
            return None;
        }
        proof {
            lemma_idx(self.width as int, self.height as int, i as int, j as int);
            lemma_area(self.width as int, self.height as int);
        }
        Some(&self.tiles[i * self.height + j])
    }

    /// The tile at `l` for writing, or `None` off the map; the other tiles
    /// stay as they are.
    pub fn get_mut(&mut self, l: Loc) -> (r: Option<&mut Tile>)
        requires
            old(self).wf(),
        ensures
            r is Some <==> old(self).in_map(l.i as int, l.j as int),
            r is None ==> *final(self) == *old(self),
            r matches Some(t) ==> {
                &&& *t == old(self).tile(l.i as int, l.j as int)
                &&& final(self).width == old(self).width
                &&& final(self).height == old(self).height
                &&& final(self).tiles@ == old(self).tiles@.update(
                    spec_idx(old(self).height as int, l.i as int, l.j as int),
                    *final(t),
                )
            },
    {
        if l.i < 0 || l.j < 0 {
            return None;
        }
        let i: usize = l.i as usize;
        let j: usize = l.j as usize;
        if i >= self.width || j >= self.height {
            return None;
        }
        proof {
            lemma_idx(self.width as int, self.height as int, i as int, j as int);
            lemma_area(self.width as int, self.height as int);
        }
        let h: usize = self.height;
        Some(&mut self.tiles[i * h + j])
    }
}

/// A tile drawn by terrain generation: never abyss; mountains and mines
/// are neutral and empty; grassland has an owner among the countries and
/// no population; a city has an owner among the countries with ten
/// inhabitants of that owner and none of anybody else.
pub open spec fn generated_tile(t: Tile) -> bool {
    &&& t.cl != TileClass::Abyss
    &&& (t.cl == TileClass::Mountain || t.cl == TileClass::Mine) ==> t.pl.0 == 0 && pop_is_zero(t)
    &&& t.cl == TileClass::Grassland ==> 1 <= t.pl.0 <= 7 && pop_is_zero(t)
    &&& spec_is_city(t.cl) ==> {
        &&& 1 <= t.pl.0 <= 7
        &&& forall|p: int| 0 <= p < MAX_PLAYER ==> #[trigger] t.pop[p] == if p == t.pl.0 { 10i32 } else { 0i32 }
    }
}

/// A random country id in `1..=7`.
fn random_owner(rng: &mut CowRng) -> (r: PlayerId)
    ensures
        1 <= r.0 <= 7,
{
    let x = 1 + rng.below((MAX_PLAYER - 1) as u32);
    PlayerId(x as u8)
}

/// Draws the terrain of one tile, with the draws made in the order terrain
/// generation makes them.
fn draw_terrain_tile(rng: &mut CowRng) -> (t: Tile)
    ensures
        generated_tile(t),
        tile_wf(t),
{
    let x = rng.below(20);
    let (cl, pl) = if x == 0 {
        let y = rng.below(6);
        if y == 0 {
            (TileClass::Castle, random_owner(rng))
        } else if y == 1 || y == 2 {
            (TileClass::Town, random_owner(rng))
        } else {
            (TileClass::Village, random_owner(rng))
        }
    } else if x < 5 {
        let cl = if rng.below(10) == 0 { TileClass::Mine } else { TileClass::Mountain };
        (cl, PlayerId(0))
    } else {
        (TileClass::Grassland, random_owner(rng))
    };
    let mut t = Tile::new(cl, pl);
    if cl.is_city() {
        t.pop[pl.index()] = 10;
    }
    t
}

impl Grid {
    /// Sets class and owner of the tile at `l`, when it lies on the map.
    pub fn set_at(&mut self, l: Loc, cl: TileClass, pl: PlayerId)
        requires
            old(self).wf(),
            pl.0 < MAX_PLAYER,
        ensures
            final(self).width == old(self).width,
            final(self).height == old(self).height,
            final(self).wf(),
            !old(self).in_map(l.i as int, l.j as int) ==> final(self).tiles@ == old(self).tiles@,
            old(self).in_map(l.i as int, l.j as int) ==> final(self).tiles@ == old(self).tiles@.update(
                spec_idx(old(self).height as int, l.i as int, l.j as int),
                Tile { cl, pl, pop: old(self).tile(l.i as int, l.j as int).pop },
            ),
    {
        let ghost g0 = *self;
        if let Some(t) = self.get_mut(l) {
            t.cl = cl;
            t.pl = pl;
        }
        proof {
            if g0.in_map(l.i as int, l.j as int) {
                lemma_idx(g0.width as int, g0.height as int, l.i as int, l.j as int);
                assert forall|k: int| 0 <= k < self.tiles@.len() implies tile_wf(#[trigger] self.tiles@[k]) by {
                    assert(tile_wf(g0.tiles@[k]));
                }
            }
        }
    }

    /// The tiles with their coordinates, in storage order (column by
    /// column, rows ascending within a column).
    pub fn iter(&self) -> (r: Vec<(Loc, Tile)>)
        requires
            self.wf(),
        ensures
            r@.len() == self.tiles@.len(),
            forall|k: int| 0 <= k < r@.len() ==> (#[trigger] r@[k]).1 == self.tiles@[k]
                && r@[k].0.i == k / self.height as int && r@[k].0.j == k % self.height as int,
    {
        let n: usize = self.tiles.len();
        let h: usize = self.height;
        proof { lemma_area(self.width as int, h as int); }
        let mut r: Vec<(Loc, Tile)> = Vec::new();
        let mut k: usize = 0;
        while k < n
            invariant
                k <= n,
                n == self.tiles@.len(),
                n <= 1160,
                h == self.height,
                self.wf(),
                r@.len() == k,
                forall|q: int| 0 <= q < k ==> (#[trigger] r@[q]).1 == self.tiles@[q]
                    && r@[q].0.i == q / h as int && r@[q].0.j == q % h as int,
            decreases n - k,
        {
            assert(h > 0) by (nonlinear_arith)
                requires n == self.width * h, k < n, h >= 0;
            assert(0 <= k / h <= k && 0 <= k % h < h) by (nonlinear_arith) requires h > 0, k >= 0;
            r.push((Loc::new((k / h) as i16, (k % h) as i16), self.tiles[k]));
            k += 1;
        }
        r
    }

    /// Random terrain for every tile: a city with one chance in twenty
    /// (castle 1/6, town 2/6, village 3/6), a mountain with four chances in
    /// twenty (a mine one time in ten), grassland otherwise. Cities and
    /// grassland get a random country as owner; cities start with ten
    /// inhabitants of their owner.
    pub fn generate_random_terrain(&mut self, rng: &mut CowRng)
        requires
            old(self).wf(),
        ensures
            final(self).wf(),
            final(self).width == old(self).width,
            final(self).height == old(self).height,
            forall|k: int| 0 <= k < final(self).tiles@.len() ==> generated_tile(#[trigger] final(self).tiles@[k]),
    {
        let n: usize = self.tiles.len();
        let mut k: usize = 0;
        while k < n
            invariant
                k <= n,
                n == self.tiles@.len(),
                self.wf(),
                self.width == old(self).width,
                self.height == old(self).height,
                forall|q: int| 0 <= q < k ==> generated_tile(#[trigger] self.tiles@[q]),
            decreases n - k,
        {
            let t = draw_terrain_tile(rng);
            self.tiles.set(k, t);
            k += 1;
        }
    }
}

/// The rectangular stencil cuts `(i, j)` off: the tile lies left of the
/// slanted left edge (`2i + j < h - 1`) or right of the slanted right edge
/// (`2i + j > h + 2w - 3`).
pub open spec fn rect_cut(w: int, h: int, i: int, j: int) -> bool {
    2 * i + j < h - 1 || 2 * i + j > h + 2 * w - 3
}

/// The hexagonal stencil cuts `(i, j)` off: `i + j < h / 2` or
/// `i + j > w + h - 2 - h / 2`.
pub open spec fn hex_cut(w: int, h: int, i: int, j: int) -> bool {
    i + j < h / 2 || i + j > w - 1 + h - 1 - h / 2
}

/// The starting locations a stencil offers, for a `w` by `h` map.
pub open spec fn stencil_locs(shape: Shape, w: int, h: int) -> Seq<(int, int)> {
    let dx = h / 2;
    match shape {
        Shape::Rhombus => seq![(2, 2), (w - 3, h - 3), (2, h - 3), (w - 3, 2)],
        Shape::Rect => seq![(dx + 1, 2), (w - dx - 2, h - 3), (3, h - 3), (w - 4, 2)],
        Shape::Hex => seq![(dx, 2), (2, h - 3), (w - 3, dx), (2, dx), (w - 3, 2), (w - 1 - dx, h - 3)],
    }
}

/// The stencil of `shape` cuts `(i, j)` off.
pub open spec fn stencil_cut(shape: Shape, w: int, h: int, i: int, j: int) -> bool {
    match shape {
        Shape::Rhombus => false,
        Shape::Rect => rect_cut(w, h, i, j),
        Shape::Hex => hex_cut(w, h, i, j),
    }
}

/// Converts coordinates to locations.
pub open spec fn to_locs(s: Seq<(int, int)>) -> Seq<Loc> {
    Seq::new(s.len(), |k: int| Loc { i: s[k].0 as i16, j: s[k].1 as i16 })
}

impl Grid {
    /// Turns every tile the stencil of `shape` cuts off into void abyss.
    fn carve(&mut self, shape: Shape)
        requires
            old(self).wf(),
        ensures
            final(self).wf(),
            final(self).width == old(self).width,
            final(self).height == old(self).height,
            final(self).tiles@.len() == old(self).tiles@.len(),
            forall|a: int, b: int| old(self).in_map(a, b) ==> #[trigger] final(self).tile(a, b) == if stencil_cut(
                shape,
                old(self).width as int,
                old(self).height as int,
                a,
                b,
            ) {
                Tile { cl: TileClass::Abyss, pl: PlayerId(0), pop: [0i32; MAX_PLAYER] }
            } else {
                old(self).tile(a, b)
            },
    {
        let w: usize = self.width;
        let h: usize = self.height;
        let n: usize = self.tiles.len();
        proof { lemma_area(w as int, h as int); }
        let ghost g0 = *self;
        let mut k: usize = 0;
        while k < n
            invariant
                k <= n,
                n == self.tiles@.len(),
                n == w * h,
                n <= 1160,
                w == self.width,
                h == self.height,
                g0.width == w,
                g0.height == h,
                g0.tiles@.len() == n,
                self.wf(),
                forall|q: int| 0 <= q < n ==> #[trigger] self.tiles@[q] == if q < k && stencil_cut(
                    shape,
                    w as int,
                    h as int,
                    q / h as int,
                    q % h as int,
                ) {
                    Tile { cl: TileClass::Abyss, pl: PlayerId(0), pop: [0i32; MAX_PLAYER] }
                } else {
                    g0.tiles@[q]
                },
            decreases n - k,
        {
            assert(h > 0) by (nonlinear_arith)
                requires n == w * h, k < n, h >= 0;
            assert(0 <= k / h <= k && 0 <= k % h < h) by (nonlinear_arith) requires h > 0, k >= 0;
            let i: i64 = (k / h) as i64;
            let j: i64 = (k % h) as i64;
            let wi: i64 = w as i64;
            let hi: i64 = h as i64;
            let cut = match shape {
                Shape::Rhombus => false,
                Shape::Rect => 2 * i + j < hi - 1 || 2 * i + j > hi + 2 * wi - 3,
                Shape::Hex => i + j < hi / 2 || i + j > wi - 1 + hi - 1 - hi / 2,
            };
            if cut {
                self.tiles.set(k, Tile { cl: TileClass::Abyss, pl: PlayerId(0), pop: [0; MAX_PLAYER] });
            }
            k += 1;
        }
        proof {
            assert forall|a: int, b: int| g0.in_map(a, b) implies #[trigger] self.tile(a, b) == if stencil_cut(
                shape,
                w as int,
                h as int,
                a,
                b,
            ) {
                Tile { cl: TileClass::Abyss, pl: PlayerId(0), pop: [0i32; MAX_PLAYER] }
            } else {
                g0.tile(a, b)
            } by {
                lemma_idx(w as int, h as int, a, b);
            }
        }
    }

    /// Applies the stencil of `shape`: the rectangular and hexagonal
    /// stencils cut the corners off into abyss, the rhombus keeps every
    /// tile. Returns the stencil's starting locations.
    pub fn apply_stencil(&mut self, shape: Shape) -> (locs: Vec<Loc>)
        requires
            old(self).wf(),
        ensures
            final(self).wf(),
            final(self).width == old(self).width,
            final(self).height == old(self).height,
            forall|a: int, b: int| old(self).in_map(a, b) ==> #[trigger] final(self).tile(a, b) == if stencil_cut(
                shape,
                old(self).width as int,
                old(self).height as int,
                a,
                b,
            ) {
                Tile { cl: TileClass::Abyss, pl: PlayerId(0), pop: [0i32; MAX_PLAYER] }
            } else {
                old(self).tile(a, b)
            },
            locs@ == to_locs(stencil_locs(shape, old(self).width as int, old(self).height as int)),
    {
        match shape {
            Shape::Rhombus => self.stencil_rhombus(),
            Shape::Rect => self.stencil_rect(),
            Shape::Hex => self.stencil_hex(),
        }
    }

    /// Rectangular layout: cuts two corners off along the slanted edges;
    /// four starting locations.
    fn stencil_rect(&mut self) -> (locs: Vec<Loc>)
        requires
            old(self).wf(),
        ensures
            final(self).wf(),
            final(self).width == old(self).width,
            final(self).height == old(self).height,
            forall|a: int, b: int| old(self).in_map(a, b) ==> #[trigger] final(self).tile(a, b) == if stencil_cut(
                Shape::Rect,
                old(self).width as int,
                old(self).height as int,
                a,
                b,
            ) {
                Tile { cl: TileClass::Abyss, pl: PlayerId(0), pop: [0i32; MAX_PLAYER] }
            } else {
                old(self).tile(a, b)
            },
            locs@ == to_locs(stencil_locs(Shape::Rect, old(self).width as int, old(self).height as int)),
    {
        self.carve(Shape::Rect);
        let w: i16 = self.width as i16;
        let h: i16 = self.height as i16;
        let dx: i16 = h / 2;
        let mut v: Vec<Loc> = Vec::new();
        v.push(Loc::new(dx + 1, 2));
        v.push(Loc::new(w - dx - 2, h - 3));
        v.push(Loc::new(3, h - 3));
        v.push(Loc::new(w - 4, 2));
        assert(v@ =~= to_locs(stencil_locs(Shape::Rect, old(self).width as int, old(self).height as int)));
        v
    }

    /// Hexagonal layout: cuts two opposite corners off; six starting
    /// locations.
    fn stencil_hex(&mut self) -> (locs: Vec<Loc>)
        requires
            old(self).wf(),
        ensures
            final(self).wf(),
            final(self).width == old(self).width,
            final(self).height == old(self).height,
            forall|a: int, b: int| old(self).in_map(a, b) ==> #[trigger] final(self).tile(a, b) == if stencil_cut(
                Shape::Hex,
                old(self).width as int,
                old(self).height as int,
                a,
                b,
            ) {
                Tile { cl: TileClass::Abyss, pl: PlayerId(0), pop: [0i32; MAX_PLAYER] }
            } else {
                old(self).tile(a, b)
            },
            locs@ == to_locs(stencil_locs(Shape::Hex, old(self).width as int, old(self).height as int)),
    {
        self.carve(Shape::Hex);
        let w: i16 = self.width as i16;
        let h: i16 = self.height as i16;
        let dx: i16 = h / 2;
        let mut v: Vec<Loc> = Vec::new();
        v.push(Loc::new(dx, 2));
        v.push(Loc::new(2, h - 3));
        v.push(Loc::new(w - 3, dx));
        v.push(Loc::new(2, dx));
        v.push(Loc::new(w - 3, 2));
        v.push(Loc::new(w - 1 - dx, h - 3));
        assert(v@ =~= to_locs(stencil_locs(Shape::Hex, old(self).width as int, old(self).height as int)));
        v
    }

    /// Rhombus layout: keeps every tile; four starting locations.
    fn stencil_rhombus(&mut self) -> (locs: Vec<Loc>)
        requires
            old(self).wf(),
        ensures
            *final(self) == *old(self),
            final(self).wf(),
            forall|a: int, b: int| old(self).in_map(a, b) ==> #[trigger] final(self).tile(a, b) == old(self).tile(a, b),
            locs@ == to_locs(stencil_locs(Shape::Rhombus, old(self).width as int, old(self).height as int)),
    {
        let w: i16 = self.width as i16;
        let h: i16 = self.height as i16;
        let mut v: Vec<Loc> = Vec::new();
        v.push(Loc::new(2, 2));
        v.push(Loc::new(w - 3, h - 3));
        v.push(Loc::new(2, h - 3));
        v.push(Loc::new(w - 3, 2));
        assert(v@ =~= to_locs(stencil_locs(Shape::Rhombus, old(self).width as int, old(self).height as int)));
        v
    }
}

/// Inputs of the placement of the starting locations.
pub struct ConflictConfig<'a> {
    /// All candidate starting locations (from the stencil).
    pub loc_arr: &'a [Loc],
    /// Computer-controlled players.
    pub comp_players: &'a [PlayerId],
    /// Human-controlled players.
    pub ui_players: &'a [PlayerId],
    /// Number of starting locations to use (clamped to `2..=N`).
    pub loc_num: usize,
    /// Spawn-quality preference: 0 random, 1 best, higher worse.
    pub conditions: i32,
    /// Inequality bucket 0..4, or -1 for none.
    pub inequality: i32,
}

impl<'a> ConflictConfig<'a> {
    /// Bundles the placement inputs.
    pub fn new(
        loc_arr: &'a [Loc],
        comp_players: &'a [PlayerId],
        ui_players: &'a [PlayerId],
        loc_num: usize,
        conditions: i32,
        inequality: i32,
    ) -> (r: Self)
        ensures
            r.loc_arr@ == loc_arr@,
            r.comp_players@ == comp_players@,
            r.ui_players@ == ui_players@,
            r.loc_num == loc_num,
            r.conditions == conditions,
            r.inequality == inequality,
    {
        ConflictConfig { loc_arr, comp_players, ui_players, loc_num, conditions, inequality }
    }
}

/// A tile after the first placement step: no population, no owner, and
/// grassland in place of a city.
pub open spec fn wiped(t: Tile) -> Tile {
    Tile {
        cl: if spec_is_city(t.cl) { TileClass::Grassland } else { t.cl },
        pl: PlayerId(0),
        pop: [0i32; MAX_PLAYER],
    }
}

/// `ts` with the tile at `(i, j)` replaced by `f(old tile)`, when `(i, j)`
/// lies on a `w` by `h` map.
pub open spec fn with_class(ts: Seq<Tile>, w: int, h: int, i: int, j: int, cl: TileClass, clear: bool) -> Seq<Tile> {
    if 0 <= i < w && 0 <= j < h {
        let k = spec_idx(h, i, j);
        ts.update(k, Tile { cl, pl: PlayerId(0), pop: if clear { [0i32; MAX_PLAYER] } else { ts[k].pop } })
    } else {
        ts
    }
}

/// One starting location at `l` with direction `d`: a neutral castle at
/// `l`, neutral mines one step along `d` and two steps against it, and
/// empty neutral grassland one step against it (each when on the map).
pub open spec fn place_start(ts: Seq<Tile>, w: int, h: int, l: Loc, d: int) -> Seq<Tile> {
    let i = l.i as int;
    let j = l.j as int;
    let t1 = with_class(ts, w, h, i, j, TileClass::Castle, false);
    let t2 = with_class(t1, w, h, i + dir_i(d), j + dir_j(d), TileClass::Mine, false);
    let t3 = with_class(t2, w, h, i - 2 * dir_i(d), j - 2 * dir_j(d), TileClass::Mine, false);
    with_class(t3, w, h, i - dir_i(d), j - dir_j(d), TileClass::Grassland, true)
}

/// The starting locations `locs` placed one after another, the `k`-th
/// with direction `dirs[k]`.
pub open spec fn place_all(ts: Seq<Tile>, w: int, h: int, locs: Seq<Loc>, dirs: Seq<usize>) -> Seq<Tile>
    decreases locs.len(),
{
    if locs.len() == 0 {
        ts
    } else {
        place_start(
            place_all(ts, w, h, locs.drop_last(), dirs),
            w,
            h,
            locs.last(),
            dirs[locs.len() - 1] as int,
        )
    }
}

/// The number of candidates considered: at most `MAX_AVLBL_LOC`.
pub open spec fn avlbl_count(candidates: int) -> int {
    if candidates < MAX_AVLBL_LOC { candidates } else { MAX_AVLBL_LOC as int }
}

/// The number of starting locations actually used: `loc_num` clamped to
/// `2..=min(candidates, MAX_AVLBL_LOC)`.
pub open spec fn used_loc_num(cfg_loc_num: int, candidates: int) -> int {
    let avlbl = if candidates < MAX_AVLBL_LOC { candidates } else { MAX_AVLBL_LOC as int };
    if cfg_loc_num < 2 { 2 } else if cfg_loc_num > avlbl { avlbl } else { cfg_loc_num }
}

/// `chosen` are the candidates `locs` taken from offset `di` (modulo
/// `avlbl`), and `after` is the wiped map `before` with a start placed at
/// each of them in the directions `dirs`.
pub open spec fn placement_from(
    before: Seq<Tile>,
    w: int,
    h: int,
    locs: Seq<Loc>,
    avlbl: int,
    chosen: Seq<Loc>,
    after: Seq<Tile>,
    di: int,
    dirs: Seq<usize>,
) -> bool {
    &&& 0 <= di < avlbl
    &&& dirs.len() == chosen.len()
    &&& (forall|k: int| 0 <= k < dirs.len() ==> #[trigger] dirs[k] < 6)
    &&& (forall|k: int| 0 <= k < chosen.len() ==> #[trigger] chosen[k] == locs[(k + di) % avlbl])
    &&& after == place_all(before.map_values(|t: Tile| wiped(t)), w, h, chosen, dirs)
}

/// The outcome of a successful first placement step: `chosen` holds
/// `used_loc_num` consecutive candidates from some offset, and `after` is
/// the wiped `before` with a start placed at each of them in some
/// directions.
pub open spec fn prepared(
    before: Seq<Tile>,
    w: int,
    h: int,
    locs: Seq<Loc>,
    loc_num: int,
    chosen: Seq<Loc>,
    after: Seq<Tile>,
) -> bool {
    &&& chosen.len() == used_loc_num(loc_num, locs.len() as int)
    &&& exists|di: int, dirs: Seq<usize>| #[trigger] placement_from(
        before,
        w,
        h,
        locs,
        avlbl_count(locs.len() as int),
        chosen,
        after,
        di,
        dirs,
    )
}

/// Setting tiles to neutral classes keeps a map well formed.
proof fn lemma_with_class_wf(ts: Seq<Tile>, w: int, h: int, i: int, j: int, cl: TileClass, clear: bool)
    requires
        ts.len() == w * h,
        forall|k: int| 0 <= k < ts.len() ==> tile_wf(#[trigger] ts[k]),
    ensures
        with_class(ts, w, h, i, j, cl, clear).len() == ts.len(),
        forall|k: int| 0 <= k < ts.len() ==> tile_wf(#[trigger] with_class(ts, w, h, i, j, cl, clear)[k]),
{
    if 0 <= i < w && 0 <= j < h {
        lemma_idx(w, h, i, j);
    }
}

/// Set the tile at `l` to class `cl`, neutral, keeping or clearing its
/// population; nothing happens off the map.
fn set_class(g: &mut Grid, l: Loc, cl: TileClass, clear: bool)
    requires
        old(g).wf(),
    ensures
        final(g).wf(),
        final(g).width == old(g).width,
        final(g).height == old(g).height,
        final(g).tiles@ == with_class(
            old(g).tiles@,
            old(g).width as int,
            old(g).height as int,
            l.i as int,
            l.j as int,
            cl,
            clear,
        ),
{
    proof {
        lemma_with_class_wf(g.tiles@, g.width as int, g.height as int, l.i as int, l.j as int, cl, clear);
    }
    let ghost g0 = *g;
    if let Some(t) = g.get_mut(l) {
        t.cl = cl;
        t.pl = PlayerId(0);
        if clear {
            t.pop = [0; MAX_PLAYER];
        }
    }
    proof {
        if g0.in_map(l.i as int, l.j as int) {
            lemma_idx(g0.width as int, g0.height as int, l.i as int, l.j as int);
            assert(g.tiles@ =~= with_class(
                g0.tiles@, g0.width as int, g0.height as int, l.i as int, l.j as int, cl, clear));
        }
    }
}

impl Grid {
    /// Places the starting locations `chosen`, the `k`-th with direction
    /// `dirs[k]`: a castle with a mine on either side and a cleared tile
    /// between the castle and the far mine.
    pub fn place_starts(&mut self, chosen: &Vec<Loc>, dirs: &Vec<usize>)
        requires
            old(self).wf(),
            dirs@.len() == chosen@.len(),
            forall|k: int| 0 <= k < dirs@.len() ==> #[trigger] dirs@[k] < 6,
            forall|k: int| 0 <= k < chosen@.len() ==> start_room(#[trigger] chosen@[k]),
        ensures
            final(self).wf(),
            final(self).width == old(self).width,
            final(self).height == old(self).height,
            final(self).tiles@ == place_all(
                old(self).tiles@,
                old(self).width as int,
                old(self).height as int,
                chosen@,
                dirs@,
            ),
    {
        let ghost w = self.width as int;
        let ghost h = self.height as int;
        let ghost t0 = self.tiles@;
        let mut k: usize = 0;
        while k < chosen.len()
            invariant
                k <= chosen@.len(),
                dirs@.len() == chosen@.len(),
                forall|q: int| 0 <= q < dirs@.len() ==> #[trigger] dirs@[q] < 6,
                forall|q: int| 0 <= q < chosen@.len() ==> start_room(#[trigger] chosen@[q]),
                self.wf(),
                self.width == w,
                self.height == h,
                self.tiles@ == place_all(t0, w, h, chosen@.take(k as int), dirs@),
            decreases chosen@.len() - k,
        {
            let l = chosen[k];
            let dd = dir(dirs[k]);
            set_class(self, l, TileClass::Castle, false);
            set_class(self, Loc::new(l.i + dd.i, l.j + dd.j), TileClass::Mine, false);
            set_class(self, Loc::new(l.i - 2 * dd.i, l.j - 2 * dd.j), TileClass::Mine, false);
            set_class(self, Loc::new(l.i - dd.i, l.j - dd.j), TileClass::Grassland, true);
            assert(chosen@.take(k + 1).drop_last() =~= chosen@.take(k as int));
            k += 1;
        }
        assert(chosen@.take(chosen@.len() as int) =~= chosen@);
    }

    /// First step of the placement: clears all population and ownership,
    /// turns cities into grassland, then (when there are enough players)
    /// picks `used_loc_num` consecutive candidates from a random offset and
    /// places a castle with two mines at each, in a random direction.
    /// Returns the chosen locations, or `Err` when the players are too few
    /// (the map is then wiped, nothing placed).
    pub fn conflict_prepare(&mut self, rng: &mut CowRng, cfg: &ConflictConfig) -> (r: Result<Vec<Loc>, ()>)
        requires
            old(self).wf(),
            cfg.loc_arr@.len() >= 2,
            forall|k: int| 0 <= k < cfg.loc_arr@.len() ==> start_room(#[trigger] cfg.loc_arr@[k]),
            cfg.comp_players@.len() + cfg.ui_players@.len() <= usize::MAX,
        ensures
            final(self).wf(),
            final(self).width == old(self).width,
            final(self).height == old(self).height,
            r is Err <==> used_loc_num(cfg.loc_num as int, cfg.loc_arr@.len() as int)
                > cfg.comp_players@.len() + cfg.ui_players@.len(),
            r is Err ==> final(self).tiles@ == old(self).tiles@.map_values(|t: Tile| wiped(t))
                && final(rng).generator() == old(rng).generator(),
            r matches Ok(chosen) ==> prepared(
                old(self).tiles@,
                old(self).width as int,
                old(self).height as int,
                cfg.loc_arr@,
                cfg.loc_num as int,
                chosen@,
                final(self).tiles@,
            ),
    {
        let n: usize = self.tiles.len();
        let ghost t0 = self.tiles@;
        let mut k: usize = 0;
        while k < n
            invariant
                k <= n,
                n == self.tiles@.len(),
                t0.len() == n,
                self.wf(),
                self.width == old(self).width,
                self.height == old(self).height,
                t0 == old(self).tiles@,
                forall|q: int| 0 <= q < n ==> #[trigger] self.tiles@[q] == if q < k { wiped(t0[q]) } else { t0[q] },
            decreases n - k,
        {
            let t = self.tiles[k];
            let cl = if t.cl.is_city() { TileClass::Grassland } else { t.cl };
            self.tiles.set(k, Tile { cl, pl: PlayerId(0), pop: [0; MAX_PLAYER] });
            k += 1;
        }
        assert(self.tiles@ =~= t0.map_values(|t: Tile| wiped(t)));
        let avlbl: usize = if cfg.loc_arr.len() < MAX_AVLBL_LOC { cfg.loc_arr.len() } else { MAX_AVLBL_LOC };
        let loc_num: usize = if cfg.loc_num < 2 { 2 } else if cfg.loc_num > avlbl { avlbl } else { cfg.loc_num };
        if loc_num > cfg.comp_players.len() + cfg.ui_players.len() {
            return Err(());
        }
        let di: usize = rng.below(avlbl as u32) as usize;
        let mut chosen: Vec<Loc> = Vec::new();
        let mut dirs: Vec<usize> = Vec::new();
        let mut i: usize = 0;
        while i < loc_num
            invariant
                i <= loc_num,
                loc_num <= avlbl,
                avlbl <= MAX_AVLBL_LOC,
                avlbl <= cfg.loc_arr@.len(),
                di < avlbl,
                chosen@.len() == i,
                dirs@.len() == i,
                forall|q: int| 0 <= q < i ==> #[trigger] dirs@[q] < 6,
                forall|q: int| 0 <= q < i ==> #[trigger] chosen@[q] == cfg.loc_arr@[(q + di) % avlbl as int],
            decreases loc_num - i,
        {
            let ii: usize = (i + di + avlbl) % avlbl;
            assert((i + di + avlbl) % avlbl as int == (i + di) % avlbl as int) by (nonlinear_arith)
                requires avlbl > 0, i >= 0, di >= 0;
            chosen.push(cfg.loc_arr[ii]);
            dirs.push(rng.below(6) as usize);
            i += 1;
        }
        self.place_starts(&chosen, &dirs);
        proof {
            assert(avlbl as int == avlbl_count(cfg.loc_arr@.len() as int));
            assert(chosen@.len() == used_loc_num(cfg.loc_num as int, cfg.loc_arr@.len() as int));
            assert(placement_from(t0, self.width as int, self.height as int, cfg.loc_arr@, avlbl as int,
                chosen@, self.tiles@, di as int, dirs@));
            assert(prepared(t0, self.width as int, self.height as int, cfg.loc_arr@, cfg.loc_num as int,
                chosen@, self.tiles@));
        }
        Ok(chosen)
    }
}

/// A starting location leaves room, within `i16`, for the mines placed
/// up to two steps away from it.
pub open spec fn start_room(l: Loc) -> bool {
    &&& i16::MIN + 2 <= l.i <= i16::MAX - 2
    &&& i16::MIN + 2 <= l.j <= i16::MAX - 2
}

/// The tile at `l` handed to `pl`: owner `pl`, ten inhabitants of `pl`,
/// the rest unchanged (nothing happens off the map).
pub open spec fn assign_one(ts: Seq<Tile>, w: int, h: int, l: Loc, pl: PlayerId) -> Seq<Tile> {
    let i = l.i as int;
    let j = l.j as int;
    if 0 <= i < w && 0 <= j < h {
        let k = spec_idx(h, i, j);
        ts.update(k, Tile { cl: ts[k].cl, pl, pop: spec_array_update(ts[k].pop, pl.0 as int, 10i32) })
    } else {
        ts
    }
}

/// The locations `chosen[order[r]]` handed to `owners[r]`, for `r` in
/// order.
pub open spec fn assign_all(
    ts: Seq<Tile>,
    w: int,
    h: int,
    chosen: Seq<Loc>,
    order: Seq<usize>,
    owners: Seq<PlayerId>,
) -> Seq<Tile>
    decreases order.len(),
{
    if order.len() == 0 {
        ts
    } else {
        let r = order.len() - 1;
        assign_one(assign_all(ts, w, h, chosen, order.drop_last(), owners), w, h, chosen[order[r] as int], owners[r])
    }
}

/// Who receives the location of rank `r`: with several humans, the `r`-th
/// of the shuffled player list; otherwise the human at rank `ihuman`, the
/// `r`-th shuffled computer player elsewhere, neutral past their end.
pub open spec fn owner_at(
    r: int,
    ui: Seq<PlayerId>,
    sh_players: Seq<PlayerId>,
    sh_comp: Seq<PlayerId>,
    ihuman: int,
) -> PlayerId {
    if ui.len() > 1 {
        sh_players[r]
    } else if r == ihuman {
        ui[0]
    } else if r < sh_comp.len() {
        sh_comp[r]
    } else {
        PlayerId(0)
    }
}

/// The player list before its shuffle: the humans, then computer players
/// up to `loc_num` entries, taken from the shuffled computer list from
/// offset `dplayer` round-robin.
pub open spec fn composed(ui: Seq<PlayerId>, sh_comp: Seq<PlayerId>, loc_num: int, dplayer: int) -> Seq<PlayerId> {
    if sh_comp.len() > 0 && loc_num > ui.len() {
        ui + Seq::new((loc_num - ui.len()) as nat, |q: int| sh_comp[(q + dplayer) % sh_comp.len() as int])
    } else {
        ui
    }
}

/// The human's rank in `order` (which lists the locations from the
/// weakest to the strongest): with a spawn preference, rank
/// `loc_num - conditions` clamped to `0..loc_num`, so that preference 1
/// gives the strongest location and `loc_num` the weakest; otherwise any
/// rank.
pub open spec fn human_rank_ok(ihuman: int, order: Seq<usize>, loc_num: int, conditions: int) -> bool {
    if conditions > 0 {
        ihuman == if loc_num - conditions < 0 { 0 } else if loc_num - conditions > loc_num - 1 { loc_num - 1 } else { loc_num - conditions }
    } else {
        0 <= ihuman < loc_num
    }
}

/// `after` is `before` with the chosen locations handed out in rank order
/// to the owners that the shuffles `sh_comp` and `sh_players`, the offset
/// `dplayer` and the human rank `ihuman` give.
pub open spec fn assignment_from(
    before: Seq<Tile>,
    w: int,
    h: int,
    comp: Seq<PlayerId>,
    ui: Seq<PlayerId>,
    conditions: int,
    chosen: Seq<Loc>,
    order: Seq<usize>,
    after: Seq<Tile>,
    sh_comp: Seq<PlayerId>,
    sh_players: Seq<PlayerId>,
    dplayer: int,
    ihuman: int,
) -> bool {
    &&& sh_comp.to_multiset() == comp.to_multiset()
    &&& sh_comp.len() == comp.len()
    &&& (comp.len() > 0 ==> 0 <= dplayer < comp.len())
    &&& sh_players.to_multiset() == composed(ui, sh_comp, order.len() as int, dplayer).to_multiset()
    &&& sh_players.len() == composed(ui, sh_comp, order.len() as int, dplayer).len()
    &&& human_rank_ok(ihuman, order, order.len() as int, conditions)
    &&& after == assign_all(
        before,
        w,
        h,
        chosen,
        order,
        Seq::new(order.len(), |r: int| owner_at(r, ui, sh_players, sh_comp, ihuman)),
    )
}

/// The second placement step succeeded on `before`, giving `after`.
pub open spec fn assigned(
    before: Seq<Tile>,
    w: int,
    h: int,
    comp: Seq<PlayerId>,
    ui: Seq<PlayerId>,
    conditions: int,
    chosen: Seq<Loc>,
    order: Seq<usize>,
    after: Seq<Tile>,
) -> bool {
    exists|sh_comp: Seq<PlayerId>, sh_players: Seq<PlayerId>, dplayer: int, ihuman: int| #[trigger] assignment_from(
        before,
        w,
        h,
        comp,
        ui,
        conditions,
        chosen,
        order,
        after,
        sh_comp,
        sh_players,
        dplayer,
        ihuman,
    )
}

/// `order` lists each of `0..n` exactly once.
pub open spec fn is_perm(order: Seq<usize>, n: int) -> bool {
    &&& order.len() == n
    &&& (forall|a: int| 0 <= a < n ==> #[trigger] order[a] < n)
    &&& (forall|a: int, b: int| 0 <= a < b < n ==> #[trigger] order[a] != #[trigger] order[b])
}

/// Every id in `ps` indexes a population bucket.
pub open spec fn valid_players(ps: Seq<PlayerId>) -> bool {
    forall|k: int| 0 <= k < ps.len() ==> (#[trigger] ps[k]).0 < MAX_PLAYER
}

/// A copy of a slice of player ids.
fn players_to_vec(s: &[PlayerId]) -> (r: Vec<PlayerId>)
    ensures
        r@ == s@,
{
    let mut r: Vec<PlayerId> = Vec::new();
    let mut k: usize = 0;
    while k < s.len()
        invariant
            k <= s@.len(),
            r@ == s@.take(k as int),
        decreases s@.len() - k,
    {
        r.push(s[k]);
        k += 1;
        assert(r@ =~= s@.take(k as int));
    }
    assert(s@.take(s@.len() as int) =~= s@);
    r
}

/// The owner of each rank, given the shuffled lists and the human's rank.
pub fn owners_for(
    ui: &[PlayerId],
    sh_players: &Vec<PlayerId>,
    sh_comp: &Vec<PlayerId>,
    ihuman: usize,
    n: usize,
) -> (r: Vec<PlayerId>)
    requires
        ui@.len() >= 1,
        ui@.len() > 1 ==> sh_players@.len() >= n,
    ensures
        r@ == Seq::new(n as nat, |q: int| owner_at(q, ui@, sh_players@, sh_comp@, ihuman as int)),
{
    let mut r: Vec<PlayerId> = Vec::new();
    let mut q: usize = 0;
    while q < n
        invariant
            q <= n,
            ui@.len() >= 1,
            ui@.len() > 1 ==> sh_players@.len() >= n,
            r@ == Seq::new(q as nat, |a: int| owner_at(a, ui@, sh_players@, sh_comp@, ihuman as int)),
        decreases n - q,
    {
        let pl = if ui.len() > 1 {
            sh_players[q]
        } else if q == ihuman {
            ui[0]
        } else if q < sh_comp.len() {
            sh_comp[q]
        } else {
            PlayerId(0)
        };
        r.push(pl);
        q += 1;
        assert(r@ =~= Seq::new(q as nat, |a: int| owner_at(a, ui@, sh_players@, sh_comp@, ihuman as int)));
    }
    r
}

impl Grid {
    /// Hands `chosen[order[r]]` to `owners[r]` for each rank `r` in turn:
    /// the tile gets that owner and ten of its inhabitants.
    pub fn assign_owners(&mut self, chosen: &Vec<Loc>, order: &Vec<usize>, owners: &Vec<PlayerId>)
        requires
            old(self).wf(),
            owners@.len() == order@.len(),
            valid_players(owners@),
            forall|r: int| 0 <= r < order@.len() ==> #[trigger] order@[r] < chosen@.len(),
        ensures
            final(self).wf(),
            final(self).width == old(self).width,
            final(self).height == old(self).height,
            final(self).tiles@ == assign_all(
                old(self).tiles@,
                old(self).width as int,
                old(self).height as int,
                chosen@,
                order@,
                owners@,
            ),
    {
        let ghost t0 = self.tiles@;
        let mut r: usize = 0;
        while r < order.len()
            invariant
                r <= order@.len(),
                owners@.len() == order@.len(),
                valid_players(owners@),
                forall|q: int| 0 <= q < order@.len() ==> #[trigger] order@[q] < chosen@.len(),
                self.wf(),
                self.width == old(self).width,
                self.height == old(self).height,
                self.tiles@ == assign_all(t0, self.width as int, self.height as int, chosen@, order@.take(r as int), owners@),
                t0 == old(self).tiles@,
            decreases order@.len() - r,
        {
            let l = chosen[order[r]];
            let pl = owners[r];
            let ghost g0 = *self;
            if let Some(t) = self.get_mut(l) {
                t.pl = pl;
                t.pop[pl.index()] = 10;
            }
            proof {
                let w = g0.width as int;
                let h = g0.height as int;
                if g0.in_map(l.i as int, l.j as int) {
                    lemma_idx(w, h, l.i as int, l.j as int);
                    let k = spec_idx(h, l.i as int, l.j as int);
                    assert(self.tiles@[k].pop =~= spec_array_update(g0.tiles@[k].pop, pl.0 as int, 10i32));
                    assert(self.tiles@ =~= assign_one(g0.tiles@, w, h, l, pl));
                    assert forall|q: int| 0 <= q < self.tiles@.len() implies tile_wf(#[trigger] self.tiles@[q]) by {
                        assert(tile_wf(g0.tiles@[q]));
                    }
                }
                assert(order@.take(r + 1).drop_last() =~= order@.take(r as int));
            }
            r += 1;
        }
        assert(order@.take(order@.len() as int) =~= order@);
    }

    /// Second placement step: shuffles the computer players, composes the
    /// player list (humans, then computer players round-robin from a random
    /// offset) and shuffles it, picks the human's rank (by the spawn
    /// preference, or at random), then hands the chosen locations out in
    /// the order `order`.
    pub fn conflict_assign(
        &mut self,
        rng: &mut CowRng,
        cfg: &ConflictConfig,
        chosen: &Vec<Loc>,
        order: &Vec<usize>,
    )
        requires
            old(self).wf(),
            cfg.ui_players@.len() >= 1,
            valid_players(cfg.ui_players@),
            valid_players(cfg.comp_players@),
            cfg.comp_players@.len() <= 0xffff_ffff,
            2 <= order@.len() <= MAX_AVLBL_LOC,
            order@.len() <= cfg.comp_players@.len() + cfg.ui_players@.len(),
            is_perm(order@, order@.len() as int),
            order@.len() <= chosen@.len(),
        ensures
            final(self).wf(),
            final(self).width == old(self).width,
            final(self).height == old(self).height,
            assigned(
                old(self).tiles@,
                old(self).width as int,
                old(self).height as int,
                cfg.comp_players@,
                cfg.ui_players@,
                cfg.conditions as int,
                chosen@,
                order@,
                final(self).tiles@,
            ),
    {
        let loc_num: usize = order.len();
        let mut sh_comp = players_to_vec(cfg.comp_players);
        rng.shuffle(&mut sh_comp);
        let ui_num: usize = cfg.ui_players.len();
        let mut sh_players = players_to_vec(cfg.ui_players);
        let ghost mut dpl: int = 0;
        let ghost sh_comp0 = sh_comp@;
        if cfg.comp_players.len() > 0 {
            let dplayer: usize = rng.below(cfg.comp_players.len() as u32) as usize;
            proof { dpl = dplayer as int; }
            let cn: usize = cfg.comp_players.len();
            let mut k: usize = ui_num;
            while k < loc_num
                invariant
                    ui_num <= k,
                    k <= loc_num || k == ui_num,
                    loc_num <= MAX_AVLBL_LOC,
                    cn == sh_comp@.len(),
                    cn > 0,
                    cn <= 0xffff_ffff,
                    dplayer < cn,
                    ui_num == cfg.ui_players@.len(),
                    sh_players@ == cfg.ui_players@ + Seq::new((k - ui_num) as nat, |q: int| sh_comp@[(q + dplayer) % cn as int]),
                decreases loc_num - k,
            {
                let a: usize = k - ui_num;
                let b: u64 = a as u64 + dplayer as u64;
                let src: u64 = b % (cn as u64);
                sh_players.push(sh_comp[src as usize]);
                k += 1;
                assert(sh_players@ =~= cfg.ui_players@ + Seq::new((k - ui_num) as nat, |q: int| sh_comp@[(q + dplayer) % cn as int]));
            }
            assert(sh_players@ =~= composed(cfg.ui_players@, sh_comp@, loc_num as int, dpl));
        } else {
            assert(sh_players@ =~= composed(cfg.ui_players@, sh_comp@, loc_num as int, dpl));
        }
        let ghost composed0 = sh_players@;
        rng.shuffle(&mut sh_players);
        let ihuman: usize = if cfg.conditions > 0 {
            let d: i64 = loc_num as i64 - cfg.conditions as i64;
            let sel: usize = if d < 0 { 0 } else if d > loc_num as i64 - 1 { loc_num - 1 } else { d as usize };
            sel
        } else {
            rng.below(loc_num as u32) as usize
        };
        let owners = owners_for(cfg.ui_players, &sh_players, &sh_comp, ihuman, loc_num);
        proof {
            assert forall|k: int| 0 <= k < owners@.len() implies (#[trigger] owners@[k]).0 < MAX_PLAYER by {
                if cfg.ui_players@.len() > 1 {
                    assert(composed0.to_multiset().count(sh_players@[k]) > 0) by {
                        assert(sh_players@.to_multiset().count(sh_players@[k]) > 0) by {
                            vstd::seq_lib::to_multiset_contains(sh_players@, sh_players@[k]);
                        }
                    }
                    vstd::seq_lib::to_multiset_contains(composed0, sh_players@[k]);
                    let j = choose|j: int| 0 <= j < composed0.len() && composed0[j] == sh_players@[k];
                    if j >= cfg.ui_players@.len() {
                        let q = j - cfg.ui_players@.len();
                        assert(composed0[j] == sh_comp@[(q + dpl) % sh_comp@.len() as int]);
                        vstd::seq_lib::to_multiset_contains(sh_comp@, sh_comp@[(q + dpl) % sh_comp@.len() as int]);
                        vstd::seq_lib::to_multiset_contains(cfg.comp_players@, sh_comp@[(q + dpl) % sh_comp@.len() as int]);
                    }
                } else if k == ihuman {
                } else if k < sh_comp@.len() {
                    vstd::seq_lib::to_multiset_contains(sh_comp@, sh_comp@[k]);
                    vstd::seq_lib::to_multiset_contains(cfg.comp_players@, sh_comp@[k]);
                }
            }
        }
        self.assign_owners(chosen, order, &owners);
        proof {
            assert(assignment_from(
                old(self).tiles@,
                old(self).width as int,
                old(self).height as int,
                cfg.comp_players@,
                cfg.ui_players@,
                cfg.conditions as int,
                chosen@,
                order@,
                self.tiles@,
                sh_comp@,
                sh_players@,
                dpl,
                ihuman as int,
            ));
        }
    }
}

/// The sum of the entries of `s`.
pub open spec fn sum_seq(s: Seq<i32>) -> int
    decreases s.len(),
{
    if s.len() == 0 { 0 } else { sum_seq(s.drop_last()) + s.last() }
}

/// Lowering entries lowers the sum; lowering one strictly lowers it
/// strictly.
pub proof fn lemma_sum_seq_le(s1: Seq<i32>, s2: Seq<i32>, w: int)
    requires
        s1.len() == s2.len(),
        forall|k: int| 0 <= k < s1.len() ==> s2[k] <= s1[k],
    ensures
        sum_seq(s2) <= sum_seq(s1),
        0 <= w < s1.len() && s2[w] < s1[w] ==> sum_seq(s2) < sum_seq(s1),
    decreases s1.len(),
{
    if s1.len() > 0 {
        assert forall|k: int| 0 <= k < s1.drop_last().len() implies s2.drop_last()[k] <= s1.drop_last()[k] by {
            assert(s2.drop_last()[k] == s2[k]);
            assert(s1.drop_last()[k] == s1[k]);
        }
        lemma_sum_seq_le(s1.drop_last(), s2.drop_last(), w);
        if 0 <= w < s1.len() - 1 {
            assert(s1.drop_last()[w] == s1[w]);
            assert(s2.drop_last()[w] == s2[w]);
        }
    }
}

/// A sequence of non-negative entries has a non-negative sum.
pub proof fn lemma_sum_seq_nonneg(s: Seq<i32>)
    requires
        forall|k: int| 0 <= k < s.len() ==> 0 <= #[trigger] s[k],
    ensures
        sum_seq(s) >= 0,
    decreases s.len(),
{
    if s.len() > 0 {
        assert forall|k: int| 0 <= k < s.drop_last().len() implies 0 <= #[trigger] s.drop_last()[k] by {
            assert(s.drop_last()[k] == s[k]);
        }
        lemma_sum_seq_nonneg(s.drop_last());
    }
}

/// The direction opposite to direction `k`.
pub open spec fn opposite(k: int) -> int {
    if k % 2 == 0 { k + 1 } else { k - 1 }
}

/// Stepping in direction `k` and then in the opposite direction comes back.
pub proof fn lemma_opposite(c: (int, int), k: int)
    requires
        0 <= k < 6,
    ensures
        0 <= opposite(k) < 6,
        nbr(nbr(c, k), opposite(k)) == c,
        nbr(c, k) != c,
{
}

/// The tile `x` is reached from `s` in at most `n` steps between
/// neighbouring inhabitable tiles (both ends inhabitable).
pub open spec fn within(g: Grid, s: (int, int), x: (int, int), n: nat) -> bool
    decreases n,
{
    inhabitable_at(g, x.0, x.1) && (x == s || (n > 0 && {
        let m = (n - 1) as nat;
        ||| within(g, s, nbr(x, 0), m)
        ||| within(g, s, nbr(x, 1), m)
        ||| within(g, s, nbr(x, 2), m)
        ||| within(g, s, nbr(x, 3), m)
        ||| within(g, s, nbr(x, 4), m)
        ||| within(g, s, nbr(x, 5), m)
    }))
}

/// A tile reached from `s` in `n` steps, other than `s`, has a neighbour
/// reached in `n - 1`.
proof fn lemma_within_pred(g: Grid, s: (int, int), x: (int, int), n: nat) -> (k: int)
    requires
        within(g, s, x, n),
        x != s,
    ensures
        0 <= k < 6,
        n > 0,
        within(g, s, nbr(x, k), (n - 1) as nat),
{
    let m = (n - 1) as nat;
    if within(g, s, nbr(x, 0), m) {
        0
    } else if within(g, s, nbr(x, 1), m) {
        1
    } else if within(g, s, nbr(x, 2), m) {
        2
    } else if within(g, s, nbr(x, 3), m) {
        3
    } else if within(g, s, nbr(x, 4), m) {
        4
    } else {
        5
    }
}

/// An inhabitable tile with a neighbour reached from `s` in `n` steps is
/// reached in `n + 1`.
proof fn lemma_within_succ(g: Grid, s: (int, int), x: (int, int), k: int, n: nat)
    requires
        0 <= k < 6,
        inhabitable_at(g, x.0, x.1),
        within(g, s, nbr(x, k), n),
    ensures
        within(g, s, x, n + 1),
{
    if k == 0 {
        assert(within(g, s, nbr(x, 0), n));
    } else if k == 1 {
        assert(within(g, s, nbr(x, 1), n));
    } else if k == 2 {
        assert(within(g, s, nbr(x, 2), n));
    } else if k == 3 {
        assert(within(g, s, nbr(x, 3), n));
    } else if k == 4 {
        assert(within(g, s, nbr(x, 4), n));
    } else {
        assert(within(g, s, nbr(x, 5), n));
    }
}

/// A path from a neighbour of `s` extends by one step to a path from `s`.
proof fn lemma_within_front(g: Grid, s: (int, int), k: int, x: (int, int), m: nat)
    requires
        0 <= k < 6,
        inhabitable_at(g, s.0, s.1),
        within(g, nbr(s, k), x, m),
    ensures
        within(g, s, x, m + 1),
    decreases m,
{
    if x == s {
    } else if x == nbr(s, k) {
        lemma_opposite(s, k);
        assert(within(g, s, s, m));
        lemma_within_succ(g, s, x, opposite(k), m);
    } else {
        let k2 = lemma_within_pred(g, nbr(s, k), x, m);
        lemma_within_front(g, s, k, nbr(x, k2), (m - 1) as nat);
        lemma_within_succ(g, s, x, k2, m);
    }
}

/// Paths start at an inhabitable tile.
proof fn lemma_within_start(g: Grid, s: (int, int), x: (int, int), n: nat)
    requires
        within(g, s, x, n),
    ensures
        inhabitable_at(g, s.0, s.1),
    decreases n,
{
    if x != s {
        let k = lemma_within_pred(g, s, x, n);
        lemma_within_start(g, s, nbr(x, k), (n - 1) as nat);
    }
}

/// A path of `n` steps is also one of at most `n + 1`.
proof fn lemma_within_mono(g: Grid, s: (int, int), x: (int, int), n: nat)
    requires
        within(g, s, x, n),
    ensures
        within(g, s, x, n + 1),
    decreases n,
{
    if x != s {
        let k = lemma_within_pred(g, s, x, n);
        lemma_within_mono(g, s, nbr(x, k), (n - 1) as nat);
        lemma_within_succ(g, s, x, k, n);
    }
}

/// A path of `n` steps is also one of at most `m >= n`.
proof fn lemma_within_mono_to(g: Grid, s: (int, int), x: (int, int), n: nat, m: nat)
    requires
        within(g, s, x, n),
        n <= m,
    ensures
        within(g, s, x, m),
    decreases m - n,
{
    if n < m {
        lemma_within_mono(g, s, x, n);
        lemma_within_mono_to(g, s, x, n + 1, m);
    }
}

/// The indices of the tiles that `s` reaches within `n` steps.
pub open spec fn reach_set(g: Grid, s: (int, int), n: nat) -> Set<int> {
    Set::new(|x: int| 0 <= x < g.tiles@.len() && within(g, s, coord(g, x), n))
}

/// No tile is first reached from `s` in `n + 1` steps.
pub open spec fn settled(g: Grid, s: (int, int), n: nat) -> bool {
    forall|y: (int, int)| #[trigger] within(g, s, y, n + 1) ==> within(g, s, y, n)
}

/// Once no tile is first reached in `n + 1` steps, none is first reached
/// later: a path of `m >= n` steps shortens to `n`.
proof fn lemma_settled_stays(g: Grid, s: (int, int), n: nat, m: nat, y: (int, int))
    requires
        settled(g, s, n),
        n <= m,
        within(g, s, y, m),
    ensures
        within(g, s, y, n),
    decreases m - n, m,
{
    if n < m {
        if y != s {
            let k = lemma_within_pred(g, s, y, m);
            if n + 1 <= m - 1 {
                lemma_settled_stays(g, s, n, (m - 1) as nat, nbr(y, k));
                lemma_within_succ(g, s, y, k, n);
                assert(within(g, s, y, n + 1));
            } else {
                assert(within(g, s, y, n + 1));
            }
        }
    }
}

/// While every step reaches a new tile, `n` steps reach at least `n + 1`
/// tiles.
proof fn lemma_reach_grows(g: Grid, s: (int, int), n: nat)
    requires
        g.wf(),
        inhabitable_at(g, s.0, s.1),
        forall|j: nat| j < n ==> !#[trigger] settled(g, s, j),
    ensures
        reach_set(g, s, n).finite(),
        reach_set(g, s, n).len() >= n + 1,
    decreases n,
{
    let t = g.tiles@.len() as int;
    lemma_int_range(0, t);
    assert(reach_set(g, s, n).subset_of(set_int_range(0, t)));
    lemma_len_subset(reach_set(g, s, n), set_int_range(0, t));
    if n == 0 {
        let x = spec_idx(g.height as int, s.0, s.1);
        lemma_idx(g.width as int, g.height as int, s.0, s.1);
        assert(coord(g, x) == s);
        assert(reach_set(g, s, 0).contains(x));
        Set::<int>::empty().lemma_subset_not_in_lt(reach_set(g, s, 0), x);
    } else {
        let m = (n - 1) as nat;
        lemma_reach_grows(g, s, m);
        assert(!settled(g, s, m));
        let y = choose|y: (int, int)| #[trigger] within(g, s, y, m + 1) && !within(g, s, y, m);
        let x = spec_idx(g.height as int, y.0, y.1);
        lemma_idx(g.width as int, g.height as int, y.0, y.1);
        assert(coord(g, x) == y);
        assert forall|z: int| #[trigger] reach_set(g, s, m).contains(z) implies reach_set(g, s, n).contains(z) by {
            lemma_within_mono(g, s, coord(g, z), m);
        }
        assert(reach_set(g, s, n).contains(x));
        assert(!reach_set(g, s, m).contains(x));
        reach_set(g, s, m).lemma_subset_not_in_lt(reach_set(g, s, n), x);
    }
}

/// A tile reached at all is reached in at most as many steps as the map
/// has tiles.
pub proof fn lemma_short_path(g: Grid, s: (int, int), x: (int, int), n: nat)
    requires
        g.wf(),
        within(g, s, x, n),
    ensures
        within(g, s, x, g.tiles@.len()),
{
    let t = g.tiles@.len();
    lemma_within_start(g, s, x, n);
    if n <= t {
        lemma_within_mono_to(g, s, x, n, t);
    } else if exists|j: nat| j < t && #[trigger] settled(g, s, j) {
        let j = choose|j: nat| j < t && #[trigger] settled(g, s, j);
        lemma_settled_stays(g, s, j, n, x);
        lemma_within_mono_to(g, s, x, j, t);
    } else {
        lemma_reach_grows(g, s, t);
        lemma_int_range(0, t as int);
        assert(reach_set(g, s, t).subset_of(set_int_range(0, t as int)));
        lemma_len_subset(reach_set(g, s, t), set_int_range(0, t as int));
    }
}

/// The distances `d` grow by at most one from a reached tile (one below
/// `i32::MAX`) to each inhabitable neighbour.
pub open spec fn consistent(g: Grid, d: Seq<i32>) -> bool {
    forall|a: int, b: int, q: int| g.in_map(a, b) && 0 <= q < 6
        && #[trigger] d[spec_idx(g.height as int, a, b)] < i32::MAX
        && inhabitable_at(g, #[trigger] nbr((a, b), q).0, nbr((a, b), q).1)
        ==> d[spec_idx(g.height as int, nbr((a, b), q).0, nbr((a, b), q).1)]
            <= d[spec_idx(g.height as int, a, b)] + 1
}

/// With consistent distances and `s` at distance at most `dist`, a tile
/// reached from `s` in `n` steps is at distance at most `dist + n`.
proof fn lemma_within_bound(g: Grid, d: Seq<i32>, s: (int, int), x: (int, int), n: nat, dist: int)
    requires
        g.wf(),
        d.len() == g.tiles@.len(),
        consistent(g, d),
        inhabitable_at(g, s.0, s.1),
        d[spec_idx(g.height as int, s.0, s.1)] <= dist,
        within(g, s, x, n),
    ensures
        d[spec_idx(g.height as int, x.0, x.1)] <= dist + n,
    decreases n,
{
    if x != s {
        let k = lemma_within_pred(g, s, x, n);
        let y = nbr(x, k);
        lemma_within_bound(g, d, s, y, (n - 1) as nat, dist);
        lemma_opposite(x, k);
        lemma_idx(g.width as int, g.height as int, y.0, y.1);
        lemma_idx(g.width as int, g.height as int, x.0, x.1);
        if d[spec_idx(g.height as int, y.0, y.1)] < i32::MAX {
            assert(nbr(y, opposite(k)) == x);
            assert(inhabitable_at(g, nbr(y, opposite(k)).0, nbr(y, opposite(k)).1));
        }
    }
}

/// `floodfill_closest`: walks the inhabitable tiles from `l` at distance
/// `dist`, recording at each tile reached closer than before the new
/// distance in `d` and the start's label `val` in `u`. Distances only
/// fall; a tile whose distance fell carries `val`, and `l` reaches it in
/// its new distance less `dist` steps; each inhabitable neighbour of such a
/// tile ends at most one step farther.
fn floodfill_closest(g: &Grid, u: &mut Vec<i32>, d: &mut Vec<i32>, l: Loc, val: i32, dist: i32)
    requires
        g.wf(),
        old(u)@.len() == g.tiles@.len(),
        old(d)@.len() == g.tiles@.len(),
        0 <= dist,
        forall|x: int| 0 <= x < old(d)@.len() ==> 0 <= #[trigger] old(d)@[x],
    ensures
        final(u)@.len() == old(u)@.len(),
        final(d)@.len() == old(d)@.len(),
        forall|x: int| 0 <= x < old(d)@.len() ==> 0 <= #[trigger] final(d)@[x] <= old(d)@[x],
        forall|x: int| 0 <= x < old(d)@.len() && #[trigger] final(d)@[x] < old(d)@[x]
            ==> final(u)@[x] == val && final(d)@[x] >= dist,
        forall|x: int| 0 <= x < old(d)@.len() && #[trigger] final(d)@[x] == old(d)@[x]
            ==> final(u)@[x] == old(u)@[x],
        inhabitable_at(*g, l.i as int, l.j as int)
            && old(d)@[spec_idx(g.height as int, l.i as int, l.j as int)] > dist
            ==> final(d)@[spec_idx(g.height as int, l.i as int, l.j as int)] == dist,
        forall|a: int, b: int, k: int| g.in_map(a, b) && 0 <= k < 6
            && #[trigger] final(d)@[spec_idx(g.height as int, a, b)] < old(d)@[spec_idx(g.height as int, a, b)]
            && inhabitable_at(*g, #[trigger] nbr((a, b), k).0, nbr((a, b), k).1)
            ==> final(d)@[spec_idx(g.height as int, nbr((a, b), k).0, nbr((a, b), k).1)]
                <= final(d)@[spec_idx(g.height as int, a, b)] + 1,
        forall|a: int, b: int| g.in_map(a, b)
            && #[trigger] final(d)@[spec_idx(g.height as int, a, b)] < old(d)@[spec_idx(g.height as int, a, b)]
            ==> within(*g, (l.i as int, l.j as int), (a, b),
                (final(d)@[spec_idx(g.height as int, a, b)] - dist) as nat),
    decreases sum_seq(d@),
{
    if !inhabitable(g, l) {
        return;
    }
    let h: usize = g.height;
    proof {
        lemma_idx(g.width as int, h as int, l.i as int, l.j as int);
        lemma_area(g.width as int, h as int);
    }
    let idx: usize = (l.i as usize) * h + (l.j as usize);
    if d[idx] <= dist {
        return;
    }
    let ghost d0 = old(d)@;
    let ghost u0 = old(u)@;
    let ghost s = (l.i as int, l.j as int);
    u.set(idx, val);
    d.set(idx, dist);
    proof {
        lemma_sum_seq_le(d0, d@, idx as int);
        lemma_sum_seq_nonneg(d@);
        assert forall|a: int, b: int| g.in_map(a, b)
            && #[trigger] d@[spec_idx(h as int, a, b)] < d0[spec_idx(h as int, a, b)]
            implies (a, b) == s by {
            lemma_idx(g.width as int, h as int, a, b);
        }
    }
    let mut k: usize = 0;
    while k < 6
        invariant
            0 <= k <= 6,
            g.wf(),
            g.height == h,
            g.in_map(s.0, s.1),
            s == (l.i as int, l.j as int),
            inhabitable_at(*g, s.0, s.1),
            idx == spec_idx(h as int, s.0, s.1),
            idx < d0.len(),
            d0 == old(d)@,
            u0 == old(u)@,
            0 <= dist < i32::MAX,
            d@.len() == d0.len(),
            u@.len() == u0.len(),
            d0.len() == g.tiles@.len(),
            u0.len() == g.tiles@.len(),
            d@[idx as int] == dist,
            d0[idx as int] > dist,
            sum_seq(d@) < sum_seq(d0),
            forall|x: int| 0 <= x < d0.len() ==> 0 <= #[trigger] d@[x] <= d0[x],
            forall|x: int| 0 <= x < d0.len() && #[trigger] d@[x] < d0[x] ==> u@[x] == val && d@[x] >= dist,
            forall|x: int| 0 <= x < d0.len() && #[trigger] d@[x] == d0[x] ==> u@[x] == u0[x],
            forall|a: int, b: int, q: int| g.in_map(a, b) && 0 <= q < 6 && (a, b) != s
                && #[trigger] d@[spec_idx(h as int, a, b)] < d0[spec_idx(h as int, a, b)]
                && inhabitable_at(*g, #[trigger] nbr((a, b), q).0, nbr((a, b), q).1)
                ==> d@[spec_idx(h as int, nbr((a, b), q).0, nbr((a, b), q).1)]
                    <= d@[spec_idx(h as int, a, b)] + 1,
            forall|q: int| 0 <= q < k && inhabitable_at(*g, #[trigger] nbr(s, q).0, nbr(s, q).1)
                ==> d@[spec_idx(h as int, nbr(s, q).0, nbr(s, q).1)] <= dist + 1,
            forall|a: int, b: int| g.in_map(a, b)
                && #[trigger] d@[spec_idx(h as int, a, b)] < d0[spec_idx(h as int, a, b)]
                ==> within(*g, s, (a, b), (d@[spec_idx(h as int, a, b)] - dist) as nat),
        decreases 6 - k,
    {
        let dd = dir(k);
        let n = Loc::new(l.i + dd.i, l.j + dd.j);
        let ghost dk = d@;
        let ghost uk = u@;
        proof {
            lemma_sum_seq_le(d0, dk, idx as int);
            lemma_sum_seq_nonneg(dk);
        }
        floodfill_closest(g, u, d, n, val, dist + 1);
        proof {
            let nc = (n.i as int, n.j as int);
            assert(nc == nbr(s, k as int));
            assert forall|a: int, b: int| g.in_map(a, b)
                && #[trigger] d@[spec_idx(h as int, a, b)] < d0[spec_idx(h as int, a, b)]
                implies within(*g, s, (a, b), (d@[spec_idx(h as int, a, b)] - dist) as nat) by {
                let x = spec_idx(h as int, a, b);
                lemma_idx(g.width as int, h as int, a, b);
                if d@[x] < dk[x] {
                    assert(d@[x] >= dist + 1);
                    assert(within(*g, nc, (a, b), (d@[x] - (dist + 1)) as nat));
                    lemma_within_front(*g, s, k as int, (a, b), (d@[x] - (dist + 1)) as nat);
                } else {
                    assert(d@[x] == dk[x]);
                }
            }
            assert forall|x: int| 0 <= x < d0.len() implies 0 <= #[trigger] d@[x] <= d0[x] by {
                assert(d@[x] <= dk[x]);
            }
            assert forall|x: int| 0 <= x < d0.len() && #[trigger] d@[x] < d0[x] implies u@[x] == val && d@[x] >= dist by {
                if d@[x] < dk[x] {
                } else {
                    assert(d@[x] == dk[x]);
                }
            }
            assert forall|x: int| 0 <= x < d0.len() && #[trigger] d@[x] == d0[x] implies u@[x] == u0[x] by {
                assert(d@[x] <= dk[x] && dk[x] <= d0[x]);
                assert(dk[x] == d0[x]);
            }
            assert forall|a: int, b: int, q: int| g.in_map(a, b) && 0 <= q < 6 && (a, b) != s
                && #[trigger] d@[spec_idx(h as int, a, b)] < d0[spec_idx(h as int, a, b)]
                && inhabitable_at(*g, #[trigger] nbr((a, b), q).0, nbr((a, b), q).1)
                implies d@[spec_idx(h as int, nbr((a, b), q).0, nbr((a, b), q).1)]
                    <= d@[spec_idx(h as int, a, b)] + 1 by {
                let x = spec_idx(h as int, a, b);
                let y = spec_idx(h as int, nbr((a, b), q).0, nbr((a, b), q).1);
                lemma_idx(g.width as int, h as int, a, b);
                lemma_idx(g.width as int, h as int, nbr((a, b), q).0, nbr((a, b), q).1);
                if d@[x] < dk[x] {
                } else {
                    assert(d@[x] == dk[x]);
                    assert(dk[x] < d0[x]);
                    assert(dk[y] <= dk[x] + 1);
                    assert(d@[y] <= dk[y]);
                }
            }
            assert forall|q: int| 0 <= q < k + 1 && inhabitable_at(*g, #[trigger] nbr(s, q).0, nbr(s, q).1)
                implies d@[spec_idx(h as int, nbr(s, q).0, nbr(s, q).1)] <= dist + 1 by {
                let y = spec_idx(h as int, nbr(s, q).0, nbr(s, q).1);
                lemma_idx(g.width as int, h as int, nbr(s, q).0, nbr(s, q).1);
                if q < k {
                    assert(d@[y] <= dk[y]);
                } else {
                    if dk[y] > dist + 1 {
                    } else {
                        assert(d@[y] <= dk[y]);
                    }
                }
            }
            assert(d@[idx as int] == dist) by {
                assert(d@[idx as int] <= dk[idx as int]);
                if d@[idx as int] < dk[idx as int] {
                    assert(d@[idx as int] >= dist + 1);
                }
            }
            lemma_sum_seq_le(d0, d@, idx as int);
            assert forall|x: int| 0 <= x < d@.len() implies 0 <= #[trigger] d@[x] by {}
            lemma_sum_seq_nonneg(d@);
        }
        k += 1;
    }
    proof {
        assert forall|a: int, b: int, q: int| g.in_map(a, b) && 0 <= q < 6
            && #[trigger] d@[spec_idx(h as int, a, b)] < d0[spec_idx(h as int, a, b)]
            && inhabitable_at(*g, #[trigger] nbr((a, b), q).0, nbr((a, b), q).1)
            implies d@[spec_idx(h as int, nbr((a, b), q).0, nbr((a, b), q).1)]
                <= d@[spec_idx(h as int, a, b)] + 1 by {
            if (a, b) == s {
                assert(nbr((a, b), q) == nbr(s, q));
            }
        }
    }
}

/// One neighbour's vote in the claim on a mine: the first reachable
/// neighbour names the candidate owner and its distance; a neighbour of the
/// same owner widens the distance range; one of another reachable owner
/// makes the mine contested (-2); unreachable neighbours (-1) do not count.
pub open spec fn claim_step(st: (int, int, int), o: int, dd: int) -> (int, int, int) {
    if st.0 == -1 {
        (o, dd, dd)
    } else if o == st.0 {
        (st.0, if dd > st.1 { dd } else { st.1 }, if dd < st.2 { dd } else { st.2 })
    } else if o != -1 {
        (-2, st.1, st.2)
    } else {
        st
    }
}

/// The claim on the mine at `(a, b)` after the votes of its inhabitable
/// neighbours in directions `k..6`.
pub open spec fn claim_dirs(g: Grid, u: Seq<i32>, d: Seq<i32>, a: int, b: int, k: int, st: (int, int, int)) -> (int, int, int)
    decreases 6 - k,
{
    if k < 0 || k >= 6 {
        st
    } else {
        let n = nbr((a, b), k);
        let st1 = if inhabitable_at(g, n.0, n.1) {
            let x = spec_idx(g.height as int, n.0, n.1);
            claim_step(st, u[x] as int, d[x] as int)
        } else {
            st
        };
        claim_dirs(g, u, d, a, b, k + 1, st1)
    }
}

/// The claim on the tile at `(a, b)`: for a mine whose reachable
/// neighbours all carry one label, that label with the largest and the
/// smallest of their distances; `None` otherwise.
pub open spec fn mine_claim_spec(g: Grid, u: Seq<i32>, d: Seq<i32>, a: int, b: int) -> Option<(int, int, int)> {
    if g.tile(a, b).cl != TileClass::Mine {
        None
    } else {
        let st = claim_dirs(g, u, d, a, b, 0, (-1, 0, i32::MAX as int));
        if st.0 == -1 || st.0 == -2 { None } else { Some(st) }
    }
}

/// When every label is unreachable (-1) or below `len`, a claim names an
/// unreachable, contested or valid label.
proof fn lemma_claim_dirs_range(g: Grid, u: Seq<i32>, d: Seq<i32>, a: int, b: int, k: int, st: (int, int, int), len: int)
    requires
        g.wf(),
        u.len() == g.tiles@.len(),
        -2 <= st.0 < len,
        forall|x: int| 0 <= x < u.len() ==> #[trigger] u[x] == -1 || 0 <= u[x] < len,
    ensures
        -2 <= claim_dirs(g, u, d, a, b, k, st).0 < len,
    decreases 6 - k,
{
    if 0 <= k < 6 {
        let n = nbr((a, b), k);
        if inhabitable_at(g, n.0, n.1) {
            lemma_idx(g.width as int, g.height as int, n.0, n.1);
            let x = spec_idx(g.height as int, n.0, n.1);
            lemma_claim_dirs_range(g, u, d, a, b, k + 1, claim_step(st, u[x] as int, d[x] as int), len);
        } else {
            lemma_claim_dirs_range(g, u, d, a, b, k + 1, st, len);
        }
    }
}

/// The claim on one tile, from the labels `u` and distances `d` of its
/// neighbours.
pub fn mine_claim(g: &Grid, u: &Vec<i32>, d: &Vec<i32>, l: Loc) -> (r: Option<(i32, i32, i32)>)
    requires
        g.wf(),
        u@.len() == g.tiles@.len(),
        d@.len() == g.tiles@.len(),
        g.in_map(l.i as int, l.j as int),
    ensures
        r matches Some(c) ==> mine_claim_spec(*g, u@, d@, l.i as int, l.j as int) == Some((c.0 as int, c.1 as int, c.2 as int)),
        r is None ==> mine_claim_spec(*g, u@, d@, l.i as int, l.j as int) is None,
{
    let h: usize = g.height;
    proof {
        lemma_idx(g.width as int, h as int, l.i as int, l.j as int);
        lemma_area(g.width as int, h as int);
    }
    let idx: usize = (l.i as usize) * h + (l.j as usize);
    if g.tiles[idx].cl != TileClass::Mine {
        return None;
    }
    let mut single: i32 = -1;
    let mut maxd: i32 = 0;
    let mut mind: i32 = i32::MAX;
    let ghost a = l.i as int;
    let ghost b = l.j as int;
    let mut k: usize = 0;
    while k < 6
        invariant
            k <= 6,
            g.wf(),
            g.height == h,
            g.in_map(a, b),
            a == l.i,
            b == l.j,
            u@.len() == g.tiles@.len(),
            d@.len() == g.tiles@.len(),
            claim_dirs(*g, u@, d@, a, b, k as int, (single as int, maxd as int, mind as int))
                == claim_dirs(*g, u@, d@, a, b, 0, (-1, 0, i32::MAX as int)),
        decreases 6 - k,
    {
        let dd = dir(k);
        let n = Loc::new(l.i + dd.i, l.j + dd.j);
        if inhabitable(g, n) {
            proof {
                lemma_idx(g.width as int, h as int, n.i as int, n.j as int);
                lemma_area(g.width as int, h as int);
            }
            let x: usize = (n.i as usize) * h + (n.j as usize);
            let o = u[x];
            let nd = d[x];
            if single == -1 {
                single = o;
                maxd = nd;
                mind = nd;
            } else if o == single {
                if nd > maxd {
                    maxd = nd;
                }
                if nd < mind {
                    mind = nd;
                }
            } else if o != -1 {
                single = -2;
            }
        }
        k += 1;
    }
    if single == -2 || single == -1 {
        None
    } else {
        Some((single, maxd, mind))
    }
}

/// The coordinates of a location.
pub open spec fn at(l: Loc) -> (int, int) {
    (l.i as int, l.j as int)
}

/// The label `u` and distance `d` of the tile at `(a, b)` name the nearest
/// of the first `len` starts in `chosen` and its distance: that start
/// reaches the tile in `d` steps between inhabitable tiles, none reaches it
/// in fewer, and no earlier start in as few. A tile no start reaches has
/// label -1 and distance `i32::MAX`.
pub open spec fn label_ok(g: Grid, chosen: Seq<Loc>, len: int, u: Seq<i32>, d: Seq<i32>, a: int, b: int) -> bool {
    let x = spec_idx(g.height as int, a, b);
    let lbl = u[x] as int;
    let dd = d[x] as int;
    &&& lbl == -1 ==> dd == i32::MAX && forall|k: int, n: nat| 0 <= k < len ==> !#[trigger] within(
        g, at(chosen[k]), (a, b), n)
    &&& lbl != -1 ==> 0 <= lbl < len && 0 <= dd && within(g, at(chosen[lbl]), (a, b), dd as nat)
    &&& forall|k: int, n: nat| 0 <= k < len && #[trigger] within(g, at(chosen[k]), (a, b), n)
        ==> dd <= n && (k < lbl ==> dd < n)
}

/// `u` and `d` label every tile of the map with its nearest start among
/// the first `len` of `chosen` (see `label_ok`).
pub open spec fn nearest_labels(g: Grid, chosen: Seq<Loc>, len: int, u: Seq<i32>, d: Seq<i32>) -> bool {
    &&& u.len() == g.tiles@.len()
    &&& d.len() == g.tiles@.len()
    &&& forall|a: int, b: int| g.in_map(a, b) ==> #[trigger] label_ok(g, chosen, len, u, d, a, b)
}

/// `r` holds, for every tile, the claim that the labels `u` and distances
/// `d` give it (`mine_claim_spec`).
pub open spec fn claims_from(g: Grid, u: Seq<i32>, d: Seq<i32>, r: Seq<Option<(usize, i32, i32)>>) -> bool {
    &&& r.len() == g.tiles@.len()
    &&& forall|t: int| 0 <= t < r.len() ==> #[trigger] r[t] == match mine_claim_spec(g, u, d, coord(g, t).0, coord(g, t).1) {
        Some(c) => Some((c.0 as usize, c.1 as i32, c.2 as i32)),
        None => None,
    }
}

/// Consistent distances stay consistent through a closest-distance fill.
proof fn lemma_fill_consistent(g: Grid, d0: Seq<i32>, d1: Seq<i32>)
    requires
        g.wf(),
        d0.len() == g.tiles@.len(),
        d1.len() == g.tiles@.len(),
        consistent(g, d0),
        forall|x: int| 0 <= x < d0.len() ==> #[trigger] d1[x] <= d0[x],
        forall|a: int, b: int, k: int| g.in_map(a, b) && 0 <= k < 6
            && #[trigger] d1[spec_idx(g.height as int, a, b)] < d0[spec_idx(g.height as int, a, b)]
            && inhabitable_at(g, #[trigger] nbr((a, b), k).0, nbr((a, b), k).1)
            ==> d1[spec_idx(g.height as int, nbr((a, b), k).0, nbr((a, b), k).1)]
                <= d1[spec_idx(g.height as int, a, b)] + 1,
    ensures
        consistent(g, d1),
{
    let h = g.height as int;
    assert forall|a: int, b: int, q: int| g.in_map(a, b) && 0 <= q < 6
        && #[trigger] d1[spec_idx(h, a, b)] < i32::MAX
        && inhabitable_at(g, #[trigger] nbr((a, b), q).0, nbr((a, b), q).1)
        implies d1[spec_idx(h, nbr((a, b), q).0, nbr((a, b), q).1)] <= d1[spec_idx(h, a, b)] + 1 by {
        let x = spec_idx(h, a, b);
        let y = spec_idx(h, nbr((a, b), q).0, nbr((a, b), q).1);
        lemma_idx(g.width as int, h, a, b);
        lemma_idx(g.width as int, h, nbr((a, b), q).0, nbr((a, b), q).1);
        if d1[x] < d0[x] {
        } else {
            assert(d1[x] <= d0[x]);
            assert(d0[y] <= d0[x] + 1);
            assert(d1[y] <= d0[y]);
        }
    }
}

/// The claims of the starting locations on the mines. Each of the first
/// `len` chosen locations labels (with its rank) the inhabitable tiles it
/// reaches more closely than the earlier ones, with their distance
/// (`nearest_labels`); then each mine whose reachable neighbours carry a
/// single label is claimed by that label (`mine_claim_spec`). Entry `k` is
/// the claim on tile `k`: label, largest and smallest neighbour distance.
pub fn mine_claims(g: &Grid, chosen: &Vec<Loc>, len: usize) -> (r: Vec<Option<(usize, i32, i32)>>)
    requires
        g.wf(),
        len <= chosen@.len(),
        len <= MAX_AVLBL_LOC,
    ensures
        exists|u: Seq<i32>, d: Seq<i32>| #[trigger] nearest_labels(*g, chosen@, len as int, u, d)
            && claims_from(*g, u, d, r@),
        forall|k: int| 0 <= k < r@.len() && #[trigger] r@[k] is Some ==> r@[k].unwrap().0 < len
            && g.tiles@[k].cl == TileClass::Mine,
{
    let n: usize = g.tiles.len();
    let h: usize = g.height;
    proof { lemma_area(g.width as int, h as int); }
    let mut u: Vec<i32> = Vec::new();
    let mut d: Vec<i32> = Vec::new();
    let mut q: usize = 0;
    while q < n
        invariant
            q <= n,
            u@.len() == q,
            d@.len() == q,
            forall|x: int| 0 <= x < q ==> #[trigger] u@[x] == -1,
            forall|x: int| 0 <= x < q ==> #[trigger] d@[x] == i32::MAX,
        decreases n - q,
    {
        u.push(-1);
        d.push(i32::MAX);
        q += 1;
    }
    proof {
        assert forall|a: int, b: int| g.in_map(a, b) implies #[trigger] label_ok(*g, chosen@, 0, u@, d@, a, b) by {
            lemma_idx(g.width as int, h as int, a, b);
        }
        assert forall|a: int, b: int, q: int| g.in_map(a, b) && 0 <= q < 6
            && #[trigger] d@[spec_idx(h as int, a, b)] < i32::MAX
            && inhabitable_at(*g, #[trigger] nbr((a, b), q).0, nbr((a, b), q).1)
            implies d@[spec_idx(h as int, nbr((a, b), q).0, nbr((a, b), q).1)] <= d@[spec_idx(h as int, a, b)] + 1 by {
            lemma_idx(g.width as int, h as int, a, b);
        }
    }
    let mut k: usize = 0;
    while k < len
        invariant
            k <= len,
            len <= chosen@.len(),
            len <= MAX_AVLBL_LOC,
            g.wf(),
            h == g.height,
            n == g.tiles@.len(),
            u@.len() == n,
            d@.len() == n,
            forall|x: int| 0 <= x < n ==> 0 <= #[trigger] d@[x],
            forall|x: int| 0 <= x < n ==> #[trigger] u@[x] == -1 || 0 <= u@[x] < k,
            consistent(*g, d@),
            nearest_labels(*g, chosen@, k as int, u@, d@),
        decreases len - k,
    {
        let ghost u_before = u@;
        let ghost d_before = d@;
        let start = chosen[k];
        floodfill_closest(g, &mut u, &mut d, start, k as i32, 0);
        proof {
            assert forall|x: int| 0 <= x < n implies #[trigger] u@[x] == -1 || 0 <= u@[x] < k + 1 by {
                if d@[x] < d_before[x] {
                } else {
                    assert(d@[x] == d_before[x]);
                }
            }
            lemma_fill_consistent(*g, d_before, d@);
            let s = at(start);
            assert forall|a: int, b: int| g.in_map(a, b) implies #[trigger] label_ok(*g, chosen@, k + 1, u@, d@, a, b) by {
                let x = spec_idx(h as int, a, b);
                lemma_idx(g.width as int, h as int, a, b);
                assert(label_ok(*g, chosen@, k as int, u_before, d_before, a, b));
                assert forall|kk: int, m: nat| 0 <= kk < k + 1 && #[trigger] within(*g, at(chosen@[kk]), (a, b), m)
                    implies d@[x] <= m && (kk < u@[x] ==> d@[x] < m) by {
                    if kk == k {
                        lemma_within_start(*g, s, (a, b), m);
                        lemma_idx(g.width as int, h as int, s.0, s.1);
                        lemma_within_bound(*g, d@, s, (a, b), m, 0);
                    } else {
                        assert(d_before[x] <= m);
                    }
                }
                if u@[x] == -1 {
                    assert forall|kk: int, m: nat| 0 <= kk < k + 1 implies !#[trigger] within(
                        *g, at(chosen@[kk]), (a, b), m) by {
                        if within(*g, at(chosen@[kk]), (a, b), m) {
                            if kk == k {
                                lemma_short_path(*g, s, (a, b), m);
                                lemma_within_start(*g, s, (a, b), m);
                                lemma_idx(g.width as int, h as int, s.0, s.1);
                                lemma_within_bound(*g, d@, s, (a, b), g.tiles@.len(), 0);
                                lemma_area(g.width as int, h as int);
                                assert(d@[x] <= 1160);
                                if d@[x] == d_before[x] {
                                    assert(u_before[x] == -1);
                                }
                            }
                        }
                    }
                }
            }
        }
        k += 1;
    }
    let ghost uf = u@;
    let ghost df = d@;
    let mut r: Vec<Option<(usize, i32, i32)>> = Vec::new();
    let mut t: usize = 0;
    while t < n
        invariant
            t <= n,
            g.wf(),
            h == g.height,
            n == g.tiles@.len(),
            n <= 1160,
            u@ == uf,
            d@ == df,
            u@.len() == n,
            d@.len() == n,
            forall|x: int| 0 <= x < n ==> #[trigger] u@[x] == -1 || 0 <= u@[x] < len,
            r@.len() == t,
            forall|q: int| 0 <= q < t && #[trigger] r@[q] is Some ==> r@[q].unwrap().0 < len
                && g.tiles@[q].cl == TileClass::Mine,
            forall|q: int| 0 <= q < t ==> #[trigger] r@[q] == match mine_claim_spec(*g, uf, df, coord(*g, q).0, coord(*g, q).1) {
                Some(c) => Some((c.0 as usize, c.1 as i32, c.2 as i32)),
                None => None,
            },
        decreases n - t,
    {
        assert(h > 0) by (nonlinear_arith)
            requires n == g.width * h, t < n, h >= 0;
        proof { lemma_idx_inv(g.width as int, h as int, t as int); }
        let l = Loc::new((t / h) as i16, (t % h) as i16);
        let c = mine_claim(g, &u, &d, l);
        proof { assert(coord(*g, t as int) == (l.i as int, l.j as int)); }
        match c {
            Some((o, mx, mn)) => {
                proof {
                    assert(mine_claim_spec(*g, u@, d@, l.i as int, l.j as int) is Some);
                    assert(g.tiles@[t as int].cl == TileClass::Mine);
                    lemma_claim_dirs_range(*g, u@, d@, l.i as int, l.j as int, 0, (-1, 0, i32::MAX as int), len as int);
                }
                r.push(Some((o as usize, mx, mn)));
            },
            None => {
                r.push(None);
            },
        }
        t += 1;
    }
    proof {
        assert(nearest_labels(*g, chosen@, len as int, uf, df));
        assert(claims_from(*g, uf, df, r@));
    }
    r
}

/// Whether `order` lists each of `0..n` exactly once.
pub fn check_perm(order: &Vec<usize>, n: usize) -> (r: bool)
    ensures
        r == is_perm(order@, n as int),
{
    if order.len() != n {
        return false;
    }
    let mut a: usize = 0;
    while a < n
        invariant
            a <= n,
            order@.len() == n,
            forall|x: int| 0 <= x < a ==> #[trigger] order@[x] < n,
            forall|x: int, y: int| 0 <= x < y < n && x < a ==> #[trigger] order@[x] != #[trigger] order@[y],
        decreases n - a,
    {
        if order[a] >= n {
            return false;
        }
        let mut b: usize = a + 1;
        while b < n
            invariant
                a < b <= n,
                order@.len() == n,
                forall|y: int| a < y < b ==> order@[a as int] != #[trigger] order@[y],
            decreases n - b,
        {
            if order[a] == order[b] {
                return false;
            }
            b += 1;
        }
        a += 1;
    }
    true
}

/// One way the placement on `g0` went, ending in `g1` with result `r`:
/// the first step gave the map `mg` with the starts at `chosen`; `rank`
/// answered `res` on them. It succeeded exactly when `res` orders the
/// chosen locations, and then the second step handed them out in that
/// order; otherwise the map stays as the first step left it.
pub open spec fn ranked_via<F: Fn(&Grid, &Vec<Loc>, i32) -> Option<Vec<usize>>>(
    g0: Grid,
    rank: F,
    cfg: ConflictConfig,
    mg: Grid,
    chosen: Vec<Loc>,
    res: Option<Vec<usize>>,
    r: Result<(), ()>,
    g1: Grid,
) -> bool {
    &&& mg.width == g0.width
    &&& mg.height == g0.height
    &&& prepared(g0.tiles@, g0.width as int, g0.height as int, cfg.loc_arr@, cfg.loc_num as int, chosen@, mg.tiles@)
    &&& rank.ensures((&mg, &chosen, cfg.inequality), res)
    &&& (r is Ok <==> (res matches Some(o) && is_perm(o@, chosen@.len() as int)))
    &&& r is Err ==> g1.tiles@ == mg.tiles@
    &&& r is Ok ==> (res matches Some(o) && assigned(
        mg.tiles@,
        g0.width as int,
        g0.height as int,
        cfg.comp_players@,
        cfg.ui_players@,
        cfg.conditions as int,
        chosen@,
        o@,
        g1.tiles@,
    ))
}

impl Grid {
    /// `conflict`: places the starting locations. The first step wipes the
    /// map and places castles and mines at the chosen candidates; `rank`
    /// then orders the chosen locations by their quality (or rejects the
    /// placement, when the spread of qualities does not fit `inequality`);
    /// the second step hands the locations out to the players. Returns
    /// `Err` when the players are too few or the ranking rejected the
    /// placement (or did not return an ordering of the chosen locations),
    /// in which case the caller retries.
    pub fn apply_conflict<F>(&mut self, rng: &mut CowRng, cfg: &ConflictConfig, rank: &F) -> (r: Result<(), ()>)
        where
            F: Fn(&Grid, &Vec<Loc>, i32) -> Option<Vec<usize>>,
        requires
            old(self).wf(),
            cfg.loc_arr@.len() >= 2,
            forall|k: int| 0 <= k < cfg.loc_arr@.len() ==> start_room(#[trigger] cfg.loc_arr@[k]),
            used_loc_num(cfg.loc_num as int, cfg.loc_arr@.len() as int)
                <= cfg.comp_players@.len() + cfg.ui_players@.len() ==> cfg.ui_players@.len() >= 1,
            valid_players(cfg.ui_players@),
            valid_players(cfg.comp_players@),
            cfg.comp_players@.len() <= 0xffff_ffff,
            cfg.comp_players@.len() + cfg.ui_players@.len() <= usize::MAX,
            forall|g: &Grid, c: &Vec<Loc>, q: i32| rank.requires((g, c, q)),
        ensures
            final(self).wf(),
            final(self).width == old(self).width,
            final(self).height == old(self).height,
            used_loc_num(cfg.loc_num as int, cfg.loc_arr@.len() as int)
                > cfg.comp_players@.len() + cfg.ui_players@.len() ==> r is Err
                && final(self).tiles@ == old(self).tiles@.map_values(|t: Tile| wiped(t))
                && final(rng).generator() == old(rng).generator(),
            used_loc_num(cfg.loc_num as int, cfg.loc_arr@.len() as int)
                <= cfg.comp_players@.len() + cfg.ui_players@.len() ==> exists|mg: Grid, chosen: Vec<Loc>, res: Option<Vec<usize>>|
                #[trigger] ranked_via(*old(self), *rank, *cfg, mg, chosen, res, r, *final(self)),
    {
        let ghost g0 = *self;
        let chosen = match self.conflict_prepare(rng, cfg) {
            Ok(c) => c,
            Err(()) => {
                return Err(());
            },
        };
        let ghost mg = *self;
        let res = rank(&*self, &chosen, cfg.inequality);
        let order = match res {
            Some(o) => o,
            None => {
                proof { assert(ranked_via(g0, *rank, *cfg, mg, chosen, res, Err(()), *self)); }
                return Err(());
            },
        };
        if !check_perm(&order, chosen.len()) {
            proof { assert(ranked_via(g0, *rank, *cfg, mg, chosen, res, Err(()), *self)); }
            return Err(());
        }
        self.conflict_assign(rng, cfg, &chosen, &order);
        proof {
            assert(ranked_via(g0, *rank, *cfg, mg, chosen, res, Ok(()), *self));
        }
        Ok(())
    }
}

/// `(i, j)` lies on the map and can hold population.
pub open spec fn inhabitable_at(g: Grid, i: int, j: int) -> bool {
    g.in_map(i, j) && spec_is_inhabitable(g.tile(i, j).cl)
}

/// True when `l` lies on the map and its tile can hold population.
pub fn inhabitable(g: &Grid, l: Loc) -> (r: bool)
    requires
        g.wf(),
    ensures
        r == inhabitable_at(*g, l.i as int, l.j as int),
{
    match g.get(l) {
        Some(t) => t.cl.is_inhabitable(),
        None => false,
    }
}

/// The neighbour of `c` in direction `k`.
pub open spec fn nbr(c: (int, int), k: int) -> (int, int) {
    (c.0 + dir_i(k), c.1 + dir_j(k))
}

/// Number of entries of `s` that differ from `val`.
pub open spec fn count_ne(s: Seq<i32>, val: i32) -> nat
    decreases s.len(),
{
    if s.len() == 0 {
        0
    } else {
        count_ne(s.drop_last(), val) + if s.last() != val { 1nat } else { 0nat }
    }
}

/// Setting entries to `val` never raises the number of entries that differ
/// from `val`, and setting one that differed lowers it.
pub proof fn lemma_count_ne(s1: Seq<i32>, s2: Seq<i32>, val: i32, w: int)
    requires
        s1.len() == s2.len(),
        forall|k: int| 0 <= k < s1.len() ==> s2[k] == s1[k] || s2[k] == val,
    ensures
        count_ne(s2, val) <= count_ne(s1, val),
        0 <= w < s1.len() && s1[w] != val && s2[w] == val ==> count_ne(s2, val) < count_ne(s1, val),
    decreases s1.len(),
{
    if s1.len() > 0 {
        let n = s1.len() - 1;
        assert forall|k: int| 0 <= k < s1.drop_last().len() implies s2.drop_last()[k] == s1.drop_last()[k]
            || s2.drop_last()[k] == val by {
            assert(s2.drop_last()[k] == s2[k]);
            assert(s1.drop_last()[k] == s1[k]);
        }
        lemma_count_ne(s1.drop_last(), s2.drop_last(), val, w);
        if 0 <= w < n && s1[w] != val && s2[w] == val {
            assert(s1.drop_last()[w] == s1[w]);
            assert(s2.drop_last()[w] == s2[w]);
        }
    }
}

/// `m` is closed under stepping from a member to a neighbouring
/// inhabitable tile whose mark `v` differs from `val`.
pub open spec fn region_closed(g: Grid, v: Seq<i32>, val: i32, m: Set<(int, int)>) -> bool {
    forall|c: (int, int), k: int|
        #![trigger m.contains(c), nbr(c, k)]
        m.contains(c) && 0 <= k < 6 && inhabitable_at(g, nbr(c, k).0, nbr(c, k).1)
            && v[spec_idx(g.height as int, nbr(c, k).0, nbr(c, k).1)] != val
            ==> m.contains(nbr(c, k))
}

/// `x` belongs to every set that contains `s` and is closed in the sense of
/// `region_closed`: it is reached from `s` through inhabitable tiles whose
/// mark differs from `val`.
pub open spec fn reached(g: Grid, v: Seq<i32>, val: i32, s: (int, int), x: (int, int)) -> bool {
    forall|m: Set<(int, int)>| region_closed(g, v, val, m) && m.contains(s) ==> #[trigger] m.contains(x)
}

/// A fill can start at `s`: on the map, inhabitable unless `any_start`, and
/// not yet marked.
pub open spec fn fill_starts(g: Grid, v: Seq<i32>, val: i32, s: (int, int), any_start: bool) -> bool {
    &&& g.in_map(s.0, s.1)
    &&& (any_start || spec_is_inhabitable(g.tile(s.0, s.1).cl))
    &&& v[spec_idx(g.height as int, s.0, s.1)] != val
}

/// The tiles a fill from `s` marks: those it reaches, when it can start.
pub open spec fn in_fill(g: Grid, v: Seq<i32>, val: i32, s: (int, int), any_start: bool, x: (int, int)) -> bool {
    fill_starts(g, v, val, s, any_start) && reached(g, v, val, s, x)
}

/// The set of tiles whose mark differs between `v0` and `v1`.
pub open spec fn changed(g: Grid, v0: Seq<i32>, v1: Seq<i32>) -> Set<(int, int)> {
    Set::new(|c: (int, int)| g.in_map(c.0, c.1)
        && v1[spec_idx(g.height as int, c.0, c.1)] != v0[spec_idx(g.height as int, c.0, c.1)])
}

/// Runs a fill from `l` and proves that it marks exactly the tiles of
/// `in_fill` and leaves every other mark as it was.
pub fn fill(g: &Grid, v: &mut Vec<i32>, l: Loc, val: i32, any_start: bool)
    requires
        g.wf(),
        old(v)@.len() == g.tiles@.len(),
        any_start ==> g.in_map(l.i as int, l.j as int),
    ensures
        final(v)@.len() == old(v)@.len(),
        forall|a: int, b: int| g.in_map(a, b) ==> #[trigger] final(v)@[spec_idx(g.height as int, a, b)]
            == if in_fill(*g, old(v)@, val, (l.i as int, l.j as int), any_start, (a, b)) {
                val
            } else {
                old(v)@[spec_idx(g.height as int, a, b)]
            },
{
    if g.height == 0 {
        return;
    }
    let ghost v0 = v@;
    let ghost s = (l.i as int, l.j as int);
    fill_rec(g, v, l, val, any_start);
    proof {
        let h = g.height as int;
        let ms = changed(*g, v0, v@);
        if fill_starts(*g, v0, val, s, any_start) {
            lemma_idx(g.width as int, h, s.0, s.1);
            assert(ms.contains(s));
            assert(region_closed(*g, v0, val, ms)) by {
                assert forall|c: (int, int), k: int|
                    #![trigger ms.contains(c), nbr(c, k)]
                    ms.contains(c) && 0 <= k < 6 && inhabitable_at(*g, nbr(c, k).0, nbr(c, k).1)
                    && v0[spec_idx(h, nbr(c, k).0, nbr(c, k).1)] != val
                    implies ms.contains(nbr(c, k)) by {
                    let a = c.0;
                    let b = c.1;
                    assert(v@[spec_idx(h, a, b)] != v0[spec_idx(h, a, b)]);
                    assert(nbr((a, b), k) == nbr(c, k));
                    assert(v@[spec_idx(h, nbr((a, b), k).0, nbr((a, b), k).1)] == val);
                }
            }
        }
        assert forall|a: int, b: int| g.in_map(a, b) implies #[trigger] v@[spec_idx(h, a, b)]
            == if in_fill(*g, v0, val, s, any_start, (a, b)) { val } else { v0[spec_idx(h, a, b)] } by {
            lemma_idx(g.width as int, h, a, b);
            let x = spec_idx(h, a, b);
            assert(v@[x] == v0[x] || v@[x] == val);
            if in_fill(*g, v0, val, s, any_start, (a, b)) {
                assert(ms.contains((a, b)));
            } else if fill_starts(*g, v0, val, s, any_start) {
                if v@[x] != v0[x] {
                    assert(reached(*g, v0, val, s, (a, b)));
                }
            }
        }
    }
}

/// `m` is closed under stepping from a member to a neighbouring
/// inhabitable tile.
pub open spec fn comp_closed(g: Grid, m: Set<(int, int)>) -> bool {
    forall|c: (int, int), k: int|
        #![trigger m.contains(c), nbr(c, k)]
        m.contains(c) && 0 <= k < 6 && inhabitable_at(g, nbr(c, k).0, nbr(c, k).1)
            ==> m.contains(nbr(c, k))
}

/// `x` is reached from `s` by steps to neighbouring inhabitable tiles:
/// it belongs to every closed set that contains `s`.
pub open spec fn in_component(g: Grid, s: (int, int), x: (int, int)) -> bool {
    forall|m: Set<(int, int)>| comp_closed(g, m) && m.contains(s) ==> #[trigger] m.contains(x)
}

/// The coordinate stored at index `k`.
pub open spec fn coord(g: Grid, k: int) -> (int, int) {
    (k / g.height as int, k % g.height as int)
}

/// The tile at index `k` has an owner other than the neutral player.
pub open spec fn owned(g: Grid, k: int) -> bool {
    g.tiles@[k].pl.0 != 0
}

/// `f` is the first owned tile in storage order.
pub open spec fn first_owned(g: Grid, f: int) -> bool {
    &&& 0 <= f < g.tiles@.len()
    &&& owned(g, f)
    &&& forall|k: int| 0 <= k < f ==> !owned(g, k)
}

/// Every owned tile is reached from the first owned tile by steps to
/// neighbouring inhabitable tiles (true when nothing is owned).
pub open spec fn connected(g: Grid) -> bool {
    forall|f: int| #[trigger] first_owned(g, f) ==> forall|t: int|
        0 <= t < g.tiles@.len() && #[trigger] owned(g, t) ==> in_component(g, coord(g, f), coord(g, t))
}

/// With fresh marks, a fill from `s` reaches exactly the component of `s`.
pub proof fn lemma_reached_zeros(g: Grid, n: nat, s: (int, int), x: (int, int))
    requires
        g.wf(),
        n == g.tiles@.len(),
    ensures
        reached(g, Seq::new(n, |k: int| 0i32), 1, s, x) == in_component(g, s, x),
{
    let z = Seq::new(n, |k: int| 0i32);
    assert forall|m: Set<(int, int)>| region_closed(g, z, 1, m) == comp_closed(g, m) by {
        if comp_closed(g, m) {
            assert(region_closed(g, z, 1, m));
        }
        if region_closed(g, z, 1, m) {
            assert forall|c: (int, int), k: int|
                #![trigger m.contains(c), nbr(c, k)]
                m.contains(c) && 0 <= k < 6 && inhabitable_at(g, nbr(c, k).0, nbr(c, k).1)
                implies m.contains(nbr(c, k)) by {
                lemma_idx(g.width as int, g.height as int, nbr(c, k).0, nbr(c, k).1);
            }
        }
    }
}

/// Marks with `val` the tile at `l` and every tile reached from it through
/// inhabitable tiles not yet marked.
fn floodfill(g: &Grid, m: &mut Vec<i32>, l: Loc, val: i32)
    requires
        g.wf(),
        old(m)@.len() == g.tiles@.len(),
        g.in_map(l.i as int, l.j as int),
    ensures
        final(m)@.len() == old(m)@.len(),
        forall|a: int, b: int| g.in_map(a, b) ==> #[trigger] final(m)@[spec_idx(g.height as int, a, b)]
            == if in_fill(*g, old(m)@, val, (l.i as int, l.j as int), true, (a, b)) {
                val
            } else {
                old(m)@[spec_idx(g.height as int, a, b)]
            },
{
    fill(g, m, l, val, true)
}

impl Grid {
    /// Flood-fills from the first owned tile (in storage order) through
    /// inhabitable tiles and reports whether every owned tile was reached.
    pub fn is_connected(&self) -> (r: bool)
        requires
            self.wf(),
        ensures
            r == connected(*self),
    {
        let n: usize = self.tiles.len();
        let mut marked: Vec<i32> = Vec::new();
        let mut q: usize = 0;
        while q < n
            invariant
                q <= n,
                marked@ == Seq::new(q as nat, |k: int| 0i32),
            decreases n - q,
        {
            marked.push(0);
            q += 1;
            assert(marked@ == Seq::new(q as nat, |k: int| 0i32));
        }
        let ghost z = marked@;
        let h: usize = self.height;
        let mut found_one = false;
        let ghost mut first: int = 0;
        let mut idx: usize = 0;
        while idx < n
            invariant
                self.wf(),
                n == self.tiles@.len(),
                h == self.height,
                idx <= n,
                z == Seq::new(n as nat, |k: int| 0i32),
                marked@.len() == n,
                !found_one ==> marked@ == z,
                !found_one ==> forall|k: int| 0 <= k < idx ==> !owned(*self, k),
                found_one ==> first_owned(*self, first) && first < idx,
                found_one ==> forall|a: int, b: int| self.in_map(a, b)
                    ==> #[trigger] marked@[spec_idx(h as int, a, b)]
                    == if in_component(*self, coord(*self, first), (a, b)) { 1i32 } else { 0i32 },
                found_one ==> forall|t: int| 0 <= t < idx && #[trigger] owned(*self, t)
                    ==> in_component(*self, coord(*self, first), coord(*self, t)),
            decreases n - idx,
        {
            proof {
                lemma_idx_inv(self.width as int, h as int, idx as int);
                lemma_area(self.width as int, h as int);
            }
            let ghost c = coord(*self, idx as int);
            if self.tiles[idx].pl.0 != 0 {
                if found_one && marked[idx] == 0 {
                    proof {
                        assert(marked@[spec_idx(h as int, c.0, c.1)] == 0);
                        assert(!in_component(*self, coord(*self, first), c));
                        assert(owned(*self, idx as int));
                        assert(first_owned(*self, first));
                    }
                    return false;
                }
                let l = Loc::new((idx / h) as i16, (idx % h) as i16);
                let ghost before = marked@;
                floodfill(self, &mut marked, l, 1);
                proof {
                    if !found_one {
                        first = idx as int;
                        assert forall|a: int, b: int| self.in_map(a, b)
                            implies #[trigger] marked@[spec_idx(h as int, a, b)]
                            == if in_component(*self, coord(*self, first), (a, b)) { 1i32 } else { 0i32 } by {
                            lemma_idx(self.width as int, h as int, a, b);
                            lemma_reached_zeros(*self, n as nat, c, (a, b));
                        }
                    } else {
                        assert(before[spec_idx(h as int, c.0, c.1)] == 1);
                        assert forall|a: int, b: int| self.in_map(a, b)
                            implies #[trigger] marked@[spec_idx(h as int, a, b)] == before[spec_idx(h as int, a, b)] by {
                        }
                    }
                    assert(marked@[spec_idx(h as int, c.0, c.1)] == 1);
                }
                found_one = true;
            }
            idx += 1;
        }
        proof {
            assert forall|f: int| #[trigger] first_owned(*self, f) implies forall|t: int|
                0 <= t < self.tiles@.len() && #[trigger] owned(*self, t)
                ==> in_component(*self, coord(*self, f), coord(*self, t)) by {
                if !found_one {
                    assert(owned(*self, f));
                } else {
                    if f < first {
                        assert(!owned(*self, f));
                    } else if first < f {
                        assert(!owned(*self, first));
                    }
                }
            }
        }
        true
    }
}

/// The recursive fill: marks `l` with `val` (when it can start) and fills
/// from each of its six neighbours in turn, stopping at tiles already
/// marked and at tiles that cannot hold population.
fn fill_rec(g: &Grid, v: &mut Vec<i32>, l: Loc, val: i32, any_start: bool)
    requires
        g.wf(),
        g.height > 0,
        old(v)@.len() == g.tiles@.len(),
        any_start ==> g.in_map(l.i as int, l.j as int),
    ensures
        final(v)@.len() == old(v)@.len(),
        forall|x: int| 0 <= x < old(v)@.len() ==> #[trigger] final(v)@[x] == old(v)@[x] || final(v)@[x] == val,
        !fill_starts(*g, old(v)@, val, (l.i as int, l.j as int), any_start) ==> final(v)@ == old(v)@,
        fill_starts(*g, old(v)@, val, (l.i as int, l.j as int), any_start)
            ==> final(v)@[spec_idx(g.height as int, l.i as int, l.j as int)] == val,
        forall|a: int, b: int| g.in_map(a, b)
            && #[trigger] final(v)@[spec_idx(g.height as int, a, b)] != old(v)@[spec_idx(g.height as int, a, b)]
            ==> reached(*g, old(v)@, val, (l.i as int, l.j as int), (a, b)),
        forall|a: int, b: int, k: int| g.in_map(a, b) && 0 <= k < 6
            && #[trigger] final(v)@[spec_idx(g.height as int, a, b)] != old(v)@[spec_idx(g.height as int, a, b)]
            && inhabitable_at(*g, #[trigger] nbr((a, b), k).0, nbr((a, b), k).1)
            ==> final(v)@[spec_idx(g.height as int, nbr((a, b), k).0, nbr((a, b), k).1)] == val,
    decreases count_ne(v@, val),
{
    if !g.in_bounds(l) {
        return;
    }
    if !any_start && !inhabitable(g, l) {
        return;
    }
    let h: usize = g.height;
    proof {
        lemma_idx(g.width as int, h as int, l.i as int, l.j as int);
        lemma_area(g.width as int, h as int);
    }
    let idx: usize = (l.i as usize) * h + (l.j as usize);
    if v[idx] == val {
        return;
    }
    let ghost v0 = old(v)@;
    let ghost s = (l.i as int, l.j as int);
    v.set(idx, val);
    proof {
        lemma_count_ne(v0, v@, val, idx as int);
        assert forall|a: int, b: int| g.in_map(a, b)
            && #[trigger] v@[spec_idx(h as int, a, b)] != v0[spec_idx(h as int, a, b)]
            implies (a, b) == s && reached(*g, v0, val, s, (a, b)) by {
            lemma_idx(g.width as int, h as int, a, b);
        }
    }
    let mut k: usize = 0;
    while k < 6
        invariant
            0 <= k <= 6,
            g.wf(),
            g.height == h,
            h > 0,
            g.in_map(s.0, s.1),
            s == (l.i as int, l.j as int),
            idx == spec_idx(h as int, s.0, s.1),
            idx < v0.len(),
            v0 == old(v)@,
            fill_starts(*g, v0, val, s, any_start),
            v@.len() == v0.len(),
            v0.len() == g.tiles@.len(),
            v@[idx as int] == val,
            count_ne(v@, val) < count_ne(v0, val),
            forall|x: int| 0 <= x < v0.len() ==> #[trigger] v@[x] == v0[x] || v@[x] == val,
            forall|a: int, b: int| g.in_map(a, b)
                && #[trigger] v@[spec_idx(h as int, a, b)] != v0[spec_idx(h as int, a, b)]
                ==> reached(*g, v0, val, s, (a, b)),
            forall|a: int, b: int, q: int| g.in_map(a, b) && 0 <= q < 6 && (a, b) != s
                && #[trigger] v@[spec_idx(h as int, a, b)] != v0[spec_idx(h as int, a, b)]
                && inhabitable_at(*g, #[trigger] nbr((a, b), q).0, nbr((a, b), q).1)
                ==> v@[spec_idx(h as int, nbr((a, b), q).0, nbr((a, b), q).1)] == val,
            forall|q: int| 0 <= q < k && inhabitable_at(*g, #[trigger] nbr(s, q).0, nbr(s, q).1)
                ==> v@[spec_idx(h as int, nbr(s, q).0, nbr(s, q).1)] == val,
        decreases 6 - k,
    {
        let dd = dir(k);
        let n = Loc::new(l.i + dd.i, l.j + dd.j);
        let ghost vk = v@;
        proof { lemma_count_ne(v0, vk, val, idx as int); }
        fill_rec(g, v, n, val, false);
        proof {
            let nc = (n.i as int, n.j as int);
            assert(nc == nbr(s, k as int));
            assert forall|x: int| 0 <= x < v0.len() implies #[trigger] v@[x] == v0[x] || v@[x] == val by {
                assert(v@[x] == vk[x] || v@[x] == val);
            }
            assert forall|a: int, b: int| g.in_map(a, b)
                && #[trigger] v@[spec_idx(h as int, a, b)] != v0[spec_idx(h as int, a, b)]
                implies reached(*g, v0, val, s, (a, b)) by {
                let x = spec_idx(h as int, a, b);
                lemma_idx(g.width as int, h as int, a, b);
                if vk[x] != v0[x] {
                } else {
                    assert(v@[x] != vk[x]);
                    assert(reached(*g, vk, val, nc, (a, b)));
                    assert forall|m: Set<(int, int)>| region_closed(*g, v0, val, m) && m.contains(s)
                        implies #[trigger] m.contains((a, b)) by {
                        assert(fill_starts(*g, vk, val, nc, false));
                        assert(region_closed(*g, vk, val, m)) by {
                            assert forall|c: (int, int), q: int|
                                #![trigger m.contains(c), nbr(c, q)]
                                m.contains(c) && 0 <= q < 6 && inhabitable_at(*g, nbr(c, q).0, nbr(c, q).1)
                                && vk[spec_idx(g.height as int, nbr(c, q).0, nbr(c, q).1)] != val
                                implies m.contains(nbr(c, q)) by {
                                let y = spec_idx(g.height as int, nbr(c, q).0, nbr(c, q).1);
                                lemma_idx(g.width as int, h as int, nbr(c, q).0, nbr(c, q).1);
                                assert(vk[y] == v0[y] || vk[y] == val);
                            }
                        }
                        let y = spec_idx(g.height as int, nc.0, nc.1);
                        lemma_idx(g.width as int, h as int, nc.0, nc.1);
                        assert(vk[y] == v0[y] || vk[y] == val);
                        assert(m.contains(nbr(s, k as int)));
                    }
                }
            }
            assert forall|a: int, b: int, q: int| g.in_map(a, b) && 0 <= q < 6 && (a, b) != s
                && #[trigger] v@[spec_idx(h as int, a, b)] != v0[spec_idx(h as int, a, b)]
                && inhabitable_at(*g, #[trigger] nbr((a, b), q).0, nbr((a, b), q).1)
                implies v@[spec_idx(h as int, nbr((a, b), q).0, nbr((a, b), q).1)] == val by {
                let x = spec_idx(h as int, a, b);
                let y = spec_idx(h as int, nbr((a, b), q).0, nbr((a, b), q).1);
                lemma_idx(g.width as int, h as int, nbr((a, b), q).0, nbr((a, b), q).1);
                lemma_idx(g.width as int, h as int, a, b);
                if vk[x] != v0[x] {
                    assert(vk[y] == val);
                    assert(v@[y] == vk[y] || v@[y] == val);
                } else {
                    assert(v@[x] != vk[x]);
                }
            }
            assert forall|q: int| 0 <= q < k + 1 && inhabitable_at(*g, #[trigger] nbr(s, q).0, nbr(s, q).1)
                implies v@[spec_idx(h as int, nbr(s, q).0, nbr(s, q).1)] == val by {
                let y = spec_idx(h as int, nbr(s, q).0, nbr(s, q).1);
                lemma_idx(g.width as int, h as int, nbr(s, q).0, nbr(s, q).1);
                if q < k {
                    assert(vk[y] == val);
                    assert(v@[y] == vk[y] || v@[y] == val);
                } else {
                    if vk[y] == val {
                        assert(v@[y] == vk[y] || v@[y] == val);
                    } else {
                        assert(fill_starts(*g, vk, val, nc, false));
                    }
                }
            }
            assert(v@[idx as int] == val) by {
                assert(v@[idx as int] == vk[idx as int] || v@[idx as int] == val);
            }
            lemma_count_ne(v0, v@, val, idx as int);
        }
        k += 1;
    }
    proof {
        assert forall|a: int, b: int, q: int| g.in_map(a, b) && 0 <= q < 6
            && #[trigger] v@[spec_idx(h as int, a, b)] != v0[spec_idx(h as int, a, b)]
            && inhabitable_at(*g, #[trigger] nbr((a, b), q).0, nbr((a, b), q).1)
            implies v@[spec_idx(h as int, nbr((a, b), q).0, nbr((a, b), q).1)] == val by {
            if (a, b) == s {
                assert(nbr((a, b), q) == nbr(s, q));
            }
        }
        assert forall|a: int, b: int| g.in_map(a, b)
            && #[trigger] v@[spec_idx(h as int, a, b)] != v0[spec_idx(h as int, a, b)]
            implies reached(*g, v0, val, s, (a, b)) by {
        }
    }
}

} // verus!
