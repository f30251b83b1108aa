//! Per-player flag overlay and the "call" (attraction) field that flags
//! spread over the map.
use vstd::prelude::*;
use crate::consts::{FLAG_POWER, MAX_HEIGHT, MAX_WIDTH};
use crate::grid::{fill, in_component, inhabitable, inhabitable_at, lemma_area, lemma_idx, lemma_idx_inv, lemma_reached_zeros, spec_idx, Grid};
use crate::rng::{spec_chance_with, CowRng};
use crate::types::{dir, dir_i, dir_j, spec_is_inhabitable, Loc};

verus! {

/// The scratch field `u` after spreading `val` from `(i, j)`: every
/// inhabitable tile reached with a value above what `u` holds there takes
/// that value, and the value halves (rounding down) at each step to a
/// neighbour until it reaches zero.
pub open spec fn spread_u(g: Grid, u: Seq<i32>, i: int, j: int, val: i32) -> Seq<i32>
    decreases val, 0int,
{
    if !inhabitable_at(g, i, j) {
        u
    } else {
        let k = spec_idx(g.height as int, i, j);
        if val - u[k] <= 0 {
            u
        } else if val / 2 <= 0 {
            u.update(k, val)
        } else {
            spread_dirs(g, u.update(k, val), i, j, (val / 2) as i32, 0)
        }
    }
}

/// Spreading `val` to the neighbours of `(i, j)` in directions `k..6`, in
/// order.
pub open spec fn spread_dirs(g: Grid, u: Seq<i32>, i: int, j: int, val: i32, k: int) -> Seq<i32>
    decreases val, 7 - k,
{
    if k < 0 || k >= 6 {
        u
    } else {
        spread_dirs(g, spread_u(g, u, i + dir_i(k), j + dir_j(k), val), i, j, val, k + 1)
    }
}

/// The call value `v` after receiving the credit `t` with sign `factor`:
/// `v + t * factor`.
pub open spec fn spread_v(v: int, factor: int, t: int) -> int {
    if factor == 1 {
        v + t
    } else if factor == -1 {
        v - t
    } else {
        v
    }
}

/// `spread`: walks the inhabitable tiles from `l`, crediting each tile with
/// the part of `val` (halved at each step) that exceeds what `u` already
/// recorded there, times `factor`. The call field `v` changes by exactly
/// the growth of `u`, added for `factor == 1` and subtracted for
/// `factor == -1`.
pub fn spread(g: &Grid, u: &mut Vec<i32>, v: &mut Vec<i32>, l: Loc, val: i32, factor: i32)
    requires
        g.wf(),
        old(u)@.len() == g.tiles@.len(),
        old(v)@.len() == g.tiles@.len(),
        -1 <= factor <= 1,
        forall|x: int| 0 <= x < old(u)@.len() ==> 0 <= #[trigger] old(u)@[x],
        factor == 1 ==> forall|x: int| 0 <= x < old(u)@.len() && old(u)@[x] < val
            ==> old(v)@[x] + (val - old(u)@[x]) <= i32::MAX,
        factor == -1 ==> forall|x: int| 0 <= x < old(u)@.len() && old(u)@[x] < val
            ==> old(v)@[x] - (val - old(u)@[x]) >= i32::MIN,
    ensures
        final(u)@ == spread_u(*g, old(u)@, l.i as int, l.j as int, val),
        final(u)@.len() == old(u)@.len(),
        final(v)@.len() == old(v)@.len(),
        forall|x: int| 0 <= x < old(u)@.len() ==> old(u)@[x] <= #[trigger] final(u)@[x],
        forall|x: int| 0 <= x < old(u)@.len() ==>
            final(u)@[x] == old(u)@[x] || #[trigger] final(u)@[x] <= val,
        forall|x: int| 0 <= x < old(v)@.len() ==> #[trigger] final(v)@[x] == spread_v(
            old(v)@[x] as int,
            factor as int,
            final(u)@[x] - old(u)@[x],
        ),
    decreases val,
{
    if !inhabitable(g, l) {
        assert(final(v)@ == old(v)@);
        return;
    }
    let h: usize = g.height;
    proof {
        lemma_idx(g.width as int, h as int, l.i as int, l.j as int);
        lemma_area(g.width as int, h as int);
    }
    let idx: usize = (l.i as usize) * h + (l.j as usize);
    let d: i64 = val as i64 - u[idx] as i64;
    if d <= 0 {
        return;
    }
    let cur: i64 = v[idx] as i64;
    let incr: i64 = if factor == 1 { d } else if factor == -1 { -d } else { 0 };
    let nv: i64 = cur + incr;
    v.set(idx, nv as i32);
    u.set(idx, val);
    let next: i32 = val / 2;
    if next <= 0 {
        return;
    }
    let ghost u1 = u@;
    let ghost v0 = old(v)@;
    let ghost u0 = old(u)@;
    let mut k: usize = 0;
    while k < 6
        invariant
            0 <= k <= 6,
            g.wf(),
            -1 <= factor <= 1,
            0 < next < val,
            next == val / 2,
            u@.len() == g.tiles@.len(),
            v@.len() == g.tiles@.len(),
            u0.len() == g.tiles@.len(),
            v0.len() == g.tiles@.len(),
            inhabitable_at(*g, l.i as int, l.j as int),
            0 <= l.i < 40,
            0 <= l.j < 29,
            spread_dirs(*g, u@, l.i as int, l.j as int, next, k as int)
                == spread_dirs(*g, u1, l.i as int, l.j as int, next, 0),
            forall|x: int| 0 <= x < u0.len() ==> 0 <= #[trigger] u0[x],
            forall|x: int| 0 <= x < u0.len() ==> u0[x] <= #[trigger] u@[x],
            forall|x: int| 0 <= x < u0.len() ==> u@[x] == u0[x] || #[trigger] u@[x] <= val,
            factor == 1 ==> forall|x: int| 0 <= x < u0.len() && u0[x] < val
                ==> v0[x] + (val - u0[x]) <= i32::MAX,
            factor == -1 ==> forall|x: int| 0 <= x < u0.len() && u0[x] < val
                ==> v0[x] - (val - u0[x]) >= i32::MIN,
            forall|x: int| 0 <= x < v0.len() ==> #[trigger] v@[x] == spread_v(
                v0[x] as int,
                factor as int,
                u@[x] - u0[x],
            ),
        decreases 6 - k,
    {
        let dd = dir(k);
        let n = Loc::new(l.i + dd.i, l.j + dd.j);
        let ghost uk = u@;
        let ghost vk = v@;
        spread(g, u, v, n, next, factor);
        assert forall|x: int| 0 <= x < v0.len() implies #[trigger] v@[x] == spread_v(
            v0[x] as int,
            factor as int,
            u@[x] - u0[x],
        ) by {
            assert(vk[x] == spread_v(v0[x] as int, factor as int, uk[x] - u0[x]));
            assert(v@[x] == spread_v(vk[x] as int, factor as int, u@[x] - uk[x]));
        }
        k += 1;
    }
}

/// A per-player flag overlay: where the player has placed flags, and the
/// attraction field ("call") those flags produce.
#[derive(Clone, Debug)]
pub struct FlagGrid {
    pub width: usize,
    pub height: usize,
    pub flag: Vec<bool>,
    pub call: Vec<i32>,
}

/// The contents of a flag overlay.
pub struct FlagGridView {
    pub width: int,
    pub height: int,
    pub flag: Seq<bool>,
    pub call: Seq<i32>,
}

impl View for FlagGrid {
    type V = FlagGridView;

    open spec fn view(&self) -> FlagGridView {
        FlagGridView {
            width: self.width as int,
            height: self.height as int,
            flag: self.flag@,
            call: self.call@,
        }
    }
}

/// The overlay matches the map: same dimensions, one flag and one call
/// value per tile.
pub open spec fn fits(g: Grid, f: FlagGridView) -> bool {
    &&& f.width == g.width
    &&& f.height == g.height
    &&& f.flag.len() == g.tiles@.len()
    &&& f.call.len() == g.tiles@.len()
}

/// A sequence of `n` zeros.
pub open spec fn zeros(n: nat) -> Seq<i32> {
    Seq::new(n, |x: int| 0i32)
}

/// What placing a flag of power `val` at `(i, j)` credits to every tile:
/// the spread of `val` from a blank scratch field.
pub open spec fn flag_credit(g: Grid, i: int, j: int, val: i32) -> Seq<i32> {
    spread_u(g, zeros(g.tiles@.len()), i, j, val)
}

/// A flag can be placed at `(i, j)`: the tile is inhabitable and unflagged.
pub open spec fn can_add(g: Grid, f: FlagGridView, i: int, j: int) -> bool {
    inhabitable_at(g, i, j) && !f.flag[spec_idx(f.height, i, j)]
}

/// A flag can be removed from `(i, j)`: the tile is inhabitable and flagged.
pub open spec fn can_remove(g: Grid, f: FlagGridView, i: int, j: int) -> bool {
    inhabitable_at(g, i, j) && f.flag[spec_idx(f.height, i, j)]
}

/// The overlay after `add_flag`.
pub open spec fn spec_add_flag(g: Grid, f: FlagGridView, i: int, j: int, val: i32) -> FlagGridView {
    if can_add(g, f, i, j) {
        FlagGridView {
            width: f.width,
            height: f.height,
            flag: f.flag.update(spec_idx(f.height, i, j), true),
            call: Seq::new(
                f.call.len(),
                |x: int| spread_v(f.call[x] as int, 1, flag_credit(g, i, j, val)[x] as int) as i32,
            ),
        }
    } else {
        f
    }
}

/// The overlay after `remove_flag`.
pub open spec fn spec_remove_flag(g: Grid, f: FlagGridView, i: int, j: int, val: i32) -> FlagGridView {
    if can_remove(g, f, i, j) {
        FlagGridView {
            width: f.width,
            height: f.height,
            flag: f.flag.update(spec_idx(f.height, i, j), false),
            call: Seq::new(
                f.call.len(),
                |x: int| spread_v(f.call[x] as int, -1, flag_credit(g, i, j, val)[x] as int) as i32,
            ),
        }
    } else {
        f
    }
}

impl FlagGrid {
    /// An empty overlay of at most `MAX_WIDTH` by `MAX_HEIGHT` tiles: no
    /// flags, zero call everywhere.
    pub fn new(width: usize, height: usize) -> (r: FlagGrid)
        ensures
            r.width == if width < MAX_WIDTH { width } else { MAX_WIDTH },
            r.height == if height < MAX_HEIGHT { height } else { MAX_HEIGHT },
            r.flag@.len() == r.width * r.height,
            r.call@ == zeros((r.width * r.height) as nat),
            forall|x: int| 0 <= x < r.flag@.len() ==> !#[trigger] r.flag@[x],
    {
        let width = if width < MAX_WIDTH { width } else { MAX_WIDTH };
        let height = if height < MAX_HEIGHT { height } else { MAX_HEIGHT };
        proof { lemma_area(width as int, height as int); }
        let n: usize = width * height;
        let mut flag: Vec<bool> = Vec::new();
        let mut call: Vec<i32> = Vec::new();
        let mut k: usize = 0;
        while k < n
            invariant
                k <= n,
                flag@.len() == k,
                call@ == zeros(k as nat),
                forall|x: int| 0 <= x < k ==> !#[trigger] flag@[x],
            decreases n - k,
        {
            flag.push(false);
            call.push(0);
            k += 1;
            assert(call@ == zeros(k as nat));
        }
        FlagGrid { width, height, flag, call }
    }

    /// True when `l` lies on the overlay.
    pub fn in_bounds(&self, l: Loc) -> (r: bool)
        ensures
            r == (0 <= l.i < self.width && 0 <= l.j < self.height),
    {
        l.i >= 0 && l.j >= 0 && (l.i as usize) < self.width && (l.j as usize) < self.height
    }

    /// Storage index of `(i, j)`.
    fn idx(&self, i: usize, j: usize) -> (r: usize)
        requires
            i < self.width,
            j < self.height,
            self.width <= MAX_WIDTH,
            self.height <= MAX_HEIGHT,
        ensures
            r == spec_idx(self.height as int, i as int, j as int),
            r < self.width * self.height,
    {
        proof {
            lemma_idx(self.width as int, self.height as int, i as int, j as int);
            lemma_area(self.width as int, self.height as int);
        }
        i * self.height + j
    }

    /// A copy of the overlay.
    pub fn duplicate(&self) -> (r: FlagGrid)
        ensures
            r@ == self@,
    {
        let mut flag: Vec<bool> = Vec::new();
        let mut call: Vec<i32> = Vec::new();
        let mut k: usize = 0;
        while k < self.flag.len()
            invariant
                k <= self.flag@.len(),
                flag@ == self.flag@.take(k as int),
            decreases self.flag@.len() - k,
        {
            flag.push(self.flag[k]);
            k += 1;
            assert(flag@ =~= self.flag@.take(k as int));
        }
        let mut k: usize = 0;
        while k < self.call.len()
            invariant
                k <= self.call@.len(),
                call@ == self.call@.take(k as int),
            decreases self.call@.len() - k,
        {
            call.push(self.call[k]);
            k += 1;
            assert(call@ =~= self.call@.take(k as int));
        }
        assert(flag@ =~= self.flag@);
        assert(call@ =~= self.call@);
        FlagGrid { width: self.width, height: self.height, flag, call }
    }

    /// Whether a flag stands at `l`; false off the overlay.
    pub fn flag_at(&self, l: Loc) -> (r: bool)
        requires
            self.width <= MAX_WIDTH,
            self.height <= MAX_HEIGHT,
            self.flag@.len() == self.width * self.height,
        ensures
            r == (0 <= l.i < self.width && 0 <= l.j < self.height
                && self.flag@[spec_idx(self.height as int, l.i as int, l.j as int)]),
    {
        if !self.in_bounds(l) {
            return false;
        }
        let k = self.idx(l.i as usize, l.j as usize);
        self.flag[k]
    }

    /// The call value at `l`; zero off the overlay.
    pub fn call_at(&self, l: Loc) -> (r: i32)
        requires
            self.width <= MAX_WIDTH,
            self.height <= MAX_HEIGHT,
            self.call@.len() == self.width * self.height,
        ensures
            r == if 0 <= l.i < self.width && 0 <= l.j < self.height {
                self.call@[spec_idx(self.height as int, l.i as int, l.j as int)]
            } else {
                0
            },
    {
        if !self.in_bounds(l) {
            return 0;
        }
        let k = self.idx(l.i as usize, l.j as usize);
        self.call[k]
    }
}

/// Spreading only raises the scratch field, never above `val` where it
/// raises it, never on a tile that cannot hold people, and keeps its
/// length.
pub proof fn lemma_spread_u_bounds(g: Grid, u: Seq<i32>, i: int, j: int, val: i32)
    requires
        g.wf(),
        u.len() == g.tiles@.len(),
    ensures
        spread_u(g, u, i, j, val).len() == u.len(),
        forall|x: int| 0 <= x < u.len() ==> u[x] <= #[trigger] spread_u(g, u, i, j, val)[x],
        forall|x: int| 0 <= x < u.len() ==> u[x] == #[trigger] spread_u(g, u, i, j, val)[x]
            || spread_u(g, u, i, j, val)[x] <= val,
        forall|x: int| 0 <= x < u.len() && !spec_is_inhabitable(g.tiles@[x].cl)
            ==> #[trigger] spread_u(g, u, i, j, val)[x] == u[x],
    decreases val, 0int,
{
    if inhabitable_at(g, i, j) {
        let k = spec_idx(g.height as int, i, j);
        lemma_idx(g.width as int, g.height as int, i, j);
        if val - u[k] > 0 && val / 2 > 0 {
            lemma_spread_dirs_bounds(g, u.update(k, val), i, j, (val / 2) as i32, 0);
        }
    }
}

/// `spread_dirs` only raises the scratch field, never above `val` where it
/// raises it, never on a tile that cannot hold people, and keeps its
/// length.
pub proof fn lemma_spread_dirs_bounds(g: Grid, u: Seq<i32>, i: int, j: int, val: i32, k: int)
    requires
        g.wf(),
        u.len() == g.tiles@.len(),
    ensures
        spread_dirs(g, u, i, j, val, k).len() == u.len(),
        forall|x: int| 0 <= x < u.len() ==> u[x] <= #[trigger] spread_dirs(g, u, i, j, val, k)[x],
        forall|x: int| 0 <= x < u.len() ==> u[x] == #[trigger] spread_dirs(g, u, i, j, val, k)[x]
            || spread_dirs(g, u, i, j, val, k)[x] <= val,
        forall|x: int| 0 <= x < u.len() && !spec_is_inhabitable(g.tiles@[x].cl)
            ==> #[trigger] spread_dirs(g, u, i, j, val, k)[x] == u[x],
    decreases val, 7 - k,
{
    if 0 <= k < 6 {
        let u1 = spread_u(g, u, i + dir_i(k), j + dir_j(k), val);
        lemma_spread_u_bounds(g, u, i + dir_i(k), j + dir_j(k), val);
        lemma_spread_dirs_bounds(g, u1, i, j, val, k + 1);
        assert forall|x: int| 0 <= x < u.len() implies u[x] == #[trigger] spread_dirs(g, u, i, j, val, k)[x]
            || spread_dirs(g, u, i, j, val, k)[x] <= val by {
            assert(u1[x] == u[x] || u1[x] <= val);
        }
    }
}

/// The credit of a flag is at least zero and at most its power on every
/// tile.
pub proof fn lemma_flag_credit_bounds(g: Grid, i: int, j: int, val: i32)
    requires
        g.wf(),
    ensures
        flag_credit(g, i, j, val).len() == g.tiles@.len(),
        forall|x: int| 0 <= x < g.tiles@.len() ==> 0 <= #[trigger] flag_credit(g, i, j, val)[x],
        forall|x: int| 0 <= x < g.tiles@.len() ==> #[trigger] flag_credit(g, i, j, val)[x] == 0
            || flag_credit(g, i, j, val)[x] <= val,
{
    lemma_spread_u_bounds(g, zeros(g.tiles@.len()), i, j, val);
}

/// Placing a flag and then removing it again gives back the overlay as it
/// was, when the tile was unflagged and, where a flag can be placed, every
/// call value had room for the flag's power (what `add_flag` requires).
pub proof fn law_add_remove_roundtrip(g: Grid, f: FlagGridView, i: int, j: int, val: i32)
    requires
        g.wf(),
        fits(g, f),
        g.in_map(i, j),
        !f.flag[spec_idx(g.height as int, i, j)],
        0 < val && can_add(g, f, i, j) ==> forall|x: int| 0 <= x < f.call.len() ==> #[trigger] f.call[x] + val <= i32::MAX,
    ensures
        spec_remove_flag(g, spec_add_flag(g, f, i, j, val), i, j, val) == f,
{
    lemma_flag_credit_bounds(g, i, j, val);
    lemma_idx(g.width as int, g.height as int, i, j);
    if can_add(g, f, i, j) {
        let a = spec_add_flag(g, f, i, j, val);
        let r = spec_remove_flag(g, a, i, j, val);
        assert(can_remove(g, a, i, j));
        assert(r.flag =~= f.flag);
        assert(r.call =~= f.call);
    }
}

/// Placing a flag where one already stands changes nothing: a second
/// `add_flag` at the same tile is a no-op.
pub proof fn law_add_idempotent(g: Grid, f: FlagGridView, i: int, j: int, val: i32)
    requires
        g.wf(),
        fits(g, f),
    ensures
        spec_add_flag(g, spec_add_flag(g, f, i, j, val), i, j, val) == spec_add_flag(g, f, i, j, val),
{
    if g.in_map(i, j) {
        lemma_idx(g.width as int, g.height as int, i, j);
    }
}

/// Adding or removing a flag keeps the overlay matched to the map.
pub proof fn lemma_flag_ops_fit(g: Grid, f: FlagGridView, i: int, j: int, val: i32)
    requires
        g.wf(),
        fits(g, f),
    ensures
        fits(g, spec_add_flag(g, f, i, j, val)),
        fits(g, spec_remove_flag(g, f, i, j, val)),
{
    if g.in_map(i, j) {
        lemma_idx(g.width as int, g.height as int, i, j);
    }
}

/// The overlay after removing flags at `locs`, in order.
pub open spec fn spec_remove_all(g: Grid, f: FlagGridView, locs: Seq<Loc>, val: i32) -> FlagGridView
    decreases locs.len(),
{
    if locs.len() == 0 {
        f
    } else {
        spec_remove_flag(
            g,
            spec_remove_all(g, f, locs.drop_last(), val),
            locs.last().i as int,
            locs.last().j as int,
            val,
        )
    }
}

/// The coordinate stored at index `k` of an overlay of height `h`.
pub open spec fn loc_of(h: int, k: int) -> Loc {
    Loc { i: (k / h) as i16, j: (k % h) as i16 }
}

/// The flagged tiles among the first `k` in storage order, in that order.
pub open spec fn flagged_prefix(f: FlagGridView, k: int) -> Seq<Loc>
    decreases k,
{
    if k <= 0 {
        Seq::empty()
    } else if f.flag[k - 1] {
        flagged_prefix(f, k - 1).push(loc_of(f.height, k - 1))
    } else {
        flagged_prefix(f, k - 1)
    }
}

/// `s` is a subsequence of `t`.
pub open spec fn is_subseq(s: Seq<Loc>, t: Seq<Loc>) -> bool {
    exists|ix: Seq<int>| #![trigger ix.len()] ix.len() == s.len()
        && (forall|a: int| 0 <= a < ix.len() ==> 0 <= #[trigger] ix[a] < t.len() && s[a] == t[ix[a]])
        && (forall|a: int, b: int| 0 <= a < b < ix.len() ==> #[trigger] ix[a] < #[trigger] ix[b])
}

/// Removes the flags at `locs`, one after another.
pub fn remove_flags_at(g: &Grid, fg: &mut FlagGrid, locs: &Vec<Loc>, val: i32)
    requires
        g.wf(),
        fits(*g, old(fg)@),
        0 < val ==> forall|x: int| 0 <= x < old(fg).call@.len()
            ==> #[trigger] old(fg).call@[x] - val * locs@.len() >= i32::MIN,
    ensures
        final(fg)@ == spec_remove_all(*g, old(fg)@, locs@, val),
{
    let mut k: usize = 0;
    while k < locs.len()
        invariant
            g.wf(),
            k <= locs@.len(),
            fits(*g, fg@),
            fg@ == spec_remove_all(*g, old(fg)@, locs@.take(k as int), val),
            0 < val ==> forall|x: int| 0 <= x < fg.call@.len()
                ==> #[trigger] fg.call@[x] - val * (locs@.len() - k) >= i32::MIN,
        decreases locs@.len() - k,
    {
        proof {
            lemma_flag_ops_fit(*g, fg@, locs@[k as int].i as int, locs@[k as int].j as int, val);
            if 0 < val {
                assert forall|x: int| 0 <= x < fg.call@.len() implies #[trigger] fg.call@[x] - val >= i32::MIN by {
                    assert(val * (locs@.len() - k) >= val) by (nonlinear_arith)
                        requires 0 < val, k < locs@.len();
                }
            }
        }
        let ghost f0 = fg@;
        remove_flag(g, fg, locs[k], val);
        proof {
            lemma_flag_credit_bounds(*g, locs@[k as int].i as int, locs@[k as int].j as int, val);
            if 0 < val {
                assert forall|x: int| 0 <= x < fg.call@.len() implies #[trigger] fg.call@[x]
                    - val * (locs@.len() - (k + 1)) >= i32::MIN by {
                    assert(val * (locs@.len() - k) == val * (locs@.len() - (k + 1)) + val) by (nonlinear_arith);
                    assert(f0.call[x] - val * (locs@.len() - k) >= i32::MIN);
                }
            }
        }
        assert(locs@.take(k + 1).drop_last() =~= locs@.take(k as int));
        k += 1;
    }
    assert(locs@.take(locs@.len() as int) =~= locs@);
}

/// The flags among the first `k` tiles that the draws `xs` remove at a
/// chance of `num / den`: the flagged tiles meet the draws in turn, and a
/// flag goes when its draw passes (`spec_chance_with`).
pub open spec fn picked(f: FlagGridView, xs: Seq<u32>, num: int, den: int, k: int) -> Seq<Loc>
    decreases k,
{
    if k <= 0 {
        Seq::empty()
    } else {
        let prev = picked(f, xs, num, den, k - 1);
        if f.flag[k - 1] && spec_chance_with(num, den, xs[flagged_prefix(f, k - 1).len() as int] as int) {
            prev.push(loc_of(f.height, k - 1))
        } else {
            prev
        }
    }
}

/// The flagged tiles only grow with the prefix.
proof fn lemma_flagged_prefix_grows(f: FlagGridView, k: int, m: int)
    requires
        k <= m,
    ensures
        flagged_prefix(f, k).len() <= flagged_prefix(f, m).len(),
    decreases m - k,
{
    if k < m {
        lemma_flagged_prefix_grows(f, k, m - 1);
    }
}

/// What the draws decide over the first `k` tiles reads only the draws
/// those tiles' flags meet.
proof fn lemma_picked_prefix(f: FlagGridView, xs: Seq<u32>, ys: Seq<u32>, num: int, den: int, k: int)
    requires
        flagged_prefix(f, k).len() <= xs.len() <= ys.len(),
        forall|a: int| 0 <= a < xs.len() ==> #[trigger] xs[a] == ys[a],
    ensures
        picked(f, xs, num, den, k) == picked(f, ys, num, den, k),
    decreases k,
{
    if k > 0 {
        lemma_flagged_prefix_grows(f, k - 1, k);
        lemma_picked_prefix(f, xs, ys, num, den, k - 1);
        if f.flag[k - 1] {
            assert(flagged_prefix(f, k).len() == flagged_prefix(f, k - 1).len() + 1);
        }
    }
}

/// `remove_flags_with_prob`: visits the tiles in storage order and removes
/// each flag with chance `num / den` (see `CowRng::chance`; a chance of one
/// or more removes every flag the tiles allow). The flags removed are a
/// subsequence of the flagged tiles, removed in that order.
pub fn remove_flags_with_prob(rng: &mut CowRng, g: &Grid, fg: &mut FlagGrid, num: u64, den: u64)
    requires
        g.wf(),
        fits(*g, old(fg)@),
        0 < den <= 0xffff_ffff,
        num <= 0xffff_ffff,
        forall|x: int| 0 <= x < old(fg).call@.len()
            ==> #[trigger] old(fg).call@[x] - FLAG_POWER * old(fg).call@.len() >= i32::MIN,
    ensures
        exists|locs: Seq<Loc>| {
            &&& is_subseq(locs, flagged_prefix(old(fg)@, old(fg)@.flag.len() as int))
            &&& final(fg)@ == spec_remove_all(*g, old(fg)@, locs, FLAG_POWER)
            &&& num >= den ==> locs == flagged_prefix(old(fg)@, old(fg)@.flag.len() as int)
        },
        final(rng).draws().len() == old(rng).draws().len()
            + flagged_prefix(old(fg)@, old(fg)@.flag.len() as int).len(),
        final(rng).draws().subrange(0, old(rng).draws().len() as int) == old(rng).draws(),
        final(fg)@ == spec_remove_all(
            *g,
            old(fg)@,
            picked(
                old(fg)@,
                final(rng).draws().subrange(old(rng).draws().len() as int, final(rng).draws().len() as int),
                num as int,
                den as int,
                old(fg)@.flag.len() as int,
            ),
            FLAG_POWER,
        ),
{
    let n: usize = fg.flag.len();
    let h: usize = fg.height;
    let ghost f0 = fg@;
    let ghost d0 = rng.draws();
    let mut to_remove: Vec<Loc> = Vec::new();
    let ghost mut ix: Seq<int> = Seq::empty();
    let mut k: usize = 0;
    proof {
        lemma_area(g.width as int, g.height as int);
        if h == 0 {
            assert(g.width * 0 == 0);
        }
    }
    while k < n
        invariant
            0 < den <= 0xffff_ffff,
            num <= 0xffff_ffff,
            k <= n,
            n == f0.flag.len(),
            h == f0.height,
            n <= 1160,
            fg@ == f0,
            h > 0 || n == 0,
            ix.len() == to_remove@.len(),
            forall|a: int| 0 <= a < ix.len() ==> 0 <= #[trigger] ix[a] < flagged_prefix(f0, k as int).len()
                && to_remove@[a] == flagged_prefix(f0, k as int)[ix[a]],
            forall|a: int, b: int| 0 <= a < b < ix.len() ==> #[trigger] ix[a] < #[trigger] ix[b],
            num >= den ==> to_remove@ == flagged_prefix(f0, k as int),
            to_remove@.len() <= k,
            d0 == old(rng).draws(),
            rng.draws().len() == d0.len() + flagged_prefix(f0, k as int).len(),
            rng.draws().subrange(0, d0.len() as int) == d0,
            to_remove@ == picked(f0, rng.draws().subrange(d0.len() as int, rng.draws().len() as int),
                num as int, den as int, k as int),
        decreases n - k,
    {
        let ghost pre = flagged_prefix(f0, k as int);
        let ghost xs0 = rng.draws().subrange(d0.len() as int, rng.draws().len() as int);
        let ghost r0 = rng.draws();
        if fg.flag[k] && rng.chance(num, den) {
            proof {
                assert(k / h * h + k % h == k) by (nonlinear_arith) requires h > 0;
                assert(0 <= k / h < 1160 && 0 <= k % h < 1160) by (nonlinear_arith) requires h > 0, k < 1160;
            }
            to_remove.push(Loc::new((k / h) as i16, (k % h) as i16));
            proof {
                ix = ix.push(pre.len() as int);
                assert(flagged_prefix(f0, k + 1) == pre.push(loc_of(h as int, k as int)));
            }
        } else {
            proof {
                if f0.flag[k as int] {
                    assert(flagged_prefix(f0, k + 1) == pre.push(loc_of(h as int, k as int)));
                }
            }
        }
        proof {
            let xs1 = rng.draws().subrange(d0.len() as int, rng.draws().len() as int);
            if f0.flag[k as int] {
                assert(rng.draws() =~= r0.push(rng.draws().last()));
                assert(xs1 =~= xs0.push(rng.draws().last()));
                assert(rng.draws().subrange(0, d0.len() as int) =~= r0.subrange(0, d0.len() as int));
                lemma_picked_prefix(f0, xs0, xs1, num as int, den as int, k as int);
                assert(xs1[pre.len() as int] == rng.draws().last());
            } else {
                assert(rng.draws() == r0);
            }
            let post = flagged_prefix(f0, k + 1);
            assert forall|a: int| 0 <= a < ix.len() implies 0 <= #[trigger] ix[a] < post.len()
                && to_remove@[a] == post[ix[a]] by {
                if f0.flag[k as int] {
                    assert(post == pre.push(loc_of(h as int, k as int)));
                }
            }
        }
        k += 1;
    }
    proof {
        assert forall|x: int| 0 <= x < fg.call@.len() implies #[trigger] fg.call@[x]
            - FLAG_POWER * to_remove@.len() >= i32::MIN by {
            assert(FLAG_POWER * to_remove@.len() <= FLAG_POWER * fg.call@.len()) by (nonlinear_arith)
                requires to_remove@.len() <= fg.call@.len();
        }
    }
    remove_flags_at(g, fg, &to_remove, FLAG_POWER);
    proof {
        assert(is_subseq(to_remove@, flagged_prefix(f0, n as int)));
    }
}

/// A vector of `n` zeros.
pub fn zero_vec(n: usize) -> (r: Vec<i32>)
    ensures
        r@ == zeros(n as nat),
{
    let mut r: Vec<i32> = Vec::new();
    let mut k: usize = 0;
    while k < n
        invariant
            k <= n,
            r@ == zeros(k as nat),
        decreases n - k,
    {
        r.push(0);
        k += 1;
        assert(r@ == zeros(k as nat));
    }
    r
}

/// `add_flag`: places a flag of power `val` at `l` when the tile is
/// inhabitable and unflagged, and adds its credit (the spread of `val`
/// from `l`) to the call field; otherwise does nothing.
pub fn add_flag(g: &Grid, fg: &mut FlagGrid, l: Loc, val: i32)
    requires
        g.wf(),
        fits(*g, old(fg)@),
        0 < val && can_add(*g, old(fg)@, l.i as int, l.j as int) ==> forall|x: int| 0 <= x < old(fg).call@.len()
            ==> #[trigger] old(fg).call@[x] + val <= i32::MAX,
    ensures
        final(fg)@ == spec_add_flag(*g, old(fg)@, l.i as int, l.j as int, val),
{
    if !fg.in_bounds(l) || !inhabitable(g, l) || fg.flag_at(l) {
        return;
    }
    let n: usize = fg.flag.len();
    let mut u = zero_vec(n);
    proof {
        lemma_idx(g.width as int, g.height as int, l.i as int, l.j as int);
        lemma_area(g.width as int, g.height as int);
    }
    let idx: usize = (l.i as usize) * fg.height + (l.j as usize);
    fg.flag.set(idx, true);
    let ghost c0 = fg.call@;
    spread(g, &mut u, &mut fg.call, l, val, 1);
    proof {
        let e = spec_add_flag(*g, old(fg)@, l.i as int, l.j as int, val);
        assert(fg.call@ =~= e.call);
        assert(fg.flag@ =~= e.flag);
    }
}

/// `remove_flag`: removes the flag at `l` when the tile is inhabitable and
/// flagged, and subtracts its credit from the call field (which may go
/// below zero); otherwise does nothing.
pub fn remove_flag(g: &Grid, fg: &mut FlagGrid, l: Loc, val: i32)
    requires
        g.wf(),
        fits(*g, old(fg)@),
        0 < val && can_remove(*g, old(fg)@, l.i as int, l.j as int) ==> forall|x: int| 0 <= x < old(fg).call@.len()
            ==> #[trigger] old(fg).call@[x] - val >= i32::MIN,
    ensures
        final(fg)@ == spec_remove_flag(*g, old(fg)@, l.i as int, l.j as int, val),
{
    if !fg.in_bounds(l) || !inhabitable(g, l) || !fg.flag_at(l) {
        return;
    }
    let n: usize = fg.flag.len();
    let mut u = zero_vec(n);
    proof {
        lemma_idx(g.width as int, g.height as int, l.i as int, l.j as int);
        lemma_area(g.width as int, g.height as int);
    }
    let idx: usize = (l.i as usize) * fg.height + (l.j as usize);
    fg.flag.set(idx, false);
    spread(g, &mut u, &mut fg.call, l, val, -1);
    proof {
        let e = spec_remove_flag(*g, old(fg)@, l.i as int, l.j as int, val);
        assert(fg.call@ =~= e.call);
        assert(fg.flag@ =~= e.flag);
    }
}

/// `even`: re-initialises `v` to `val` on every tile of the connected
/// component of `l` (the tiles reached from `l` by steps between
/// neighbouring inhabitable tiles), when `l` is inhabitable; every other
/// value stays.
pub fn even(g: &Grid, v: &mut Vec<i32>, l: Loc, val: i32)
    requires
        g.wf(),
        old(v)@.len() == g.tiles@.len(),
    ensures
        final(v)@.len() == old(v)@.len(),
        forall|a: int, b: int| g.in_map(a, b) ==> #[trigger] final(v)@[spec_idx(g.height as int, a, b)]
            == if inhabitable_at(*g, l.i as int, l.j as int)
                && in_component(*g, (l.i as int, l.j as int), (a, b)) {
                val
            } else {
                old(v)@[spec_idx(g.height as int, a, b)]
            },
{
    if !inhabitable(g, l) {
        return;
    }
    let n: usize = v.len();
    let mut m = zero_vec(n);
    let ghost z = m@;
    fill(g, &mut m, l, 1, false);
    proof {
        lemma_area(g.width as int, g.height as int);
        assert(z =~= Seq::new(n as nat, |k: int| 0i32));
        lemma_idx(g.width as int, g.height as int, l.i as int, l.j as int);
        assert forall|a: int, b: int| g.in_map(a, b) implies #[trigger] m@[spec_idx(g.height as int, a, b)]
            == if in_component(*g, (l.i as int, l.j as int), (a, b)) { 1i32 } else { 0i32 } by {
            lemma_idx(g.width as int, g.height as int, a, b);
            lemma_reached_zeros(*g, n as nat, (l.i as int, l.j as int), (a, b));
        }
    }
    let ghost v0 = v@;
    let mut k: usize = 0;
    while k < n
        invariant
            k <= n,
            n == v@.len(),
            n == m@.len(),
            v0.len() == n,
            forall|x: int| 0 <= x < n ==> #[trigger] v@[x] == if x < k && m@[x] == 1 { val } else { v0[x] },
        decreases n - k,
    {
        if m[k] == 1 {
            v.set(k, val);
        }
        k += 1;
    }
    proof {
        assert forall|a: int, b: int| g.in_map(a, b) implies #[trigger] v@[spec_idx(g.height as int, a, b)]
            == if inhabitable_at(*g, l.i as int, l.j as int)
                && in_component(*g, (l.i as int, l.j as int), (a, b)) {
                val
            } else {
                v0[spec_idx(g.height as int, a, b)]
            } by {
            lemma_idx(g.width as int, g.height as int, a, b);
        }
    }
}

/// Total credit at tile `x` of the flags among tiles `0..q`.
pub open spec fn credit_sum(g: Grid, f: FlagGridView, x: int, q: int) -> int
    decreases q,
{
    if q <= 0 {
        0
    } else {
        let l = loc_of(f.height, q - 1);
        credit_sum(g, f, x, q - 1) + if f.flag[q - 1] {
            flag_credit(g, l.i as int, l.j as int, FLAG_POWER)[x] as int
        } else {
            0
        }
    }
}

/// Flags stand only on tiles that can hold people (`add_flag` places none
/// elsewhere).
pub open spec fn flags_on_land(g: Grid, f: FlagGridView) -> bool {
    forall|k: int| 0 <= k < f.flag.len() && #[trigger] f.flag[k] ==> spec_is_inhabitable(g.tiles@[k].cl)
}

/// The overlay is consistent with the map: it fits, its flags stand on
/// land, and every call value is the total credit of the flags at that
/// tile.
pub open spec fn flags_ok(g: Grid, f: FlagGridView) -> bool {
    &&& fits(g, f)
    &&& flags_on_land(g, f)
    &&& forall|x: int| 0 <= x < f.call.len() ==> #[trigger] f.call[x] == credit_sum(g, f, x, f.flag.len() as int)
}

/// Two maps of the same shape where the same tiles are inhabitable.
pub open spec fn same_mask(a: Grid, b: Grid) -> bool {
    &&& a.width == b.width
    &&& a.height == b.height
    &&& a.tiles@.len() == b.tiles@.len()
    &&& forall|k: int| 0 <= k < a.tiles@.len() ==> spec_is_inhabitable(#[trigger] a.tiles@[k].cl)
        == spec_is_inhabitable(b.tiles@[k].cl)
}

/// The credit of every flag lies in `0..=FLAG_POWER`, so their total over
/// `q` tiles lies in `0..=FLAG_POWER * q`.
pub proof fn lemma_credit_sum_bounds(g: Grid, f: FlagGridView, x: int, q: int)
    requires
        g.wf(),
        fits(g, f),
        0 <= x < g.tiles@.len(),
        0 <= q <= f.flag.len(),
    ensures
        0 <= credit_sum(g, f, x, q) <= FLAG_POWER * q,
    decreases q,
{
    if q > 0 {
        lemma_credit_sum_bounds(g, f, x, q - 1);
        let l = loc_of(f.height, q - 1);
        lemma_flag_credit_bounds(g, l.i as int, l.j as int, FLAG_POWER);
    }
}

/// Changing the flag of tile `y` alone changes the total credit at `x` by
/// that flag's credit.
proof fn lemma_credit_sum_set(g: Grid, f: FlagGridView, f2: FlagGridView, y: int, x: int, q: int)
    requires
        f2.height == f.height,
        f2.flag.len() == f.flag.len(),
        0 <= y < f.flag.len(),
        0 <= q <= f.flag.len(),
        forall|z: int| 0 <= z < f.flag.len() && z != y ==> f2.flag[z] == f.flag[z],
    ensures
        credit_sum(g, f2, x, q) == credit_sum(g, f, x, q) + if y < q && f2.flag[y] && !f.flag[y] {
            flag_credit(g, loc_of(f.height, y).i as int, loc_of(f.height, y).j as int, FLAG_POWER)[x] as int
        } else if y < q && !f2.flag[y] && f.flag[y] {
            -(flag_credit(g, loc_of(f.height, y).i as int, loc_of(f.height, y).j as int, FLAG_POWER)[x] as int)
        } else {
            0
        },
    decreases q,
{
    if q > 0 {
        lemma_credit_sum_set(g, f, f2, y, x, q - 1);
        if q - 1 != y {
            assert(f2.flag[q - 1] == f.flag[q - 1]);
        }
    }
}

/// The coordinate of the index of an on-map `(i, j)` is `(i, j)`.
proof fn lemma_loc_of_idx(g: Grid, i: int, j: int)
    requires
        g.wf(),
        g.in_map(i, j),
    ensures
        0 <= spec_idx(g.height as int, i, j) < g.tiles@.len(),
        loc_of(g.height as int, spec_idx(g.height as int, i, j)).i == i,
        loc_of(g.height as int, spec_idx(g.height as int, i, j)).j == j,
{
    lemma_idx(g.width as int, g.height as int, i, j);
}

/// Adding a flag keeps the overlay consistent, given room in the call
/// field.
pub proof fn lemma_add_flag_ok(g: Grid, f: FlagGridView, i: int, j: int)
    requires
        g.wf(),
        flags_ok(g, f),
    ensures
        flags_ok(g, spec_add_flag(g, f, i, j, FLAG_POWER)),
{
    let f2 = spec_add_flag(g, f, i, j, FLAG_POWER);
    lemma_flag_ops_fit(g, f, i, j, FLAG_POWER);
    if can_add(g, f, i, j) {
        lemma_loc_of_idx(g, i, j);
        lemma_flag_credit_bounds(g, i, j, FLAG_POWER);
        let y = spec_idx(g.height as int, i, j);
        assert forall|x: int| 0 <= x < f2.call.len() implies #[trigger] f2.call[x]
            == credit_sum(g, f2, x, f2.flag.len() as int) by {
            lemma_credit_sum_set(g, f, f2, y, x, f.flag.len() as int);
            assert(f.call[x] == credit_sum(g, f, x, f.flag.len() as int));
            lemma_credit_sum_bounds(g, f, x, f.flag.len() as int);
            lemma_area(g.width as int, g.height as int);
            let c = flag_credit(g, i, j, FLAG_POWER)[x] as int;
            assert(loc_of(f.height, y).i == i && loc_of(f.height, y).j == j);
            assert(credit_sum(g, f2, x, f2.flag.len() as int) == credit_sum(g, f, x, f.flag.len() as int) + c);
            assert(f2.call[x] == f.call[x] + c);
        }
    }
}

/// Removing a flag keeps the overlay consistent.
pub proof fn lemma_remove_flag_ok(g: Grid, f: FlagGridView, i: int, j: int)
    requires
        g.wf(),
        flags_ok(g, f),
    ensures
        flags_ok(g, spec_remove_flag(g, f, i, j, FLAG_POWER)),
{
    let f2 = spec_remove_flag(g, f, i, j, FLAG_POWER);
    lemma_flag_ops_fit(g, f, i, j, FLAG_POWER);
    if can_remove(g, f, i, j) {
        lemma_loc_of_idx(g, i, j);
        lemma_flag_credit_bounds(g, i, j, FLAG_POWER);
        let y = spec_idx(g.height as int, i, j);
        assert forall|x: int| 0 <= x < f2.call.len() implies #[trigger] f2.call[x]
            == credit_sum(g, f2, x, f2.flag.len() as int) by {
            lemma_credit_sum_set(g, f, f2, y, x, f.flag.len() as int);
            assert(f.call[x] == credit_sum(g, f, x, f.flag.len() as int));
            lemma_credit_sum_bounds(g, f, x, f.flag.len() as int);
            lemma_area(g.width as int, g.height as int);
            let c = flag_credit(g, i, j, FLAG_POWER)[x] as int;
            assert(loc_of(f.height, y).i == i && loc_of(f.height, y).j == j);
            assert(credit_sum(g, f2, x, f2.flag.len() as int) == credit_sum(g, f, x, f.flag.len() as int) - c);
            assert(f2.call[x] == spread_v(f.call[x] as int, -1, c));
            lemma_credit_sum_bounds(g, f2, x, f2.flag.len() as int);
        }
    }
}

/// A consistent overlay has at most `FLAG_POWER` per tile of the map in
/// each call value.
pub proof fn lemma_flags_ok_call(g: Grid, f: FlagGridView, x: int)
    requires
        g.wf(),
        flags_ok(g, f),
        0 <= x < f.call.len(),
    ensures
        0 <= f.call[x] <= FLAG_POWER * g.tiles@.len(),
{
    lemma_credit_sum_bounds(g, f, x, f.flag.len() as int);
}

/// Spreading only looks at which tiles are inhabitable.
pub proof fn lemma_spread_mask(a: Grid, b: Grid, u: Seq<i32>, i: int, j: int, val: i32)
    requires
        a.wf(),
        same_mask(a, b),
    ensures
        spread_u(a, u, i, j, val) == spread_u(b, u, i, j, val),
    decreases val, 0int,
{
    if a.in_map(i, j) {
        lemma_idx(a.width as int, a.height as int, i, j);
        assert(spec_is_inhabitable(a.tiles@[spec_idx(a.height as int, i, j)].cl)
            == spec_is_inhabitable(b.tiles@[spec_idx(a.height as int, i, j)].cl));
    }
    assert(inhabitable_at(a, i, j) == inhabitable_at(b, i, j));
    if inhabitable_at(a, i, j) {
        let k = spec_idx(a.height as int, i, j);
        if val - u[k] > 0 && val / 2 > 0 {
            lemma_spread_dirs_mask(a, b, u.update(k, val), i, j, (val / 2) as i32, 0);
        }
    }
}

/// `spread_dirs` only looks at which tiles are inhabitable.
pub proof fn lemma_spread_dirs_mask(a: Grid, b: Grid, u: Seq<i32>, i: int, j: int, val: i32, k: int)
    requires
        a.wf(),
        same_mask(a, b),
    ensures
        spread_dirs(a, u, i, j, val, k) == spread_dirs(b, u, i, j, val, k),
    decreases val, 7 - k,
{
    if 0 <= k < 6 {
        lemma_spread_mask(a, b, u, i + dir_i(k), j + dir_j(k), val);
        let u1 = spread_u(a, u, i + dir_i(k), j + dir_j(k), val);
        lemma_spread_dirs_mask(a, b, u1, i, j, val, k + 1);
    }
}

/// The total credit only looks at which tiles are inhabitable.
proof fn lemma_credit_sum_mask(a: Grid, b: Grid, f: FlagGridView, x: int, q: int)
    requires
        a.wf(),
        same_mask(a, b),
    ensures
        credit_sum(a, f, x, q) == credit_sum(b, f, x, q),
    decreases q,
{
    if q > 0 {
        lemma_credit_sum_mask(a, b, f, x, q - 1);
        let l = loc_of(f.height, q - 1);
        lemma_spread_mask(a, b, zeros(a.tiles@.len()), l.i as int, l.j as int, FLAG_POWER);
    }
}

/// An overlay consistent with one map is consistent with any map of the
/// same shape and the same inhabitable tiles.
pub proof fn lemma_flags_ok_mask(a: Grid, b: Grid, f: FlagGridView)
    requires
        a.wf(),
        same_mask(a, b),
        flags_ok(a, f),
    ensures
        flags_ok(b, f),
{
    assert forall|x: int| 0 <= x < f.call.len() implies #[trigger] f.call[x]
        == credit_sum(b, f, x, f.flag.len() as int) by {
        lemma_credit_sum_mask(a, b, f, x, f.flag.len() as int);
    }
}

/// Removing flags one after another keeps the overlay consistent.
pub proof fn lemma_remove_all_ok(g: Grid, f: FlagGridView, locs: Seq<Loc>)
    requires
        g.wf(),
        flags_ok(g, f),
    ensures
        flags_ok(g, spec_remove_all(g, f, locs, FLAG_POWER)),
    decreases locs.len(),
{
    if locs.len() > 0 {
        lemma_remove_all_ok(g, f, locs.drop_last());
        lemma_remove_flag_ok(g, spec_remove_all(g, f, locs.drop_last(), FLAG_POWER), locs.last().i as int, locs.last().j as int);
    }
}

/// A fresh overlay (no flags, zero calls) is consistent.
pub proof fn lemma_new_flags_ok(g: Grid, f: FlagGridView)
    requires
        fits(g, f),
        forall|x: int| 0 <= x < f.call.len() ==> #[trigger] f.call[x] == 0,
        forall|x: int| 0 <= x < f.flag.len() ==> !#[trigger] f.flag[x],
    ensures
        flags_ok(g, f),
{
    assert forall|x: int| 0 <= x < f.call.len() implies #[trigger] f.call[x]
        == credit_sum(g, f, x, f.flag.len() as int) by {
        lemma_credit_sum_zero(g, f, x, f.flag.len() as int);
    }
}

proof fn lemma_credit_sum_zero(g: Grid, f: FlagGridView, x: int, q: int)
    requires
        0 <= q <= f.flag.len(),
        forall|z: int| 0 <= z < f.flag.len() ==> !#[trigger] f.flag[z],
    ensures
        credit_sum(g, f, x, q) == 0,
    decreases q,
{
    if q > 0 {
        lemma_credit_sum_zero(g, f, x, q - 1);
    }
}

/// Removing the flags of the first `k` tiles, in storage order, clears
/// exactly those tiles' flags.
proof fn lemma_remove_flagged_prefix(g: Grid, f: FlagGridView, k: int)
    requires
        g.wf(),
        fits(g, f),
        flags_on_land(g, f),
        0 <= k <= f.flag.len(),
    ensures
        spec_remove_all(g, f, flagged_prefix(f, k), FLAG_POWER).height == f.height,
        spec_remove_all(g, f, flagged_prefix(f, k), FLAG_POWER).flag.len() == f.flag.len(),
        forall|z: int| 0 <= z < f.flag.len() ==> #[trigger] spec_remove_all(g, f, flagged_prefix(f, k), FLAG_POWER).flag[z]
            == (z >= k && f.flag[z]),
    decreases k,
{
    if k > 0 {
        lemma_remove_flagged_prefix(g, f, k - 1);
        let prev = spec_remove_all(g, f, flagged_prefix(f, k - 1), FLAG_POWER);
        if f.flag[k - 1] {
            let locs = flagged_prefix(f, k);
            let l = loc_of(f.height, k - 1);
            assert(locs.drop_last() =~= flagged_prefix(f, k - 1));
            assert(locs.last() == l);
            lemma_area(g.width as int, g.height as int);
            if g.height == 0 {
                assert(g.width * 0 == 0);
            }
            lemma_idx_inv(g.width as int, g.height as int, k - 1);
            assert(l.i == (k - 1) / f.height && l.j == (k - 1) % f.height);
            assert(can_remove(g, prev, l.i as int, l.j as int));
            let r = spec_remove_all(g, f, locs, FLAG_POWER);
            assert(r == spec_remove_flag(g, prev, l.i as int, l.j as int, FLAG_POWER));
        }
    }
}

/// Removing the flags the draws pick among the first `k` tiles clears
/// exactly the flags of those tiles whose draw passes.
pub proof fn lemma_remove_picked(g: Grid, f: FlagGridView, xs: Seq<u32>, num: int, den: int, k: int)
    requires
        g.wf(),
        fits(g, f),
        flags_on_land(g, f),
        0 <= k <= f.flag.len(),
    ensures
        spec_remove_all(g, f, picked(f, xs, num, den, k), FLAG_POWER).height == f.height,
        spec_remove_all(g, f, picked(f, xs, num, den, k), FLAG_POWER).flag.len() == f.flag.len(),
        forall|z: int| 0 <= z < f.flag.len() ==> #[trigger] spec_remove_all(g, f, picked(f, xs, num, den, k), FLAG_POWER).flag[z]
            == (f.flag[z] && !(z < k && spec_chance_with(num, den, xs[flagged_prefix(f, z).len() as int] as int))),
    decreases k,
{
    if k > 0 {
        lemma_remove_picked(g, f, xs, num, den, k - 1);
        let prev = spec_remove_all(g, f, picked(f, xs, num, den, k - 1), FLAG_POWER);
        if f.flag[k - 1] && spec_chance_with(num, den, xs[flagged_prefix(f, k - 1).len() as int] as int) {
            let locs = picked(f, xs, num, den, k);
            let l = loc_of(f.height, k - 1);
            assert(locs.drop_last() =~= picked(f, xs, num, den, k - 1));
            assert(locs.last() == l);
            lemma_area(g.width as int, g.height as int);
            if g.height == 0 {
                assert(g.width * 0 == 0);
            }
            lemma_idx_inv(g.width as int, g.height as int, k - 1);
            assert(l.i == (k - 1) / f.height && l.j == (k - 1) % f.height);
            assert(can_remove(g, prev, l.i as int, l.j as int));
            let r = spec_remove_all(g, f, locs, FLAG_POWER);
            assert(r == spec_remove_flag(g, prev, l.i as int, l.j as int, FLAG_POWER));
        }
    }
}

/// Clearing every flag (`remove_flags_with_prob` with a chance of one)
/// leaves no flag and a call value of zero on every tile, when the overlay
/// was consistent with the map.
pub proof fn law_clear_all_flags(g: Grid, f: FlagGridView)
    requires
        g.wf(),
        flags_ok(g, f),
    ensures
        forall|x: int| 0 <= x < f.flag.len()
            ==> !#[trigger] spec_remove_all(g, f, flagged_prefix(f, f.flag.len() as int), FLAG_POWER).flag[x],
        forall|x: int| 0 <= x < f.call.len()
            ==> #[trigger] spec_remove_all(g, f, flagged_prefix(f, f.flag.len() as int), FLAG_POWER).call[x] == 0,
{
    let locs = flagged_prefix(f, f.flag.len() as int);
    let r = spec_remove_all(g, f, locs, FLAG_POWER);
    lemma_remove_flagged_prefix(g, f, f.flag.len() as int);
    lemma_remove_all_ok(g, f, locs);
    assert forall|x: int| 0 <= x < f.call.len() implies #[trigger] r.call[x] == 0 by {
        lemma_credit_sum_zero(g, r, x, r.flag.len() as int);
    }
}

} // verus!
