//! The simulation's random number generator: a seeded `StdRng` of the
//! `rand` crate, plus the small draws the game makes from it.
use vstd::prelude::*;
use rand::rngs::StdRng;
use rand::seq::SliceRandom;
use rand::{Rng, RngCore, SeedableRng};

verus! {

/// `rand::rngs::StdRng`, carried through the library as an opaque value.
#[verifier::external_type_specification]
#[verifier::external_body]
pub struct ExStdRng(StdRng);

/// `StdRng::seed_from_u64`: a generator seeded from `seed`. Nothing is
/// stated of the generator's state, which stays opaque.
#[verifier::external_body]
fn std_rng_from_seed(seed: u64) -> StdRng {
    StdRng::seed_from_u64(seed)
}

/// `RngCore::next_u32` on a `StdRng`: any `u32` may come back.
#[verifier::external_body]
fn std_rng_next_u32(rng: &mut StdRng) -> u32 {
    rng.next_u32()
}

/// `Rng::gen_range(lo..=hi)` on a `StdRng`: a value in `lo..=hi`. The call
/// panics on an empty range, which `requires` leaves out.
#[verifier::external_body]
fn std_rng_gen_range_i32(rng: &mut StdRng, lo: i32, hi: i32) -> (r: i32)
    requires
        lo <= hi,
    ensures
        lo <= r <= hi,
{
    rng.gen_range(lo..=hi)
}

/// `SliceRandom::shuffle` on a vector with a `StdRng`: the vector ends up
/// a permutation of what it held (the source swaps pairs of elements).
/// Which permutation is left unsaid: it rests on the generator.
#[verifier::external_body]
fn std_rng_shuffle<T>(rng: &mut StdRng, v: &mut Vec<T>)
    ensures
        final(v)@.len() == old(v)@.len(),
        final(v)@.to_multiset() == old(v)@.to_multiset(),
{
    v.as_mut_slice().shuffle(rng)
}

/// The spacing of the `f32` values near `x / 2^32`, in units of `2^-32`:
/// an `f32` keeps 24 significant bits.
pub open spec fn unit_grain(x: int) -> int {
    if x < 0x100_0000 {
        1
    } else if x < 0x200_0000 {
        2
    } else if x < 0x400_0000 {
        4
    } else if x < 0x800_0000 {
        8
    } else if x < 0x1000_0000 {
        16
    } else if x < 0x2000_0000 {
        32
    } else if x < 0x4000_0000 {
        64
    } else if x < 0x8000_0000 {
        128
    } else {
        256
    }
}

/// The unit sample of the draw `x`, in units of `2^-32`: `x / 2^32`
/// rounded to the nearest `f32` (ties to the even one), as the game reads
/// a draw. It lies in `0..=2^32`.
pub open spec fn unit_scaled(x: int) -> int {
    let p = unit_grain(x);
    let q = x / p;
    let r = x % p;
    (if 2 * r > p || (2 * r == p && q % 2 == 1) { q + 1 } else { q }) * p
}

/// `unit_scaled(x)`: the draw `x` read as a unit sample.
pub fn unit_sample(x: u32) -> (r: u64)
    ensures
        r == unit_scaled(x as int),
        r <= 0x1_0000_0000,
{
    let p: u64 = if x < 0x100_0000 {
        1
    } else if x < 0x200_0000 {
        2
    } else if x < 0x400_0000 {
        4
    } else if x < 0x800_0000 {
        8
    } else if x < 0x1000_0000 {
        16
    } else if x < 0x2000_0000 {
        32
    } else if x < 0x4000_0000 {
        64
    } else if x < 0x8000_0000 {
        128
    } else {
        256
    };
    let xx: u64 = x as u64;
    let q: u64 = xx / p;
    let r: u64 = xx % p;
    assert(q * p + r == xx && q * p <= xx) by (nonlinear_arith)
        requires q == xx / p, r == xx % p, p > 0;
    assert(q * p + p <= 0x1_0000_0000) by (nonlinear_arith)
        requires
            q == xx / p,
            xx < 0x1_0000_0000,
            p == 1 || p == 2 || p == 4 || p == 8 || p == 16 || p == 32 || p == 64 || p == 128 || p == 256,
    ;
    let up: bool = 2 * r > p || (2 * r == p && q % 2 == 1);
    let qq: u64 = if up { q + 1 } else { q };
    assert(qq * p <= 0x1_0000_0000) by (nonlinear_arith)
        requires qq == q || qq == q + 1, q * p + p <= 0x1_0000_0000, p > 0;
    qq * p
}

/// Whether the draw `x` passes a chance of `num / den`: its unit sample is
/// at most `num / den`.
pub open spec fn spec_chance_with(num: int, den: int, x: int) -> bool {
    unit_scaled(x) * den <= num * 4294967296
}

/// `spec_chance_with`: the test of a chance of `num / den` on the draw
/// `x`.
pub fn chance_with(num: u64, den: u64, x: u32) -> (r: bool)
    requires
        den <= 0xffff_ffff,
        num <= 0xffff_ffff,
    ensures
        r == spec_chance_with(num as int, den as int, x as int),
        num >= den ==> r,
{
    let u = unit_sample(x);
    assert(u * den <= 0x1_0000_0000 * 0xffff_ffff) by (nonlinear_arith)
        requires u <= 0x1_0000_0000, den <= 0xffff_ffff;
    assert(u * den <= num * 4294967296 || num < den) by (nonlinear_arith)
        requires u <= 0x1_0000_0000, den >= 0;
    let lhs: u128 = (u as u128) * (den as u128);
    let rhs: u128 = (num as u128) * 4294967296u128;
    lhs <= rhs
}

/// The result of rounding `num / den` at random: the quotient, plus one
/// when the unit sample of the draw `x` (see `unit_scaled`) falls below
/// the fractional part `(num % den) / den`.
pub open spec fn spec_round_with(num: int, den: int, x: int) -> int {
    if unit_scaled(x) * den < (num % den) * 4294967296 {
        num / den + 1
    } else {
        num / den
    }
}

/// Rounds `num / den` with the draw `x`: `num / den` rounded down, plus
/// one exactly when the unit sample of `x` is below the fractional part
/// (`unit_scaled(x) * den < (num % den) * 2^32`). The chance of rounding
/// up is the fractional part of the ratio.
pub fn round_with(num: u64, den: u64, x: u32) -> (r: u64)
    requires
        den > 0,
        den <= 0xffff_ffff,
    ensures
        r == spec_round_with(num as int, den as int, x as int),
        r == num / den || r == num / den + 1,
{
    let q = num / den;
    let rem = num % den;
    let u = unit_sample(x);
    assert(u * den <= 0x1_0000_0000 * 0xffff_ffff) by (nonlinear_arith)
        requires
            u <= 0x1_0000_0000,
            den <= 0xffff_ffff,
    ;
    assert(rem < den);
    assert(q * den <= num) by (nonlinear_arith)
        requires
            q == num / den,
            den > 0,
    ;
    let lhs: u128 = (u as u128) * (den as u128);
    let rhs: u128 = (rem as u128) * 4294967296u128;
    if lhs < rhs {
        assert(q < 0xffff_ffff_ffff_ffff) by (nonlinear_arith)
            requires
                den >= 2,
                num <= 0xffff_ffff_ffff_ffff,
                q * den <= num,
        ;
        q + 1
    } else {
        q
    }
}

/// The simulation's random number generator, a `StdRng` of the `rand`
/// crate. The contracts state only the range of each draw: `rand`
/// documents the generator as deterministic for one build, but not as
/// reproducible across configurations. What a draw decides is stated
/// over the record of the 32-bit draws made so far (`draws`).
pub struct CowRng {
    inner: StdRng,
    log: Ghost<Seq<u32>>,
}

impl CowRng {
    /// The `StdRng` this generator draws from.
    pub closed spec fn generator(self) -> StdRng {
        self.inner
    }

    /// The 32-bit draws this generator has handed out so far, oldest
    /// first (every draw but those of `gen_range` and `shuffle`).
    pub closed spec fn draws(self) -> Seq<u32> {
        self.log@
    }

    /// A generator seeded with `seed`, with no draw made yet.
    pub fn from_seed(seed: u32) -> (r: CowRng)
        ensures
            r.draws() == Seq::<u32>::empty(),
    {
        CowRng { inner: std_rng_from_seed(seed as u64), log: Ghost(Seq::empty()) }
    }

    /// One 32-bit draw from the generator, recorded.
    fn draw(&mut self) -> (x: u32)
        ensures
            final(self).draws() == old(self).draws().push(x),
    {
        let x = std_rng_next_u32(&mut self.inner);
        self.log = Ghost(self.log@.push(x));
        x
    }

    /// A raw 32-bit draw.
    pub fn next_u32(&mut self) -> (r: u32)
        ensures
            final(self).draws() == old(self).draws().push(r),
    {
        self.draw()
    }

    /// `rand() % n`: a draw in `0..n`.
    pub fn below(&mut self, n: u32) -> (r: u32)
        requires
            n > 0,
        ensures
            r < n,
    {
        self.draw() % n
    }

    /// `rand() % n`: the same draw as `below`.
    pub fn rand_mod(&mut self, n: u32) -> (r: u32)
        requires
            n > 0,
        ensures
            r < n,
    {
        self.below(n)
    }

    /// `rand() & 1`: a fair coin.
    pub fn coin_flip(&mut self) -> bool {
        self.draw() & 1 != 0
    }

    /// `rand() % 6`: a starting direction for the migration rotation.
    pub fn dir_offset(&mut self) -> (r: usize)
        ensures
            r < 6,
    {
        (self.draw() % 6) as usize
    }

    /// A uniform draw in `lo..=hi`.
    pub fn gen_range(&mut self, lo: i32, hi: i32) -> (r: i32)
        requires
            lo <= hi,
        ensures
            lo <= r <= hi,
    {
        std_rng_gen_range_i32(&mut self.inner, lo, hi)
    }

    /// Random rounding of the ratio `num / den`: rounded toward zero, then,
    /// for a non-negative ratio, rounded up with a chance equal to its
    /// fractional part. An exact ratio is returned unchanged; a negative
    /// one is only rounded toward zero (the draw is still taken).
    pub fn rnd_round(&mut self, num: i64, den: u64) -> (r: i64)
        requires
            den > 0,
            den <= 0xffff_ffff,
        ensures
            num >= 0 ==> r == (num as int) / (den as int) || r == (num as int) / (den as int) + 1,
            num >= 0 && (num as int) % (den as int) == 0 ==> r == (num as int) / (den as int),
            num < 0 ==> r == -((-(num as int)) / (den as int)),
    {
        let x = self.draw();
        if num < 0 {
            let m: u64 = (-(num as i128)) as u64;
            let q: u64 = m / den;
            assert(q <= m) by (nonlinear_arith)
                requires q == m / den, den > 0;
            return (-(q as i128)) as i64;
        }
        let r = round_with(num as u64, den, x);
        proof {
            if (num as int) % (den as int) == 0 {
                assert(x * den >= 0) by (nonlinear_arith)
                    requires x >= 0, den > 0;
            }
            assert((num as int) / (den as int) <= num) by (nonlinear_arith)
                requires num >= 0, den > 0;
            if r == (num as int) / (den as int) + 1 {
                assert((num as int) % (den as int) != 0 || x * den >= 0) by (nonlinear_arith)
                    requires x >= 0, den > 0;
                assert(den >= 2 || (num as int) % (den as int) == 0);
                assert((num as int) / (den as int) + 1 <= num) by (nonlinear_arith)
                    requires num >= 0, den >= 2, (num as int) % (den as int) != 0;
            }
        }
        r as i64
    }

    /// True with chance `num / den`: one draw, which passes when its unit
    /// sample is at most `num / den` (see `chance_with`). A chance of one
    /// or more always succeeds; a chance of zero passes only the draw 0.
    pub fn chance(&mut self, num: u64, den: u64) -> (r: bool)
        requires
            den > 0,
            den <= 0xffff_ffff,
            num <= 0xffff_ffff,
        ensures
            num >= den ==> r,
            final(self).draws().len() == old(self).draws().len() + 1,
            final(self).draws().drop_last() == old(self).draws(),
            r == spec_chance_with(num as int, den as int, final(self).draws().last() as int),
    {
        let x = self.draw();
        proof {
            assert(self.draws().drop_last() =~= old(self).draws());
        }
        chance_with(num, den, x)
    }

    /// Shuffles `v` in place: it ends up a permutation of what it held.
    pub fn shuffle<T>(&mut self, v: &mut Vec<T>)
        ensures
            final(v)@.len() == old(v)@.len(),
            final(v)@.to_multiset() == old(v)@.to_multiset(),
    {
        std_rng_shuffle(&mut self.inner, v)
    }

    /// The underlying generator, for draws this type does not offer: the
    /// result is this generator's own, and what is done through it is what
    /// this generator holds afterwards.
    pub fn inner_mut(&mut self) -> (r: &mut StdRng)
        ensures
            *r == old(self).generator(),
            final(self).generator() == *final(r),
            final(self).draws() == old(self).draws(),
    {
        &mut self.inner
    }
}

} // verus!
