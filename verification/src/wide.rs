//! Exact comparisons of powers: natural numbers of 256 bits held as eight
//! 32-bit limbs, least significant first, with multiplication by a limb
//! and comparison. The computer players compare `x * a^0.7` against a
//! threshold; raising both sides to the tenth power turns that into a
//! comparison of integers of about 213 bits.
use vstd::prelude::*;

verus! {

/// The limb base, `2^32`.
pub open spec fn base() -> int {
    0x1_0000_0000
}

/// `b` raised to the power `e`.
pub open spec fn pw(b: int, e: nat) -> int
    decreases e,
{
    if e == 0 {
        1
    } else {
        b * pw(b, (e - 1) as nat)
    }
}

/// Number of limbs of a wide number.
pub const LIMBS: usize = 8;

/// The value of the first `k` limbs of `s`.
pub open spec fn limbs_val(s: Seq<u32>, k: int) -> int
    decreases k,
{
    if k <= 0 {
        0
    } else {
        limbs_val(s, k - 1) + s[k - 1] * pw(base(), (k - 1) as nat)
    }
}

/// The value of a wide number.
pub open spec fn wide_val(s: Seq<u32>) -> int {
    limbs_val(s, s.len() as int)
}

/// Powers of a non-negative base are non-negative; of a positive base,
/// positive.
pub proof fn lemma_pw_pos(b: int, e: nat)
    requires
        b >= 0,
    ensures
        pw(b, e) >= 0,
        b > 0 ==> pw(b, e) > 0,
    decreases e,
{
    if e > 0 {
        lemma_pw_pos(b, (e - 1) as nat);
        assert(b * pw(b, (e - 1) as nat) >= 0) by (nonlinear_arith)
            requires b >= 0, pw(b, (e - 1) as nat) >= 0;
        if b > 0 {
            assert(b * pw(b, (e - 1) as nat) > 0) by (nonlinear_arith)
                requires b > 0, pw(b, (e - 1) as nat) > 0;
        }
    }
}

/// Powers grow with the base.
pub proof fn lemma_pw_mono(b: int, c: int, e: nat)
    requires
        0 <= b <= c,
    ensures
        pw(b, e) <= pw(c, e),
    decreases e,
{
    if e > 0 {
        lemma_pw_mono(b, c, (e - 1) as nat);
        lemma_pw_pos(b, (e - 1) as nat);
        lemma_pw_pos(c, (e - 1) as nat);
        assert(b * pw(b, (e - 1) as nat) <= c * pw(c, (e - 1) as nat)) by (nonlinear_arith)
            requires 0 <= b <= c, 0 <= pw(b, (e - 1) as nat) <= pw(c, (e - 1) as nat);
    }
}

/// Powers of a larger positive base are strictly larger, for a positive
/// exponent.
pub proof fn lemma_pw_strict(b: int, c: int, e: nat)
    requires
        0 <= b < c,
        e > 0,
    ensures
        pw(b, e) < pw(c, e),
    decreases e,
{
    lemma_pw_mono(b, c, (e - 1) as nat);
    lemma_pw_pos(b, (e - 1) as nat);
    lemma_pw_pos(c, (e - 1) as nat);
    assert(c > 0);
    assert(pw(c, (e - 1) as nat) >= 1) by {
        lemma_pw_exp_mono(c, 0, (e - 1) as nat);
    }
    assert(b * pw(b, (e - 1) as nat) < c * pw(c, (e - 1) as nat)) by (nonlinear_arith)
        requires 0 <= b < c, 0 <= pw(b, (e - 1) as nat) <= pw(c, (e - 1) as nat), pw(c, (e - 1) as nat) >= 1;
}

/// Powers of one are one.
pub proof fn lemma_pw_one(e: nat)
    ensures
        pw(1, e) == 1,
    decreases e,
{
    if e > 0 {
        lemma_pw_one((e - 1) as nat);
    }
}

/// Powers of a base of at least one grow with the exponent.
pub proof fn lemma_pw_exp_mono(b: int, e: nat, f: nat)
    requires
        b >= 1,
        e <= f,
    ensures
        pw(b, e) <= pw(b, f),
    decreases f,
{
    if e < f {
        lemma_pw_exp_mono(b, e, (f - 1) as nat);
        lemma_pw_pos(b, (f - 1) as nat);
        assert(pw(b, (f - 1) as nat) <= b * pw(b, (f - 1) as nat)) by (nonlinear_arith)
            requires b >= 1, pw(b, (f - 1) as nat) >= 0;
    }
}

/// The first `k` limbs are worth less than `base()^k`.
proof fn lemma_limbs_bound(s: Seq<u32>, k: int)
    requires
        0 <= k <= s.len(),
    ensures
        0 <= limbs_val(s, k) < pw(base(), k as nat),
    decreases k,
{
    if k > 0 {
        lemma_limbs_bound(s, k - 1);
        let p = pw(base(), (k - 1) as nat);
        lemma_pw_pos(base(), (k - 1) as nat);
        let d = s[k - 1] as int;
        assert(0 <= d * p <= (base() - 1) * p) by (nonlinear_arith)
            requires 0 <= d < base(), p > 0;
        assert(pw(base(), k as nat) == base() * p);
    }
}

/// Appending a limb leaves the value of the first `k` limbs alone.
proof fn lemma_limbs_push(s: Seq<u32>, x: u32, k: int)
    requires
        0 <= k <= s.len(),
    ensures
        limbs_val(s.push(x), k) == limbs_val(s, k),
    decreases k,
{
    if k > 0 {
        lemma_limbs_push(s, x, k - 1);
    }
}

/// A wide number holding the small value `x`.
pub fn wide_from(x: u32) -> (r: Vec<u32>)
    ensures
        r@.len() == LIMBS,
        wide_val(r@) == x,
{
    let r: Vec<u32> = vec![x, 0, 0, 0, 0, 0, 0, 0];
    proof {
        assert(r@[1] == 0 && r@[2] == 0 && r@[3] == 0 && r@[4] == 0);
        assert(r@[5] == 0 && r@[6] == 0 && r@[7] == 0 && r@[0] == x);
        assert(pw(base(), 0) == 1);
        assert(limbs_val(r@, 0) == 0);
        assert(limbs_val(r@, 1) == x);
        assert(limbs_val(r@, 2) == x);
        assert(limbs_val(r@, 3) == x);
        assert(limbs_val(r@, 4) == x);
        assert(limbs_val(r@, 5) == x);
        assert(limbs_val(r@, 6) == x);
        assert(limbs_val(r@, 7) == x);
        assert(limbs_val(r@, 8) == x);
    }
    r
}

/// `a * m`, when it stays below `2^256`.
pub fn wide_mul(a: &Vec<u32>, m: u32) -> (r: Vec<u32>)
    requires
        a@.len() == LIMBS,
        wide_val(a@) * m < pw(base(), 8),
    ensures
        r@.len() == LIMBS,
        wide_val(r@) == wide_val(a@) * m,
{
    let mut out: Vec<u32> = Vec::new();
    let mut carry: u64 = 0;
    let mut i: usize = 0;
    while i < LIMBS
        invariant
            i <= LIMBS,
            a@.len() == LIMBS,
            out@.len() == i,
            carry < base(),
            limbs_val(out@, i as int) + carry * pw(base(), i as nat) == limbs_val(a@, i as int) * m,
        decreases LIMBS - i,
    {
        let d: u64 = a[i] as u64;
        assert(d * m + carry < 0x1_0000_0000_0000_0000) by (nonlinear_arith)
            requires d < 0x1_0000_0000, m < 0x1_0000_0000, carry < 0x1_0000_0000;
        let t: u64 = d * (m as u64) + carry;
        let lo: u32 = (t % 0x1_0000_0000) as u32;
        let ghost out0 = out@;
        let ghost c0 = carry as int;
        out.push(lo);
        carry = t / 0x1_0000_0000;
        proof {
            let p = pw(base(), i as nat);
            lemma_limbs_push(out0, lo, i as int);
            assert(limbs_val(out@, i as int + 1) == limbs_val(out0, i as int) + lo * p);
            assert(pw(base(), (i + 1) as nat) == base() * p);
            assert(t == lo + base() * carry);
            assert(limbs_val(a@, i as int + 1) == limbs_val(a@, i as int) + d * p);
            assert(lo * p + carry * (base() * p) == t * p) by (nonlinear_arith)
                requires t == lo + base() * carry;
            assert(t * p == d * m * p + c0 * p) by (nonlinear_arith)
                requires t == d * m + c0;
            assert((limbs_val(a@, i as int) + d * p) * m == limbs_val(a@, i as int) * m + d * m * p)
                by (nonlinear_arith);
            assert(carry < base()) by (nonlinear_arith)
                requires t < 0x1_0000_0000_0000_0000, carry == t / 0x1_0000_0000, base() == 0x1_0000_0000;
        }
        i += 1;
    }
    proof {
        lemma_limbs_bound(out@, 8);
        lemma_pw_pos(base(), 8);
        if carry > 0 {
            assert(carry * pw(base(), 8) >= pw(base(), 8)) by (nonlinear_arith)
                requires carry >= 1, pw(base(), 8) > 0;
        }
    }
    out
}

/// `val(a) < val(b)`.
pub fn wide_less(a: &Vec<u32>, b: &Vec<u32>) -> (r: bool)
    requires
        a@.len() == LIMBS,
        b@.len() == LIMBS,
    ensures
        r == (wide_val(a@) < wide_val(b@)),
{
    let mut k: usize = LIMBS;
    while k > 0
        invariant
            k <= LIMBS,
            a@.len() == LIMBS,
            b@.len() == LIMBS,
            wide_val(a@) - wide_val(b@) == limbs_val(a@, k as int) - limbs_val(b@, k as int),
        decreases k,
    {
        let x = a[k - 1];
        let y = b[k - 1];
        proof {
            lemma_limbs_bound(a@, k - 1);
            lemma_limbs_bound(b@, k - 1);
            lemma_pw_pos(base(), (k - 1) as nat);
        }
        proof {
            let p = pw(base(), (k - 1) as nat);
            assert(limbs_val(a@, k as int) == limbs_val(a@, k - 1) + x * p);
            assert(limbs_val(b@, k as int) == limbs_val(b@, k - 1) + y * p);
            assert(limbs_val(a@, k as int) - limbs_val(b@, k as int)
                == limbs_val(a@, k - 1) - limbs_val(b@, k - 1) + (x - y) * p) by (nonlinear_arith)
                requires limbs_val(a@, k as int) == limbs_val(a@, k - 1) + x * p,
                    limbs_val(b@, k as int) == limbs_val(b@, k - 1) + y * p;
        }
        if x < y {
            proof {
                let p = pw(base(), (k - 1) as nat);
                assert((x - y) * p <= -p) by (nonlinear_arith)
                    requires x < y, p > 0;
            }
            return true;
        }
        if x > y {
            proof {
                let p = pw(base(), (k - 1) as nat);
                assert((x - y) * p >= p) by (nonlinear_arith)
                    requires x > y, p > 0;
            }
            return false;
        }
        k -= 1;
    }
    false
}

/// The sizes involved: `(2^15)^10 * (2^9)^7 < (2^32)^8`.
proof fn lemma_pw_consts()
    ensures
        pw(0x8000, 10) * pw(0x200, 7) < pw(base(), 8),
{
    assert(pw(0x8000, 0) == 1);
    assert(pw(0x200, 0) == 1);
    assert(pw(base(), 0) == 1);
    assert(pw(32768, 1) == 0x8000);
    assert(pw(32768, 2) == 0x40000000);
    assert(pw(32768, 3) == 0x200000000000);
    assert(pw(32768, 4) == 0x1000000000000000);
    assert(pw(32768, 5) == 0x8000000000000000000);
    assert(pw(32768, 6) == 0x40000000000000000000000);
    assert(pw(32768, 7) == 0x200000000000000000000000000);
    assert(pw(32768, 8) == 0x1000000000000000000000000000000);
    assert(pw(32768, 9) == 0x8000000000000000000000000000000000);
    assert(pw(32768, 10) == 0x40000000000000000000000000000000000000);
    assert(pw(512, 1) == 0x200);
    assert(pw(512, 2) == 0x40000);
    assert(pw(512, 3) == 0x8000000);
    assert(pw(512, 4) == 0x1000000000);
    assert(pw(512, 5) == 0x200000000000);
    assert(pw(512, 6) == 0x40000000000000);
    assert(pw(512, 7) == 0x8000000000000000);
    assert(pw(base(), 1) == 0x100000000);
    assert(pw(base(), 2) == 0x10000000000000000);
    assert(pw(base(), 3) == 0x1000000000000000000000000);
    assert(pw(base(), 4) == 0x100000000000000000000000000000000);
    assert(pw(base(), 5) == 0x10000000000000000000000000000000000000000);
    assert(pw(base(), 6) == 0x1000000000000000000000000000000000000000000000000);
    assert(pw(base(), 7) == 0x100000000000000000000000000000000000000000000000000000000);
    assert(pw(base(), 8) == 0x10000000000000000000000000000000000000000000000000000000000000000);
}

/// `y^10 * a^7`, for `y < 2^15` and `a < 2^9`.
pub fn pow10_7(y: u32, a: u32) -> (r: Vec<u32>)
    requires
        y < 0x8000,
        a < 0x200,
    ensures
        r@.len() == LIMBS,
        wide_val(r@) == pw(y as int, 10) * pw(a as int, 7),
{
    proof {
        lemma_pw_consts();
        lemma_pw_mono(y as int, 0x8000, 10);
        lemma_pw_mono(a as int, 0x200, 7);
        lemma_pw_pos(y as int, 10);
        lemma_pw_pos(a as int, 7);
        lemma_pw_pos(0x8000, 10);
    }
    let mut r = wide_from(1);
    let mut i: usize = 0;
    while i < 10
        invariant
            i <= 10,
            y < 0x8000,
            r@.len() == LIMBS,
            wide_val(r@) == pw(y as int, i as nat),
            pw(0x8000, 10) * pw(0x200, 7) < pw(base(), 8),
            pw(y as int, 10) <= pw(0x8000, 10),
            pw(0x8000, 10) >= 0,
        decreases 10 - i,
    {
        proof {
            lemma_pw_mono(y as int, 0x8000, (i + 1) as nat);
            lemma_pw_exp_mono(0x8000, (i + 1) as nat, 10);
            lemma_pw_pos(0x200, 7);
            assert(pw(0x200, 7) >= 1) by {
                lemma_pw_exp_mono(0x200, 0, 7);
            }
            assert(pw(0x8000, 10) <= pw(0x8000, 10) * pw(0x200, 7)) by (nonlinear_arith)
                requires pw(0x200, 7) >= 1, pw(0x8000, 10) >= 0;
            assert(pw(y as int, (i + 1) as nat) == pw(y as int, i as nat) * y) by (nonlinear_arith)
                requires pw(y as int, (i + 1) as nat) == y * pw(y as int, i as nat);
        }
        r = wide_mul(&r, y);
        i += 1;
    }
    let mut j: usize = 0;
    while j < 7
        invariant
            j <= 7,
            y < 0x8000,
            a < 0x200,
            r@.len() == LIMBS,
            wide_val(r@) == pw(y as int, 10) * pw(a as int, j as nat),
            pw(0x8000, 10) * pw(0x200, 7) < pw(base(), 8),
            0 <= pw(y as int, 10) <= pw(0x8000, 10),
        decreases 7 - j,
    {
        proof {
            lemma_pw_mono(a as int, 0x200, (j + 1) as nat);
            lemma_pw_exp_mono(0x200, (j + 1) as nat, 7);
            lemma_pw_pos(a as int, (j + 1) as nat);
            let p = pw(y as int, 10);
            let q = pw(a as int, (j + 1) as nat);
            assert(p * q <= pw(0x8000, 10) * pw(0x200, 7)) by (nonlinear_arith)
                requires 0 <= p <= pw(0x8000, 10), 0 <= q <= pw(0x200, 7);
            assert(q == pw(a as int, j as nat) * a) by (nonlinear_arith)
                requires q == a * pw(a as int, j as nat);
            assert(p * pw(a as int, j as nat) * a == p * q) by (nonlinear_arith)
                requires q == pw(a as int, j as nat) * a;
        }
        r = wide_mul(&r, a);
        j += 1;
    }
    r
}

} // verus!
