//! Fixed-point arithmetic for the propagation engine.
//!
//! Fractions are carried as integers scaled by `FRAC_ONE` (parts per
//! billion).  The module provides an exact floor square root and a
//! fractional power `r^(q/1024)` for `r` in `[0, 1]` and `q` in
//! `[0, 1024]`, evaluated by binary decomposition of the exponent with
//! one scaled square root per fractional bit.

use vstd::prelude::*;
use vstd::arithmetic::power2::pow2;
use crate::FRAC_ONE;
use crate::EXP_ONE;

verus! {

/// `r` is the floor of the square root of `x`.
pub open spec fn is_sqrt_floor(x: int, r: int) -> bool {
    &&& 0 <= r
    &&& r * r <= x
    &&& x < (r + 1) * (r + 1)
}

/// The floor of the square root of a non-negative integer.
pub open spec fn sqrt_floor(x: int) -> int {
    choose|r: int| #[trigger] is_sqrt_floor(x, r)
}

pub proof fn lemma_sqrt_floor_exists(x: int)
    requires
        x >= 0,
    ensures
        exists|r: int| is_sqrt_floor(x, r),
    decreases x,
{
    if x == 0 {
        assert(is_sqrt_floor(0, 0));
    } else {
        lemma_sqrt_floor_exists(x - 1);
        let r = choose|r: int| #[trigger] is_sqrt_floor(x - 1, r);
        if x < (r + 1) * (r + 1) {
            assert(is_sqrt_floor(x, r));
        } else {
            assert(x == (r + 1) * (r + 1));
            assert((r + 1) * (r + 1) < (r + 2) * (r + 2)) by (nonlinear_arith)
                requires r >= 0;
            assert(is_sqrt_floor(x, r + 1));
        }
    }
}

pub proof fn lemma_sqrt_floor_unique(x: int, r: int)
    requires
        is_sqrt_floor(x, r),
    ensures
        sqrt_floor(x) == r,
{
    let r2 = sqrt_floor(x);
    assert(is_sqrt_floor(x, r2));
    assert(r2 == r) by (nonlinear_arith)
        requires is_sqrt_floor(x, r), is_sqrt_floor(x, r2);
}

pub proof fn lemma_sqrt_floor_props(x: int)
    requires
        x >= 0,
    ensures
        is_sqrt_floor(x, sqrt_floor(x)),
{
    lemma_sqrt_floor_exists(x);
    let r = choose|r: int| #[trigger] is_sqrt_floor(x, r);
    assert(is_sqrt_floor(x, r));
}

/// The floor square root never decreases.
pub proof fn lemma_sqrt_floor_monotone(x1: int, x2: int)
    requires
        0 <= x1 <= x2,
    ensures
        sqrt_floor(x1) <= sqrt_floor(x2),
{
    lemma_sqrt_floor_props(x1);
    lemma_sqrt_floor_props(x2);
    let r1 = sqrt_floor(x1);
    let r2 = sqrt_floor(x2);
    assert(r1 <= r2) by (nonlinear_arith)
        requires
            is_sqrt_floor(x1, r1),
            is_sqrt_floor(x2, r2),
            x1 <= x2;
}

/// Floor square root, by binary search on the root.
pub fn isqrt(x: u128) -> (r: u64)
    ensures
        r == sqrt_floor(x as int),
        is_sqrt_floor(x as int, r as int),
{
    let mut lo: u128 = 0;
    let mut hi: u128 = 0x1_0000_0000_0000_0000;
    proof {
        assert((0x1_0000_0000_0000_0000 as int) * (0x1_0000_0000_0000_0000 as int) > x as int)
            by (nonlinear_arith)
            requires x as int <= 0xffff_ffff_ffff_ffff_ffff_ffff_ffff_ffff as int;
    }
    while hi - lo > 1
        invariant
            0 <= lo < hi <= 0x1_0000_0000_0000_0000,
            (lo as int) * (lo as int) <= x as int,
            (x as int) < (hi as int) * (hi as int),
        decreases hi - lo,
    {
        let mid: u128 = lo + (hi - lo) / 2;
        proof {
            assert(lo < mid < hi);
            assert((mid as int) * (mid as int) < 0xffff_ffff_ffff_ffff_ffff_ffff_ffff_ffff as int)
                by (nonlinear_arith)
                requires 0 <= mid as int, mid as int <= 0xffff_ffff_ffff_ffff as int;
        }
        if mid * mid <= x {
            lo = mid;
        } else {
            hi = mid;
        }
    }
    proof {
        assert(hi == lo + 1);
        assert(is_sqrt_floor(x as int, lo as int));
        lemma_sqrt_floor_unique(x as int, lo as int);
        assert(lo < 0x1_0000_0000_0000_0000);
    }
    lo as u64
}

/// Scaled square root of a scaled fraction: `sqrt(x / FRAC_ONE)` in
/// `FRAC_ONE` units, that is `sqrt_floor(x * FRAC_ONE)`.
pub fn frac_sqrt(x: u64) -> (r: u64)
    requires
        x <= FRAC_ONE,
    ensures
        r == sqrt_floor(x * FRAC_ONE),
        r <= FRAC_ONE,
        x == FRAC_ONE ==> r == FRAC_ONE,
{
    proof {
        assert((x as int) * (FRAC_ONE as int) <= (FRAC_ONE as int) * (FRAC_ONE as int))
            by (nonlinear_arith)
            requires 0 <= x as int <= FRAC_ONE as int;
    }
    let r = isqrt((x as u128) * (FRAC_ONE as u128));
    proof {
        lemma_frac_sqrt_le_one(x as int);
        if x == FRAC_ONE {
            assert((FRAC_ONE as int) * (FRAC_ONE as int) <= (FRAC_ONE as int) * (FRAC_ONE as int));
            assert((FRAC_ONE as int) * (FRAC_ONE as int) < (FRAC_ONE as int + 1) * (FRAC_ONE as int + 1))
                by (nonlinear_arith);
            lemma_sqrt_floor_unique((FRAC_ONE as int) * (FRAC_ONE as int), FRAC_ONE as int);
        }
    }
    r
}

pub proof fn lemma_frac_sqrt_le_one(x: int)
    requires
        0 <= x <= FRAC_ONE,
    ensures
        0 <= sqrt_floor(x * FRAC_ONE) <= FRAC_ONE,
{
    lemma_sqrt_floor_props(x * FRAC_ONE);
    let r = sqrt_floor(x * FRAC_ONE);
    assert(r <= FRAC_ONE) by (nonlinear_arith)
        requires
            is_sqrt_floor(x * FRAC_ONE, r),
            0 <= x <= FRAC_ONE;
}

/// Product of two scaled fractions, floor-rounded back to scale.
pub fn frac_mul(a: u64, b: u64) -> (r: u64)
    requires
        a <= FRAC_ONE,
        b <= FRAC_ONE,
    ensures
        r == (a * b) / (FRAC_ONE as int),
        r <= a,
        r <= FRAC_ONE,
        a == FRAC_ONE && b == FRAC_ONE ==> r == FRAC_ONE,
{
    proof {
        lemma_frac_mul_bounds(a as int, b as int);
    }
    ((a as u128 * b as u128) / (FRAC_ONE as u128)) as u64
}

pub proof fn lemma_frac_mul_bounds(a: int, b: int)
    requires
        0 <= a <= FRAC_ONE,
        0 <= b <= FRAC_ONE,
    ensures
        0 <= (a * b) / (FRAC_ONE as int) <= a,
        a == FRAC_ONE && b == FRAC_ONE ==> (a * b) / (FRAC_ONE as int) == FRAC_ONE,
{
    assert(0 <= (a * b) / (FRAC_ONE as int) <= a) by (nonlinear_arith)
        requires 0 <= a <= FRAC_ONE, 0 <= b <= FRAC_ONE;
    if a == FRAC_ONE && b == FRAC_ONE {
        assert((FRAC_ONE as int * FRAC_ONE as int) / (FRAC_ONE as int) == FRAC_ONE as int)
            by (nonlinear_arith);
    }
}

/// Bit `k` (weight `2^-k`, for `k` in `1..=10`) of an exponent held in
/// units of `1/EXP_ONE`.
pub open spec fn exp_bit(q: int, k: int) -> bool {
    (q / pow2((10 - k) as nat) as int) % 2 == 1
}

/// One pass of the fractional-power evaluation: `cur` starts as the
/// base; at step `k` it is replaced by its square root and folded into
/// `acc` when bit `k` of the exponent is set.
pub open spec fn pow_loop(acc: int, cur: int, q: int, k: int) -> int
    decreases 11 - k,
{
    if k < 1 || k >= 11 {
        acc
    } else {
        let cur2 = sqrt_floor(cur * FRAC_ONE);
        let acc2 = if exp_bit(q, k) { (acc * cur2) / (FRAC_ONE as int) } else { acc };
        pow_loop(acc2, cur2, q, k + 1)
    }
}

/// `r^(q/EXP_ONE)` for a scaled fraction `r`, floor-rounded at each
/// step; exact at the endpoints `r == FRAC_ONE` and `q == EXP_ONE`.
pub open spec fn pow_frac_spec(r: int, q: int) -> int {
    if q == EXP_ONE as int {
        r
    } else {
        pow_loop(FRAC_ONE as int, r, q, 1)
    }
}

pub proof fn lemma_pow_loop_bounds(acc: int, cur: int, q: int, k: int)
    requires
        0 <= acc <= FRAC_ONE,
        0 <= cur <= FRAC_ONE,
    ensures
        0 <= pow_loop(acc, cur, q, k) <= acc,
    decreases 11 - k,
{
    if k < 1 || k >= 11 {
    } else {
        let cur2 = sqrt_floor(cur * FRAC_ONE);
        lemma_frac_sqrt_le_one(cur);
        let acc2 = if exp_bit(q, k) { (acc * cur2) / (FRAC_ONE as int) } else { acc };
        if exp_bit(q, k) {
            lemma_frac_mul_bounds(acc, cur2);
        }
        lemma_pow_loop_bounds(acc2, cur2, q, k + 1);
    }
}

pub proof fn lemma_pow_frac_spec_bounds(r: int, q: int)
    requires
        0 <= r <= FRAC_ONE,
    ensures
        0 <= pow_frac_spec(r, q) <= FRAC_ONE,
{
    if q != EXP_ONE as int {
        lemma_pow_loop_bounds(FRAC_ONE as int, r, q, 1);
    }
}

proof fn lemma_pow_loop_monotone(acc1: int, cur1: int, acc2: int, cur2: int, q: int, k: int)
    requires
        0 <= acc1 <= acc2 <= FRAC_ONE,
        0 <= cur1 <= cur2 <= FRAC_ONE,
    ensures
        pow_loop(acc1, cur1, q, k) <= pow_loop(acc2, cur2, q, k),
    decreases 11 - k,
{
    if k < 1 || k >= 11 {
    } else {
        let c1 = sqrt_floor(cur1 * FRAC_ONE);
        let c2 = sqrt_floor(cur2 * FRAC_ONE);
        lemma_frac_sqrt_le_one(cur1);
        lemma_frac_sqrt_le_one(cur2);
        assert(cur1 * FRAC_ONE <= cur2 * FRAC_ONE) by (nonlinear_arith)
            requires cur1 <= cur2, FRAC_ONE as int > 0;
        lemma_sqrt_floor_monotone(cur1 * FRAC_ONE, cur2 * FRAC_ONE);
        let a1 = if exp_bit(q, k) { (acc1 * c1) / (FRAC_ONE as int) } else { acc1 };
        let a2 = if exp_bit(q, k) { (acc2 * c2) / (FRAC_ONE as int) } else { acc2 };
        if exp_bit(q, k) {
            lemma_frac_mul_bounds(acc1, c1);
            lemma_frac_mul_bounds(acc2, c2);
            assert(acc1 * c1 <= acc2 * c2) by (nonlinear_arith)
                requires 0 <= acc1 <= acc2, 0 <= c1 <= c2;
            vstd::arithmetic::div_mod::lemma_div_is_ordered(acc1 * c1, acc2 * c2, FRAC_ONE as int);
        }
        lemma_pow_loop_monotone(a1, c1, a2, c2, q, k + 1);
    }
}

/// The fractional power never decreases in its base.
pub proof fn lemma_pow_frac_monotone(r1: int, r2: int, q: int)
    requires
        0 <= r1 <= r2 <= FRAC_ONE,
    ensures
        pow_frac_spec(r1, q) <= pow_frac_spec(r2, q),
{
    if q != EXP_ONE as int {
        lemma_pow_loop_monotone(FRAC_ONE as int, r1, FRAC_ONE as int, r2, q, 1);
    }
}

proof fn lemma_pow_loop_one(q: int, k: int)
    ensures
        pow_loop(FRAC_ONE as int, FRAC_ONE as int, q, k) == FRAC_ONE as int,
    decreases 11 - k,
{
    if k < 1 || k >= 11 {
    } else {
        assert((FRAC_ONE as int) * (FRAC_ONE as int) < (FRAC_ONE as int + 1) * (FRAC_ONE as int + 1))
            by (nonlinear_arith);
        lemma_sqrt_floor_unique((FRAC_ONE as int) * (FRAC_ONE as int), FRAC_ONE as int);
        lemma_frac_mul_bounds(FRAC_ONE as int, FRAC_ONE as int);
        lemma_pow_loop_one(q, k + 1);
    }
}

/// A full fraction raised to any exponent stays a full fraction.
pub proof fn lemma_pow_frac_one(q: int)
    ensures
        pow_frac_spec(FRAC_ONE as int, q) == FRAC_ONE as int,
{
    if q != EXP_ONE as int {
        lemma_pow_loop_one(q, 1);
    }
}

/// `r^(q/EXP_ONE)` on scaled fractions.
pub fn pow_frac(r: u64, q: u16) -> (res: u64)
    requires
        r <= FRAC_ONE,
        q <= EXP_ONE,
    ensures
        res == pow_frac_spec(r as int, q as int),
        res <= FRAC_ONE,
        r == FRAC_ONE ==> res == FRAC_ONE,
{
    if q == EXP_ONE {
        return r;
    }
    let mut acc: u64 = FRAC_ONE;
    let mut cur: u64 = r;
    let mut k: u64 = 1;
    let mut d: u64 = 512;
    proof {
        vstd::arithmetic::power2::lemma2_to64();
    }
    while k <= 10
        invariant
            1 <= k <= 11,
            q <= EXP_ONE,
            r <= FRAC_ONE,
            acc <= FRAC_ONE,
            cur <= FRAC_ONE,
            k <= 10 ==> d == pow2((10 - k) as nat),
            pow_loop(FRAC_ONE as int, r as int, q as int, 1) == pow_loop(acc as int, cur as int, q as int, k as int),
            r == FRAC_ONE ==> acc == FRAC_ONE && cur == FRAC_ONE,
        decreases 11 - k,
    {
        let ghost acc0 = acc as int;
        let ghost cur0 = cur as int;
        proof {
            vstd::arithmetic::power2::lemma2_to64();
            vstd::arithmetic::power2::lemma_pow2_pos((10 - k) as nat);
        }
        cur = frac_sqrt(cur);
        let bit: u64 = (q as u64 / d) % 2;
        proof {
            assert(exp_bit(q as int, k as int) == (bit == 1));
        }
        if bit == 1 {
            acc = frac_mul(acc, cur);
        }
        proof {
            assert(pow_loop(acc0, cur0, q as int, k as int) == pow_loop(acc as int, cur as int, q as int, k as int + 1));
        }
        k = k + 1;
        if k <= 10 {
            proof {
                vstd::arithmetic::power2::lemma_pow2_adds((10 - k) as nat, 1);
                assert(pow2(1) == 2);
            }
            d = d / 2;
        }
    }
    proof {
        assert(pow_loop(acc as int, cur as int, q as int, k as int) == acc as int);
    }
    acc
}

} // verus!
