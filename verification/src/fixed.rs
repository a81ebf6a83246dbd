//! Fixed-point arithmetic on parts-per-billion values.
//!
//! Probabilities, the quantile and the adversary power ratio are held as
//! unsigned integers scaled by [`PPB`], so a value of `PPB` stands for `1.0`.
//! Products and sums saturate at `u64::MAX`; probabilities are clamped into
//! `[0, PPB]` where a probability is meant.

use vstd::prelude::*;
use vstd::arithmetic::div_mod::{lemma_div_is_ordered, lemma_div_multiples_vanish};
use vstd::arithmetic::mul::{lemma_mul_inequality, lemma_mul_nonnegative};

verus! {

/// The fixed-point scale: one billion parts stand for the real value `1.0`.
pub const PPB: u64 = 1_000_000_000;

/// Clamp a value into `[0, PPB]`, the range of a probability.
pub open spec fn clamp_ppb(x: int) -> int {
    if x < 0 {
        0
    } else if x > PPB as int {
        PPB as int
    } else {
        x
    }
}

/// Fixed-point product `a * b / PPB`, saturating at `u64::MAX`.
pub open spec fn mul_ppb_sat(a: int, b: int) -> int {
    let p = a * b / (PPB as int);
    if p > u64::MAX as int {
        u64::MAX as int
    } else {
        p
    }
}

/// Sum saturating at `u64::MAX`.
pub open spec fn add_sat64(a: int, b: int) -> int {
    if a + b > u64::MAX as int {
        u64::MAX as int
    } else {
        a + b
    }
}

/// Fixed-point power: `base` raised to `e`, `PPB` standing for one, each
/// multiplication saturating at `u64::MAX`.
pub open spec fn pow_ppb_sat(base: int, e: nat) -> int
    decreases e,
{
    if e == 0 {
        PPB as int
    } else {
        mul_ppb_sat(pow_ppb_sat(base, (e - 1) as nat), base)
    }
}

pub proof fn lemma_mul_ppb_sat_bounds(a: int, b: int)
    requires
        0 <= a,
        0 <= b,
    ensures
        0 <= mul_ppb_sat(a, b) <= u64::MAX as int,
{
    lemma_mul_nonnegative(a, b);
    lemma_div_is_ordered(0, a * b, PPB as int);
}

pub proof fn lemma_pow_ppb_sat_bounds(base: int, e: nat)
    requires
        0 <= base,
    ensures
        0 <= pow_ppb_sat(base, e) <= u64::MAX as int,
    decreases e,
{
    if e > 0 {
        lemma_pow_ppb_sat_bounds(base, (e - 1) as nat);
        lemma_mul_ppb_sat_bounds(pow_ppb_sat(base, (e - 1) as nat), base);
    }
}

/// Clamp into `[0, PPB]`.
pub fn clamp_to_ppb(x: u64) -> (r: u64)
    ensures
        r as int == clamp_ppb(x as int),
        r <= PPB,
{
    if x > PPB {
        PPB
    } else {
        x
    }
}

/// Fixed-point product, saturating at `u64::MAX`.
pub fn mul_ppb(a: u64, b: u64) -> (r: u64)
    ensures
        r as int == mul_ppb_sat(a as int, b as int),
{
    proof {
        lemma_mul_ppb_sat_bounds(a as int, b as int);
        assert((a as int) * (b as int) < u128::MAX as int) by (nonlinear_arith)
            requires
                a as int <= u64::MAX as int,
                b as int <= u64::MAX as int,
        ;
    }
    let p: u128 = (a as u128) * (b as u128) / (PPB as u128);
    if p > u64::MAX as u128 {
        u64::MAX
    } else {
        p as u64
    }
}

/// Saturating sum.
pub fn add_sat(a: u64, b: u64) -> (r: u64)
    ensures
        r as int == add_sat64(a as int, b as int),
{
    let s: u128 = a as u128 + b as u128;
    if s > u64::MAX as u128 {
        u64::MAX
    } else {
        s as u64
    }
}

/// Fixed-point power by iterated saturating multiplication.
pub fn pow_ppb(base: u64, e: u64) -> (r: u64)
    ensures
        r as int == pow_ppb_sat(base as int, e as nat),
{
    let mut acc: u64 = PPB;
    let mut i: u64 = 0;
    while i < e
        invariant
            i <= e,
            acc as int == pow_ppb_sat(base as int, i as nat),
        decreases e - i,
    {
        acc = mul_ppb(acc, base);
        i = i + 1;
    }
    acc
}

/// Helper for [`sqrt_floor`]: the largest `s <= r` with `s * s <= x`.
pub open spec fn sqrt_search(x: nat, r: nat) -> nat
    decreases r,
{
    if r * r <= x {
        r
    } else if r == 0 {
        0
    } else {
        sqrt_search(x, (r - 1) as nat)
    }
}

/// The integer square root: the largest `s` with `s * s <= x`.
pub open spec fn sqrt_floor(x: nat) -> nat {
    sqrt_search(x, x)
}

proof fn lemma_sqrt_search_char(x: nat, r: nat)
    requires
        (r + 1) * (r + 1) > x,
    ensures
        sqrt_search(x, r) * sqrt_search(x, r) <= x,
        (sqrt_search(x, r) + 1) * (sqrt_search(x, r) + 1) > x,
    decreases r,
{
    if r * r <= x {
        assert(sqrt_search(x, r) == r);
    } else if r == 0 {
        assert(r * r == 0) by (nonlinear_arith)
            requires
                r == 0,
        ;
    } else {
        let r1 = (r - 1) as nat;
        assert(r1 + 1 == r);
        lemma_sqrt_search_char(x, r1);
        assert(sqrt_search(x, r) == sqrt_search(x, r1));
    }
}

/// `sqrt_floor(x)` is characterised by `s * s <= x < (s + 1) * (s + 1)`.
pub proof fn lemma_sqrt_floor_char(x: nat)
    ensures
        sqrt_floor(x) * sqrt_floor(x) <= x,
        (sqrt_floor(x) + 1) * (sqrt_floor(x) + 1) > x,
{
    assert((x + 1) * (x + 1) > x) by (nonlinear_arith);
    lemma_sqrt_search_char(x, x);
}

/// Any value meeting the square-root characterisation is `sqrt_floor(x)`.
pub proof fn lemma_sqrt_unique(x: nat, r: nat)
    requires
        r * r <= x,
        (r + 1) * (r + 1) > x,
    ensures
        r == sqrt_floor(x),
{
    lemma_sqrt_floor_char(x);
    let s = sqrt_floor(x);
    assert(r == s) by (nonlinear_arith)
        requires
            r * r <= x,
            (r + 1) * (r + 1) > x,
            s * s <= x,
            (s + 1) * (s + 1) > x,
    ;
}

/// Integer square root of a 128-bit value, by binary search on the root.
pub fn isqrt(x: u128) -> (r: u64)
    ensures
        r as nat == sqrt_floor(x as nat),
{
    let mut lo: u128 = 0;
    let mut hi: u128 = 0x1_0000_0000_0000_0000;
    proof {
        assert(hi * hi > x) by (nonlinear_arith)
            requires
                hi == 0x1_0000_0000_0000_0000u128,
                x <= u128::MAX as int,
        ;
    }
    while hi - lo > 1
        invariant
            lo < hi,
            hi <= 0x1_0000_0000_0000_0000u128,
            lo * lo <= x,
            hi * hi > x,
        decreases hi - lo,
    {
        let mid: u128 = lo + (hi - lo) / 2;
        proof {
            assert(mid * mid < u128::MAX as int) by (nonlinear_arith)
                requires
                    mid < 0x1_0000_0000_0000_0000u128,
            ;
        }
        if mid * mid <= x {
            lo = mid;
        } else {
            hi = mid;
        }
    }
    proof {
        lemma_sqrt_unique(x as nat, lo as nat);
    }
    lo as u64
}

} // verus!
