//! Fixed-point costs and coordinates.
//!
//! A cost is a non-negative count of millionths: `COST_ONE` stands for `1.0`.
//! The largest value, `COST_INFINITY`, stands for "unreachable"; sums saturate
//! at it. Coordinates use the same unit, signed.

use vstd::prelude::*;
use vstd::arithmetic::power2::{pow2, lemma_pow2_unfold, lemma2_to64, lemma_pow2_pos};

verus! {

pub type Cost = u64;

/// The cost `1.0`.
pub const COST_ONE: Cost = 1_000_000;

/// The cost of one diagonal step: the square root of two, rounded to the nearest millionth.
pub const COST_SQRT2: Cost = 1_414_214;

/// The cost that marks a blocked or unreachable place.
pub const COST_INFINITY: Cost = 0xffff_ffff_ffff_ffff;

/// The sum of two costs, held at `COST_INFINITY` when it would pass it.
pub open spec fn cost_sum(a: Cost, b: Cost) -> Cost {
    if a + b >= COST_INFINITY {
        COST_INFINITY
    } else {
        (a + b) as Cost
    }
}

/// `a` scaled by the fixed-point factor `factor`, rounded down and saturating.
pub open spec fn cost_scaled(a: Cost, factor: Cost) -> Cost {
    if (a * factor) / (COST_ONE as int) >= COST_INFINITY {
        COST_INFINITY
    } else {
        ((a * factor) / (COST_ONE as int)) as Cost
    }
}

/// The distance between two coordinates.
pub open spec fn span(a: i64, b: i64) -> nat {
    if a >= b {
        (a - b) as nat
    } else {
        (b - a) as nat
    }
}

/// Whether `r` is the integer square root of `n`.
pub open spec fn is_floor_sqrt(r: nat, n: nat) -> bool {
    r * r <= n && n < (r + 1) * (r + 1)
}

pub fn cost_add(a: Cost, b: Cost) -> (r: Cost)
    ensures
        r == cost_sum(a, b),
{
    if a >= COST_INFINITY - b {
        COST_INFINITY
    } else {
        a + b
    }
}

pub fn cost_scale(a: Cost, factor: Cost) -> (r: Cost)
    ensures
        r == cost_scaled(a, factor),
{
    let wide: u128 = a as u128;
    let wide_factor: u128 = factor as u128;
    assert(wide * wide_factor <= 0xffff_ffff_ffff_ffff * 0xffff_ffff_ffff_ffff) by (nonlinear_arith)
        requires
            wide <= 0xffff_ffff_ffff_ffff,
            wide_factor <= 0xffff_ffff_ffff_ffff,
    ;
    let q: u128 = (wide * wide_factor) / 1_000_000;
    if q >= 0xffff_ffff_ffff_ffff {
        COST_INFINITY
    } else {
        q as u64
    }
}

pub fn coord_span(a: i64, b: i64) -> (r: u64)
    ensures
        r == span(a, b),
{
    if a >= b {
        (a as i128 - b as i128) as u64
    } else {
        (b as i128 - a as i128) as u64
    }
}

proof fn lemma_square_monotone(a: nat, b: nat)
    requires
        a <= b,
    ensures
        a * a <= b * b,
{
    assert(a * a <= b * b) by (nonlinear_arith)
        requires
            a <= b,
    ;
}

/// The integer square root is unique.
pub proof fn lemma_floor_sqrt_unique(r1: nat, r2: nat, n: nat)
    requires
        is_floor_sqrt(r1, n),
        is_floor_sqrt(r2, n),
    ensures
        r1 == r2,
{
    if r1 < r2 {
        lemma_square_monotone(r1 + 1, r2);
    } else if r2 < r1 {
        lemma_square_monotone(r2 + 1, r1);
    }
}

/// The integer square root of `n`: the largest `r` with `r * r <= n`.
pub fn isqrt(n: u128) -> (r: u64)
    ensures
        is_floor_sqrt(r as nat, n as nat),
{
    let mut r: u128 = 0;
    let mut step: u128 = 0x1_0000_0000_0000_0000;
    let ghost mut k: nat = 64;
    proof {
        lemma2_to64();
        assert(n < 0x1_0000_0000_0000_0000 * 0x1_0000_0000_0000_0000) by (nonlinear_arith)
            requires
                n <= 0xffff_ffff_ffff_ffff_ffff_ffff_ffff_ffff,
        ;
    }
    while step > 1
        invariant
            step == pow2(k),
            step >= 1,
            r + step <= 0x1_0000_0000_0000_0000,
            r * r <= n,
            n < (r + step) * (r + step),
        decreases step,
    {
        proof {
            if k == 0 {
                lemma2_to64();
            }
            lemma_pow2_unfold(k);
            lemma_pow2_pos((k - 1) as nat);
        }
        step = step / 2;
        proof {
            k = (k - 1) as nat;
        }
        let cand: u128 = r + step;
        assert(cand * cand <= 0xffff_ffff_ffff_ffff * 0xffff_ffff_ffff_ffff) by (nonlinear_arith)
            requires
                cand <= 0xffff_ffff_ffff_ffff,
        ;
        if cand * cand <= n {
            r = cand;
        }
    }
    r as u64
}

} // verus!
