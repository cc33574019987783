//! Saturating and truncating integer arithmetic used by the simulation core.
//!
//! All quantities in the engine are fixed-point integers, so the force and
//! integration formulas are stated over exact integer operations: clamping
//! into the `i64` range, division truncated toward zero, and the floor of the
//! integer square root.

use vstd::prelude::*;

verus! {

/// The mathematical value `v` clamped into the `i64` range.
pub open spec fn clamp_i64(v: int) -> int {
    if v < i64::MIN as int {
        i64::MIN as int
    } else if v > i64::MAX as int {
        i64::MAX as int
    } else {
        v
    }
}

/// Saturating addition on `i64`.
pub fn sat_add_i64(a: i64, b: i64) -> (r: i64)
    ensures
        r as int == clamp_i64(a + b),
{
    if a >= 0 && b > i64::MAX - a {
        i64::MAX
    } else if a < 0 && b < i64::MIN - a {
        i64::MIN
    } else {
        a + b
    }
}

/// Clamp an `i128` into the `i64` range.
pub fn clamp_i128_to_i64(v: i128) -> (r: i64)
    ensures
        r as int == clamp_i64(v as int),
{
    if v < i64::MIN as i128 {
        i64::MIN
    } else if v > i64::MAX as i128 {
        i64::MAX
    } else {
        v as i64
    }
}

/// Division truncated toward zero, for a positive divisor. This is the
/// rounding that the engine's centroid and force formulas use.
pub open spec fn div_trunc(a: int, b: int) -> int
    recommends
        b > 0,
{
    if a >= 0 {
        a / b
    } else {
        -((-a) / b)
    }
}

/// Truncated division of `i128` values with a positive divisor.
pub fn div_trunc_i128(a: i128, b: i128) -> (r: i128)
    requires
        a > i128::MIN,
        b > 0,
    ensures
        r as int == div_trunc(a as int, b as int),
{
    if a >= 0 {
        let q: u128 = (a as u128) / (b as u128);
        q as i128
    } else {
        let m: i128 = -a;
        let q: u128 = (m as u128) / (b as u128);
        assert(q <= m as u128) by {
            assert(m as u128 / (b as u128) <= m as u128) by (nonlinear_arith)
                requires
                    b as u128 >= 1,
            ;
        }
        -(q as i128)
    }
}

/// Floor of the square root of `n` (0 for negative arguments).
pub open spec fn sqrt_floor(n: int) -> int
    decreases n,
{
    if n <= 0 {
        0
    } else {
        let r = sqrt_floor(n - 1);
        if (r + 1) * (r + 1) <= n {
            r + 1
        } else {
            r
        }
    }
}

/// `sqrt_floor(n)` really is the floor of the square root.
pub proof fn lemma_sqrt_floor(n: int)
    ensures
        sqrt_floor(n) >= 0,
        sqrt_floor(n) * sqrt_floor(n) <= if n >= 0 { n } else { 0 },
        n < (sqrt_floor(n) + 1) * (sqrt_floor(n) + 1),
    decreases n,
{
    if n <= 0 {
    } else {
        lemma_sqrt_floor(n - 1);
        let r = sqrt_floor(n - 1);
        if (r + 1) * (r + 1) <= n {
            assert(n < (r + 2) * (r + 2)) by (nonlinear_arith)
                requires
                    r >= 0,
                    n - 1 < (r + 1) * (r + 1),
            ;
        }
    }
}

/// Any `r` with `r * r <= n < (r + 1) * (r + 1)` equals `sqrt_floor(n)`.
pub proof fn lemma_sqrt_floor_unique(n: int, r: int)
    requires
        r >= 0,
        r * r <= n,
        n < (r + 1) * (r + 1),
    ensures
        r == sqrt_floor(n),
{
    lemma_sqrt_floor(n);
    let s = sqrt_floor(n);
    if r < s {
        assert((r + 1) * (r + 1) <= s * s) by (nonlinear_arith)
            requires
                0 <= r,
                r + 1 <= s,
        ;
    }
    if s < r {
        assert((s + 1) * (s + 1) <= r * r) by (nonlinear_arith)
            requires
                0 <= s,
                s + 1 <= r,
        ;
    }
}

/// Floor of the square root of a `u128`, by binary search.
pub fn isqrt_u128(n: u128) -> (r: u128)
    ensures
        r as int == sqrt_floor(n as int),
{
    if n == 0 {
        proof {
            lemma_sqrt_floor_unique(0, 0);
        }
        return 0;
    }
    let mut lo: u128 = 0;
    let mut hi: u128 = 1u128 << 64;
    proof {
        assert((1u128 << 64) == 0x10000000000000000) by (bit_vector);
        assert((n as int) < (hi as int) * (hi as int)) by (nonlinear_arith)
            requires
                hi as int == 0x10000000000000000,
                (n as int) < 0x100000000000000000000000000000000,
        ;
    }
    while lo + 1 < hi
        invariant
            0 <= lo < hi,
            hi <= 0x10000000000000000,
            (lo as int) * (lo as int) <= n as int,
            (n as int) < (hi as int) * (hi as int),
        decreases hi - lo,
    {
        let mid: u128 = lo + (hi - lo) / 2;
        assert(mid * mid < 0x100000000000000000000000000000000) by (nonlinear_arith)
            requires
                mid < 0x10000000000000000,
        ;
        if mid * mid <= n {
            lo = mid;
        } else {
            hi = mid;
        }
    }
    proof {
        assert(hi == lo + 1);
        lemma_sqrt_floor_unique(n as int, lo as int);
    }
    lo
}

} // verus!
