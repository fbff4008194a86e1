//! Exact integer square roots, the arithmetic base of the quadrature
//! operations on noise scales.

use vstd::prelude::*;

verus! {

/// Floor of the square root of `v`; zero for `v <= 0`. Defined by counting
/// up, so that every contract built on it is a function of its argument.
pub open spec fn isqrt_spec(v: int) -> int
    decreases v,
{
    if v <= 0 {
        0
    } else {
        let r = isqrt_spec(v - 1);
        if (r + 1) * (r + 1) <= v {
            r + 1
        } else {
            r
        }
    }
}

/// `isqrt_spec(v)` is the unique `r >= 0` with `r * r <= v < (r + 1) * (r + 1)`.
pub proof fn lemma_isqrt_spec_bounds(v: int)
    requires
        v >= 0,
    ensures
        isqrt_spec(v) >= 0,
        isqrt_spec(v) * isqrt_spec(v) <= v,
        v < (isqrt_spec(v) + 1) * (isqrt_spec(v) + 1),
    decreases v,
{
    if v > 0 {
        lemma_isqrt_spec_bounds(v - 1);
        let r0 = isqrt_spec(v - 1);
        if (r0 + 1) * (r0 + 1) <= v {
            assert((r0 + 2) * (r0 + 2) > (r0 + 1) * (r0 + 1)) by (nonlinear_arith)
                requires r0 >= 0;
        }
    }
}

/// Any `r >= 0` bracketed by `r * r <= v < (r + 1) * (r + 1)` is the floor
/// square root of `v`.
pub proof fn lemma_isqrt_unique(v: int, r: int)
    requires
        v >= 0,
        r >= 0,
        r * r <= v,
        v < (r + 1) * (r + 1),
    ensures
        r == isqrt_spec(v),
{
    lemma_isqrt_spec_bounds(v);
    let s = isqrt_spec(v);
    if r < s {
        assert((r + 1) * (r + 1) <= s * s) by (nonlinear_arith)
            requires 0 <= r, r + 1 <= s;
    }
    if s < r {
        assert((s + 1) * (s + 1) <= r * r) by (nonlinear_arith)
            requires 0 <= s, s + 1 <= r;
    }
}

/// Floor square root of a 128-bit value, by bisection on the result.
pub fn isqrt128(v: u128) -> (r: u64)
    ensures
        r as int == isqrt_spec(v as int),
        r as int * r as int <= v as int,
        (v as int) < (r as int + 1) * (r as int + 1),
{
    let mut lo: u128 = 0;
    let mut hi: u128 = 0x10000000000000000;
    while lo + 1 < hi
        invariant
            lo < hi,
            hi <= 0x10000000000000000,
            lo as int * lo as int <= v as int,
            (v as int) < hi as int * hi as int,
        decreases hi - lo,
    {
        let mid: u128 = lo + (hi - lo) / 2;
        proof {
            assert((mid as int) * (mid as int) < 0x100000000000000000000000000000000int)
                by (nonlinear_arith)
                requires mid < 0x10000000000000000u128;
        }
        if mid * mid <= v {
            lo = mid;
        } else {
            hi = mid;
        }
    }
    proof {
        lemma_isqrt_unique(v as int, lo as int);
    }
    lo as u64
}

} // verus!
