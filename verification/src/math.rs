//! Exact integer helpers: floor division for world-to-grid transforms and
//! integer square roots for measuring displacement lengths.

use vstd::prelude::*;
use vstd::arithmetic::div_mod::lemma_fundamental_div_mod;

verus! {

/// Floor division of `a` by a positive `b`; agrees with the mathematical
/// (Euclidean) quotient `a / b` used throughout the specifications.
pub fn floor_div(a: i64, b: i64) -> (q: i64)
    requires
        0 < b,
    ensures
        q == a as int / b as int,
{
    proof {
        lemma_fundamental_div_mod(a as int, b as int);
        let q: int = a as int / b as int;
        let r: int = a as int % b as int;
        if a >= 0 {
            assert(b * q >= 0) by (nonlinear_arith)
                requires a == b * q + r, a >= 0, 0 <= r < b;
            assert(q >= 0) by (nonlinear_arith)
                requires b * q >= 0, b > 0;
            assert(q <= a) by (nonlinear_arith)
                requires a == b * q + r, 0 <= r < b, q >= 0, b >= 1;
        } else {
            assert(b * q < 0) by (nonlinear_arith)
                requires a == b * q + r, a < 0, 0 <= r < b;
            assert(q < 0) by (nonlinear_arith)
                requires b * q < 0, b > 0;
            assert(q >= a) by (nonlinear_arith)
                requires a == b * q + r, 0 <= r < b, q < 0, b >= 1;
        }
    }
    match a.checked_div_euclid(b) {
        Some(q) => q,
        None => 0,
    }
}

/// For a positive divisor, a dividend of bounded magnitude gives a quotient
/// of bounded magnitude.
pub proof fn lemma_div_bounded_dividend(a: int, b: int, m: int)
    requires
        1 <= b,
        0 <= m,
        -m <= a <= m,
    ensures
        -m <= a / b <= m,
{
    lemma_fundamental_div_mod(a, b);
    let q: int = a / b;
    let r: int = a % b;
    if a >= 0 {
        assert(b * q >= 0) by (nonlinear_arith)
            requires a == b * q + r, a >= 0, 0 <= r < b;
        assert(q >= 0) by (nonlinear_arith)
            requires b * q >= 0, b > 0;
        assert(q <= a) by (nonlinear_arith)
            requires a == b * q + r, 0 <= r < b, q >= 0, b >= 1;
    } else {
        assert(b * q < 0) by (nonlinear_arith)
            requires a == b * q + r, a < 0, 0 <= r < b;
        assert(q < 0) by (nonlinear_arith)
            requires b * q < 0, b > 0;
        assert(q >= a) by (nonlinear_arith)
            requires a == b * q + r, 0 <= r < b, q < 0, b >= 1;
    }
}

/// The integer square root: the greatest `r` with `r * r <= n`.
pub fn isqrt(n: u64) -> (r: u64)
    ensures
        r * r <= n,
        n < (r + 1) * (r + 1),
        r <= 0xffff_ffff,
{
    let mut lo: u64 = 0;
    let mut hi: u64 = 0xffff_ffff;
    // Binary search over [lo, hi] for the last root whose square fits.
    while lo < hi
        invariant
            lo <= hi <= 0xffff_ffff,
            lo * lo <= n,
            n < (hi + 1) * (hi + 1),
        decreases hi - lo,
    {
        let mid: u64 = lo + (hi - lo + 1) / 2;
        assert(lo < mid <= hi);
        assert(mid * mid <= 0xffff_ffff * 0xffff_ffff) by (nonlinear_arith)
            requires 0 <= mid <= 0xffff_ffff;
        if mid * mid <= n {
            lo = mid;
        } else {
            hi = mid - 1;
        }
    }
    lo
}

/// The least `c` with `c * c >= n` (the square root rounded upward).
pub fn ceil_sqrt(n: u64) -> (c: u64)
    ensures
        c * c >= n,
        c > 0 ==> (c - 1) * (c - 1) < n,
        c <= 0x1_0000_0000,
{
    let r = isqrt(n);
    if r * r == n {
        proof {
            if r > 0 {
                assert((r - 1) * (r - 1) < r * r) by (nonlinear_arith)
                    requires r > 0;
            }
        }
        r
    } else {
        r + 1
    }
}

} // verus!
