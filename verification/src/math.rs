//! Fixed-point arithmetic helpers: integer square root and scaled
//! multiply-divide, with the division-bound lemmas the solver proofs use.

use vstd::prelude::*;
use vstd::arithmetic::div_mod::lemma_div_is_ordered;
use vstd::arithmetic::div_mod::lemma_div_multiples_vanish;
use vstd::arithmetic::div_mod::lemma_fundamental_div_mod;
use vstd::arithmetic::div_mod::lemma_mod_bound;

verus! {

/// Magnitude of an integer.
pub open spec fn abs_i(v: int) -> int {
    if v < 0 { -v } else { v }
}

/// Floor of the square root: the greatest `r >= 0` with `r * r <= n`.
pub open spec fn sqrt_floor(n: int) -> int
    recommends
        n >= 0,
    decreases n,
{
    if n <= 0 {
        0
    } else {
        let r = sqrt_floor(n - 1);
        if (r + 1) * (r + 1) <= n {
            r + 1
        } else {
            r
        }
    }
}

/// `sqrt_floor(n)` is the floor of the square root of `n`.
pub proof fn lemma_sqrt_floor(n: int)
    requires
        n >= 0,
    ensures
        sqrt_floor(n) >= 0,
        sqrt_floor(n) * sqrt_floor(n) <= n,
        n < (sqrt_floor(n) + 1) * (sqrt_floor(n) + 1),
    decreases n,
{
    if n > 0 {
        lemma_sqrt_floor(n - 1);
        let r = sqrt_floor(n - 1);
        if (r + 1) * (r + 1) <= n {
            assert((r + 1 + 1) * (r + 1 + 1) > (r + 1) * (r + 1)) by (nonlinear_arith)
                requires
                    r >= 0,
            ;
        }
    }
}

/// Any `r` bracketing `n` between consecutive squares is `sqrt_floor(n)`.
pub proof fn lemma_sqrt_unique(n: int, r: int)
    requires
        n >= 0,
        r >= 0,
        r * r <= n,
        n < (r + 1) * (r + 1),
    ensures
        r == sqrt_floor(n),
{
    lemma_sqrt_floor(n);
    let s = sqrt_floor(n);
    if r < s {
        assert((r + 1) * (r + 1) <= s * s) by (nonlinear_arith)
            requires
                0 <= r,
                r + 1 <= s,
        ;
    }
    if s < r {
        assert((s + 1) * (s + 1) <= r * r) by (nonlinear_arith)
            requires
                0 <= s,
                s + 1 <= r,
        ;
    }
}

/// A quotient of nonnegative values is bounded by `k` when the numerator is
/// at most `k` times the divisor.
pub proof fn lemma_div_bound(num: int, den: int, k: int)
    requires
        den > 0,
        num >= 0,
        k >= 0,
        num <= k * den,
    ensures
        0 <= num / den <= k,
{
    lemma_div_is_ordered(num, k * den, den);
    lemma_div_multiples_vanish(k, den);
    assert(num / den >= 0) by (nonlinear_arith)
        requires
            num >= 0,
            den > 0,
    ;
}

/// A quotient of nonnegative values is at least `k` when the numerator is
/// at least `k` times the divisor.
pub proof fn lemma_div_lower(num: int, den: int, k: int)
    requires
        den > 0,
        k >= 0,
        num >= k * den,
    ensures
        num / den >= k,
{
    lemma_div_is_ordered(k * den, num, den);
    lemma_div_multiples_vanish(k, den);
}

/// Multiplying a truncated quotient back by the divisor stays at or below
/// the numerator, and one more divisor strictly passes it.
pub proof fn lemma_div_mul_le(num: int, den: int)
    requires
        den > 0,
        num >= 0,
    ensures
        0 <= (num / den) * den <= num,
        num < ((num / den) + 1) * den,
{
    lemma_fundamental_div_mod(num, den);
    lemma_mod_bound(num, den);
    assert(num < ((num / den) + 1) * den) by (nonlinear_arith)
        requires
            num == den * (num / den) + (num % den),
            0 <= num % den < den,
    ;
    assert(num / den >= 0) by (nonlinear_arith)
        requires
            num >= 0,
            den > 0,
    ;
    assert((num / den) * den >= 0) by (nonlinear_arith)
        requires
            num / den >= 0,
            den > 0,
    ;
}

/// Floor of the square root, computed by binary search.
pub fn isqrt(n: u128) -> (r: u64)
    requires
        n < 0x1000000000000000000000,
    ensures
        r * r <= n < (r + 1) * (r + 1),
        r == sqrt_floor(n as int),
{
    let mut lo: u128 = 0;
    let mut hi: u128 = 0x200000000000;
    proof {
        assert(0x200000000000int * 0x200000000000int == 0x40000000000000000000000int)
            by (nonlinear_arith);
    }
    while lo + 1 < hi
        invariant
            lo < hi,
            hi <= 0x200000000000,
            lo * lo <= n,
            n < hi * hi,
        decreases hi - lo,
    {
        let mid = lo + (hi - lo) / 2;
        assert(lo < mid < hi);
        assert(mid * mid < 0x40000000000000000000000) by (nonlinear_arith)
            requires
                0 <= mid < 0x200000000000,
        ;
        if mid * mid <= n {
            lo = mid;
        } else {
            hi = mid;
        }
    }
    proof {
        lemma_sqrt_unique(n as int, lo as int);
    }
    lo as u64
}

/// Truncated `(a * b * c) / (d * e)`, computed without overflow.
pub fn mul3div2(a: u64, b: u64, c: u64, d: u64, e: u64) -> (q: u64)
    requires
        d > 0,
        e > 0,
        a * b * c <= u128::MAX,
        (a * b * c) / (d * e) <= u64::MAX,
    ensures
        q == (a * b * c) / (d * e),
{
    proof {
        assert(a * b <= u128::MAX) by (nonlinear_arith)
            requires
                a <= u64::MAX,
                b <= u64::MAX,
        ;
        assert(d * e > 0) by (nonlinear_arith)
            requires
                d > 0,
                e > 0,
        ;
        assert(d * e <= u128::MAX) by (nonlinear_arith)
            requires
                d <= u64::MAX,
                e <= u64::MAX,
        ;
    }
    let num: u128 = (a as u128) * (b as u128) * (c as u128);
    let den: u128 = (d as u128) * (e as u128);
    (num / den) as u64
}

/// Magnitude of an `i64`, as a `u64`.
pub fn abs64(v: i64) -> (r: u64)
    requires
        v > i64::MIN,
    ensures
        r == abs_i(v as int),
{
    if v < 0 {
        (-v) as u64
    } else {
        v as u64
    }
}

} // verus!
