//! Fixed-point arithmetic for the physics kernel.
//!
//! A quantity of one world unit (one pixel, one second, ...) is stored as the
//! integer `SCALE`; all products and quotients truncate toward zero.

use vstd::prelude::*;

verus! {

/// Fixed-point units per world unit.
pub const SCALE: i64 = 65536;

/// Truncating (round-toward-zero) division, for a positive divisor.
pub open spec fn tdiv(a: int, d: int) -> int {
    if a >= 0 {
        a / d
    } else {
        -((-a) / d)
    }
}

/// Fixed-point product: `a * b / SCALE`, truncated toward zero.
pub open spec fn fmul(a: int, b: int) -> int {
    tdiv(a * b, SCALE as int)
}

/// `r` is the floor of the square root of `n`.
pub open spec fn is_isqrt(n: int, r: int) -> bool {
    0 <= r && r * r <= n && n < (r + 1) * (r + 1)
}

/// The floor of the square root of `n` (meaningful for `n >= 0`).
pub open spec fn isqrt_spec(n: int) -> int {
    choose|r: int| is_isqrt(n, r)
}

/// The floor square root is unique.
pub proof fn lemma_isqrt_unique(n: int, r1: int, r2: int)
    by (nonlinear_arith)
    requires
        is_isqrt(n, r1),
        is_isqrt(n, r2),
    ensures
        r1 == r2,
{
}

/// Every non-negative integer has a floor square root, and `isqrt_spec`
/// denotes it.
pub proof fn lemma_isqrt_exists(n: int)
    requires
        n >= 0,
    ensures
        is_isqrt(n, isqrt_spec(n)),
    decreases n,
{
    if n == 0 {
        assert(is_isqrt(0, 0));
    } else {
        lemma_isqrt_exists(n - 1);
        let r = isqrt_spec(n - 1);
        if (r + 1) * (r + 1) <= n {
            assert(is_isqrt(n, r + 1)) by (nonlinear_arith)
                requires
                    is_isqrt(n - 1, r),
                    (r + 1) * (r + 1) <= n;
        } else {
            assert(is_isqrt(n, r));
        }
    }
    assert(exists|r: int| is_isqrt(n, r));
}

/// Bounds of a product from bounds of its factors.
pub proof fn lemma_mul_bound(a: int, ba: int, t: int, bt: int)
    by (nonlinear_arith)
    requires
        -ba <= a <= ba,
        -bt <= t <= bt,
        ba >= 0,
        bt >= 0,
    ensures
        -(ba * bt) <= a * t <= ba * bt,
{
}

/// A truncated quotient is bounded by the quotient of bounds.
pub proof fn lemma_tdiv_bound(p: int, b: int, d: int)
    by (nonlinear_arith)
    requires
        d >= 1,
        b >= 0,
        -(b * d) <= p <= b * d,
    ensures
        -b <= tdiv(p, d) <= b,
{
}

/// Truncating division keeps the sign of the dividend and shrinks it.
pub proof fn lemma_tdiv_le_self(p: int, d: int)
    by (nonlinear_arith)
    requires
        d >= 1,
    ensures
        p >= 0 ==> 0 <= tdiv(p, d) <= p,
        p <= 0 ==> p <= tdiv(p, d) <= 0,
{
}

/// A quotient is at least any `q` whose product with the divisor is below the dividend.
pub proof fn lemma_tdiv_ge(p: int, q: int, d: int)
    by (nonlinear_arith)
    requires
        d >= 1,
        q >= 0,
        p >= q * d,
    ensures
        tdiv(p, d) >= q,
{
}

/// Truncating division is monotone in the dividend.
pub proof fn lemma_tdiv_monotone(p1: int, p2: int, d: int)
    by (nonlinear_arith)
    requires
        d >= 1,
        p1 <= p2,
    ensures
        tdiv(p1, d) <= tdiv(p2, d),
{
}

/// Exact cancellation: `(b * d) / d == b`.
pub proof fn lemma_tdiv_cancel(b: int, d: int)
    by (nonlinear_arith)
    requires
        d >= 1,
        b >= 0,
    ensures
        tdiv(b * d, d) == b,
{
}

/// The floor square root is monotone.
pub proof fn lemma_isqrt_monotone(n1: int, n2: int)
    requires
        0 <= n1 <= n2,
    ensures
        isqrt_spec(n1) <= isqrt_spec(n2),
{
    lemma_isqrt_exists(n1);
    lemma_isqrt_exists(n2);
    let r1 = isqrt_spec(n1);
    let r2 = isqrt_spec(n2);
    assert(r1 <= r2) by (nonlinear_arith)
        requires
            is_isqrt(n1, r1),
            is_isqrt(n2, r2),
            n1 <= n2;
}

/// Neither component of a vector exceeds the floor length of the vector.
pub proof fn lemma_component_le_isqrt(x: int, y: int, len: int)
    by (nonlinear_arith)
    requires
        is_isqrt(x * x + y * y, len),
    ensures
        -len <= x <= len,
        -len <= y <= len,
{
}

/// Truncating division of `a` by the positive divisor `d`.
pub fn div_pos(a: i64, d: i64) -> (r: i64)
    requires
        d > 0,
        a > i64::MIN,
    ensures
        r == tdiv(a as int, d as int),
{
    if a >= 0 {
        let q: u64 = (a as u64) / (d as u64);
        proof {
            assert(a as int / d as int <= a as int) by (nonlinear_arith)
                requires
                    a >= 0,
                    d >= 1;
        }
        q as i64
    } else {
        let m: u64 = ((-a) as u64) / (d as u64);
        proof {
            assert((-(a as int)) / d as int <= -(a as int)) by (nonlinear_arith)
                requires
                    a < 0,
                    d >= 1;
        }
        -(m as i64)
    }
}

/// Fixed-point multiplication: `a * b / SCALE`, truncated toward zero.
pub fn mul_fp(a: i64, b: i64) -> (r: i64)
    requires
        i64::MIN < a * b <= i64::MAX,
    ensures
        r == fmul(a as int, b as int),
{
    let p: i64 = a * b;
    div_pos(p, SCALE)
}

/// Floor square root of a 64-bit unsigned integer, by binary search.
pub fn isqrt(n: u64) -> (r: u64)
    ensures
        r == isqrt_spec(n as int),
        is_isqrt(n as int, r as int),
{
    let mut lo: u64 = 0;
    let mut hi: u64 = 0xFFFF_FFFF;
    proof {
        assert((hi as int + 1) * (hi as int + 1) > n as int) by (nonlinear_arith)
            requires
                hi == 0xFFFF_FFFFu64,
                n <= u64::MAX;
    }
    while lo < hi
        invariant
            lo <= hi <= 0xFFFF_FFFF,
            (lo as int) * (lo as int) <= n as int,
            (n as int) < (hi as int + 1) * (hi as int + 1),
        decreases hi - lo,
    {
        let mid: u64 = lo + (hi - lo + 1) / 2;
        proof {
            assert(mid as int * mid as int <= 0xFFFF_FFFFu64 as int * 0xFFFF_FFFFu64 as int)
                by (nonlinear_arith)
                requires
                    0 <= mid <= 0xFFFF_FFFFu64;
        }
        if mid * mid <= n {
            lo = mid;
        } else {
            hi = mid - 1;
        }
    }
    proof {
        assert(is_isqrt(n as int, lo as int));
        assert(exists|r: int| is_isqrt(n as int, r));
        lemma_isqrt_unique(n as int, isqrt_spec(n as int), lo as int);
    }
    lo
}

} // verus!
