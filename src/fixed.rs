//! Fixed-point scalars: a value `x` stands for the real number `x / ONE`.
use vstd::prelude::*;

verus! {

/// The raw value of the real number 1.
pub const ONE: i64 = 65536;

/// Largest magnitude of a stored raw value (4096 units).
pub const LIMIT: i64 = 268435456;

/// Smallest distance along a ray that counts as a hit (about 0.001 units);
/// it keeps a ray that leaves a surface from hitting that surface again.
pub const EPSILON: i64 = 66;

pub open spec fn in_limit(x: int) -> bool {
    -LIMIT <= x <= LIMIT
}

/// Saturates a value to the stored range.
pub open spec fn clamp(x: int) -> int {
    if x > LIMIT {
        LIMIT as int
    } else if x < -LIMIT {
        -LIMIT
    } else {
        x
    }
}

/// Division that truncates toward zero, by a positive divisor.
pub open spec fn tdiv(a: int, d: int) -> int {
    if a >= 0 {
        a / d
    } else {
        -((-a) / d)
    }
}

/// Fixed-point product.
pub open spec fn fmul(a: int, b: int) -> int {
    clamp(tdiv(a * b, ONE as int))
}

/// Fixed-point quotient by a positive divisor.
pub open spec fn fdiv(a: int, b: int) -> int {
    clamp(tdiv(a * ONE, b))
}

pub open spec fn max0(a: int) -> int {
    if a < 0 {
        0
    } else {
        a
    }
}

/// The integer square root: the largest `r` with `r * r <= n`.
pub open spec fn sqrt_floor(n: int) -> int {
    choose|r: int| #[trigger] is_sqrt_floor(n, r)
}

pub open spec fn is_sqrt_floor(n: int, r: int) -> bool {
    0 <= r && r * r <= n && n < (r + 1) * (r + 1)
}

pub fn clamp_wide(x: i128) -> (r: i64)
    ensures
        r == clamp(x as int),
        in_limit(r as int),
{
    if x > LIMIT as i128 {
        LIMIT
    } else if x < -(LIMIT as i128) {
        -LIMIT
    } else {
        x as i64
    }
}

/// Fixed-point product of two stored values.
pub fn mul_fx(a: i64, b: i64) -> (r: i64)
    requires
        in_limit(a as int),
        in_limit(b as int),
    ensures
        r == fmul(a as int, b as int),
        in_limit(r as int),
{
    assert(-LIMIT * LIMIT <= (a as int) * (b as int) <= LIMIT * LIMIT) by (nonlinear_arith)
        requires
            in_limit(a as int),
            in_limit(b as int),
    ;
    let p: i128 = (a as i128) * (b as i128);
    clamp_wide(p / (ONE as i128))
}

/// Fixed-point quotient of a stored value by a positive stored value.
pub fn div_fx(a: i64, b: i64) -> (r: i64)
    requires
        in_limit(a as int),
        in_limit(b as int),
        b > 0,
    ensures
        r == fdiv(a as int, b as int),
        in_limit(r as int),
{
    let p: i128 = (a as i128) * (ONE as i128);
    clamp_wide(p / (b as i128))
}

pub proof fn lemma_square_monotone(a: int, b: int)
    requires
        0 <= a <= b,
    ensures
        a * a <= b * b,
{
    assert(a * a <= b * b) by (nonlinear_arith)
        requires
            0 <= a <= b,
    ;
}

/// The integer square root is the only value with its defining bounds.
pub proof fn lemma_sqrt_floor_unique(n: int, r: int)
    requires
        0 <= r,
        r * r <= n,
        n < (r + 1) * (r + 1),
    ensures
        sqrt_floor(n) == r,
{
    assert(is_sqrt_floor(n, r));
    let s = sqrt_floor(n);
    assert(0 <= s && s * s <= n && n < (s + 1) * (s + 1));
    if s < r {
        lemma_square_monotone(s + 1, r);
    } else if r < s {
        lemma_square_monotone(r + 1, s);
    }
}

pub proof fn lemma_sqrt_of_square(r: int)
    requires
        0 <= r,
    ensures
        sqrt_floor(r * r) == r,
{
    assert(r * r < (r + 1) * (r + 1)) by (nonlinear_arith)
        requires
            0 <= r,
    ;
    lemma_sqrt_floor_unique(r * r, r);
}

/// Integer square root by bisection.
pub fn isqrt(n: u128) -> (r: u128)
    ensures
        r == sqrt_floor(n as int),
        r * r <= n,
        n < (r + 1) * (r + 1),
{
    let mut lo: u128 = 0;
    let mut hi: u128 = 18446744073709551616;
    assert(n < hi * hi);
    while hi - lo > 1
        invariant
            lo < hi <= 18446744073709551616,
            lo * lo <= n,
            n < hi * hi,
        decreases hi - lo,
    {
        let mid: u128 = lo + (hi - lo) / 2;
        assert(mid * mid <= 18446744073709551616 * 18446744073709551615) by (nonlinear_arith)
            requires
                mid < 18446744073709551616,
        ;
        if mid * mid <= n {
            lo = mid;
        } else {
            hi = mid;
        }
    }
    assert(hi == lo + 1);
    proof {
        lemma_sqrt_floor_unique(n as int, lo as int);
    }
    lo
}

/// Every natural number has an integer square root.
pub proof fn isqrt_exists(n: int) -> (r: int)
    requires
        n >= 0,
    ensures
        is_sqrt_floor(n, r),
    decreases n,
{
    if n == 0 {
        0
    } else {
        let p = isqrt_exists(n - 1);
        assert(0 <= p && p * p <= n - 1 && n - 1 < (p + 1) * (p + 1));
        if (p + 1) * (p + 1) <= n {
            assert((p + 1) * (p + 1) == n) by (nonlinear_arith)
                requires
                    (p + 1) * (p + 1) <= n,
                    n - 1 < (p + 1) * (p + 1),
            ;
            assert(n < (p + 2) * (p + 2)) by (nonlinear_arith)
                requires
                    (p + 1) * (p + 1) == n,
                    p >= 0,
            ;
            assert(is_sqrt_floor(n, p + 1));
            p + 1
        } else {
            assert(is_sqrt_floor(n, p));
            p
        }
    }
}

} // verus!
