//! Scalar arithmetic on thousandths, saturating at the ends of `i32`.

use vstd::prelude::*;

verus! {

/// One whole unit, in thousandths.
pub const UNIT: i32 = 1000;

/// `v` moved to the nearest value that an `i32` can hold.
pub open spec fn saturate(v: int) -> int {
    if v < i32::MIN as int {
        i32::MIN as int
    } else if v > i32::MAX as int {
        i32::MAX as int
    } else {
        v
    }
}

/// The size of `v`.
pub open spec fn magnitude(v: int) -> int {
    if v < 0 {
        -v
    } else {
        v
    }
}

/// `n / d` rounded toward zero, for a positive divisor.
pub open spec fn quotient(n: int, d: int) -> int
    recommends
        d > 0,
{
    if n >= 0 {
        n / d
    } else {
        -((-n) / d)
    }
}

/// The fixed-point product of two scalars.
pub open spec fn product(a: int, b: int) -> int {
    saturate(quotient(a * b, UNIT as int))
}

/// The fixed-point quotient of two scalars, for a divisor other than
/// zero: the exact quotient rounded toward zero, then saturated.
pub open spec fn ratio(a: int, b: int) -> int
    recommends
        b != 0,
{
    if b > 0 {
        saturate(quotient(a * UNIT as int, b))
    } else {
        saturate(quotient(-(a * UNIT as int), -b))
    }
}

/// `r` is the square root of `n` rounded down.
pub open spec fn is_floor_sqrt(n: int, r: int) -> bool {
    0 <= r && r * r <= n < (r + 1) * (r + 1)
}

/// The square root of `n` rounded down.
pub open spec fn floor_sqrt(n: int) -> int
    recommends
        n >= 0,
{
    choose|r: int| is_floor_sqrt(n, r)
}

/// Two numbers that both are the rounded-down root of `n` are the same number.
pub proof fn lemma_floor_sqrt_unique(n: int, a: int, b: int)
    requires
        is_floor_sqrt(n, a),
        is_floor_sqrt(n, b),
    ensures
        a == b,
{
    if a < b {
        assert((a + 1) * (a + 1) <= b * b) by (nonlinear_arith)
            requires
                0 <= a,
                a + 1 <= b,
        ;
    } else if b < a {
        assert((b + 1) * (b + 1) <= a * a) by (nonlinear_arith)
            requires
                0 <= b,
                b + 1 <= a,
        ;
    }
}

/// Every number that is not negative has a square root rounded down.
pub proof fn lemma_floor_sqrt_exists(n: int)
    requires
        n >= 0,
    ensures
        is_floor_sqrt(n, floor_sqrt(n)),
    decreases n,
{
    if n == 0 {
        assert(is_floor_sqrt(0, 0));
    } else {
        lemma_floor_sqrt_exists(n - 1);
        let r: int = floor_sqrt(n - 1);
        if (r + 1) * (r + 1) <= n {
            assert(n < (r + 2) * (r + 2)) by (nonlinear_arith)
                requires
                    n - 1 < (r + 1) * (r + 1),
                    0 <= r,
            ;
            assert(is_floor_sqrt(n, r + 1));
        } else {
            assert(is_floor_sqrt(n, r));
        }
    }
}

/// The rounded-down root of a number below `(bound + 1)` squared is at
/// most `bound`.
pub proof fn lemma_floor_sqrt_below(n: int, bound: int)
    requires
        0 <= n < (bound + 1) * (bound + 1),
        0 <= bound,
    ensures
        0 <= floor_sqrt(n) <= bound,
{
    lemma_floor_sqrt_exists(n);
    let r: int = floor_sqrt(n);
    if r > bound {
        assert((bound + 1) * (bound + 1) <= r * r) by (nonlinear_arith)
            requires
                0 <= bound,
                bound + 1 <= r,
        ;
    }
}

/// The quotient lies between zero and the dividend, and times the divisor
/// it misses the dividend by less than the divisor, on the side of zero.
pub proof fn lemma_quotient_bounds(n: int, d: int)
    requires
        d > 0,
    ensures
        n >= 0 ==> 0 <= quotient(n, d) <= n && n - d < d * quotient(n, d) <= n,
        n <= 0 ==> n <= quotient(n, d) <= 0 && n <= d * quotient(n, d) < n + d,
{
    let m: int = if n >= 0 {
        n
    } else {
        -n
    };
    vstd::arithmetic::div_mod::lemma_fundamental_div_mod(m, d);
    vstd::arithmetic::div_mod::lemma_mod_bound(m, d);
    vstd::arithmetic::div_mod::lemma_div_pos_is_pos(m, d);
    assert(d * (m / d) >= m / d) by (nonlinear_arith)
        requires
            d >= 1,
            m / d >= 0,
    ;
    assert(d * -(m / d) == -(d * (m / d))) by (nonlinear_arith);
}

/// A multiple of the divisor divides without remainder.
pub proof fn lemma_quotient_of_multiple(k: int, d: int)
    requires
        d > 0,
    ensures
        quotient(k * d, d) == k,
{
    if k >= 0 {
        assert(k * d >= 0) by (nonlinear_arith)
            requires
                k >= 0,
                d > 0,
        ;
        vstd::arithmetic::div_mod::lemma_div_by_multiple(k, d);
    } else {
        assert(k * d < 0) by (nonlinear_arith)
            requires
                k < 0,
                d > 0,
        ;
        assert(-(k * d) == (-k) * d) by (nonlinear_arith);
        vstd::arithmetic::div_mod::lemma_div_by_multiple(-k, d);
    }
}

/// `v` moved to the nearest value that an `i32` can hold.
pub fn saturate_i64(v: i64) -> (r: i32)
    ensures
        r == saturate(v as int),
{
    if v < i32::MIN as i64 {
        i32::MIN
    } else if v > i32::MAX as i64 {
        i32::MAX
    } else {
        v as i32
    }
}

/// `v` moved to the nearest value that an `i32` can hold.
pub fn saturate_i128(v: i128) -> (r: i32)
    ensures
        r == saturate(v as int),
{
    if v < i32::MIN as i128 {
        i32::MIN
    } else if v > i32::MAX as i128 {
        i32::MAX
    } else {
        v as i32
    }
}

/// `a + b`, saturating.
pub fn sat_add(a: i32, b: i32) -> (r: i32)
    ensures
        r == saturate(a + b),
{
    saturate_i64(a as i64 + b as i64)
}

/// `a - b`, saturating.
pub fn sat_sub(a: i32, b: i32) -> (r: i32)
    ensures
        r == saturate(a - b),
{
    saturate_i64(a as i64 - b as i64)
}

/// `-a`, saturating.
pub fn sat_neg(a: i32) -> (r: i32)
    ensures
        r == saturate(-a),
{
    saturate_i64(-(a as i64))
}

/// The size of `a`, saturating.
pub fn sat_abs(a: i32) -> (r: i32)
    ensures
        r == saturate(magnitude(a as int)),
        r >= 0,
{
    if a < 0 {
        sat_neg(a)
    } else {
        a
    }
}

/// `n / d` rounded toward zero.
pub fn div_toward_zero(n: i128, d: i128) -> (q: i128)
    requires
        d > 0,
        n > i128::MIN,
    ensures
        q == quotient(n as int, d as int),
{
    if n >= 0 {
        n / d
    } else {
        let m: i128 = -n;
        let p: i128 = m / d;
        proof {
            lemma_quotient_bounds(m as int, d as int);
        }
        -p
    }
}

/// The fixed-point product `a * b / 1000`, rounded toward zero and saturating.
pub fn mul_fixed(a: i32, b: i32) -> (r: i32)
    ensures
        r == product(a as int, b as int),
{
    assert(-0x4000_0000_0000_0000 <= a * b <= 0x4000_0000_0000_0000) by (nonlinear_arith)
        requires
            -0x8000_0000 <= a <= 0x7fff_ffff,
            -0x8000_0000 <= b <= 0x7fff_ffff,
    ;
    let wide: i64 = a as i64 * b as i64;
    let q: i128 = div_toward_zero(wide as i128, UNIT as i128);
    saturate_i128(q)
}

/// The fixed-point quotient `a * 1000 / b`, rounded toward zero and saturating.
pub fn div_fixed(a: i32, b: i32) -> (r: i32)
    requires
        b != 0,
    ensures
        r == ratio(a as int, b as int),
{
    assert(UNIT == 1000);
    let wide: i64 = a as i64 * 1000;
    let q: i128 = if b > 0 {
        div_toward_zero(wide as i128, b as i128)
    } else {
        div_toward_zero(-(wide as i128), -(b as i128))
    };
    saturate_i128(q)
}

/// The square root of `n`, rounded down.
pub fn isqrt(n: u64) -> (r: u32)
    ensures
        is_floor_sqrt(n as int, r as int),
        r == floor_sqrt(n as int),
{
    let mut lo: u64 = 0;
    let mut hi: u64 = 0x1_0000_0000;
    while hi - lo > 1
        invariant
            lo < hi <= 0x1_0000_0000,
            lo * lo <= n < hi * hi,
        decreases hi - lo,
    {
        let mid: u64 = lo + (hi - lo) / 2;
        assert(mid * mid <= 0xffff_ffff * 0xffff_ffff) by (nonlinear_arith)
            requires
                0 <= mid <= 0xffff_ffff,
        ;
        if mid * mid <= n {
            lo = mid;
        } else {
            hi = mid;
        }
    }
    proof {
        assert(is_floor_sqrt(n as int, lo as int));
        lemma_floor_sqrt_unique(n as int, lo as int, floor_sqrt(n as int));
    }
    lo as u32
}

} // verus!
