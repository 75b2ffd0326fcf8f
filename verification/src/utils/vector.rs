//! Plane vectors on the fixed-point grid.

use crate::utils::fixed::{
    div_fixed, div_toward_zero, floor_sqrt, is_floor_sqrt, isqrt, lemma_floor_sqrt_below,
    mul_fixed, product, quotient, ratio, sat_add, sat_neg, sat_sub, saturate, saturate_i128,
    saturate_i64, UNIT,
};
use vstd::prelude::*;

verus! {

/// A point or a displacement; both components count thousandths.
#[derive(Clone, Copy, Debug, PartialEq, Eq, Structural)]
pub struct Vector2 {
    pub x: i32,
    pub y: i32,
}

/// The exact squared length of the vector `(x, y)`.
pub open spec fn norm2(x: int, y: int) -> int {
    x * x + y * y
}

/// The exact dot product of `(ax, ay)` and `(bx, by)`.
pub open spec fn dot2(ax: int, ay: int, bx: int, by: int) -> int {
    ax * bx + ay * by
}

/// A component is never longer than the whole vector, rounded down or not.
pub proof fn lemma_component_below_length(x: int, y: int, len: int)
    requires
        is_floor_sqrt(norm2(x, y), len),
    ensures
        -len <= x <= len,
        -len <= y <= len,
        len == 0 <==> (x == 0 && y == 0),
{
    assert(x * x < (len + 1) * (len + 1) && y * y < (len + 1) * (len + 1)) by (nonlinear_arith)
        requires
            x * x + y * y < (len + 1) * (len + 1),
    ;
    assert(-len <= x <= len) by (nonlinear_arith)
        requires
            x * x < (len + 1) * (len + 1),
            len >= 0,
    ;
    assert(-len <= y <= len) by (nonlinear_arith)
        requires
            y * y < (len + 1) * (len + 1),
            len >= 0,
    ;
    if len == 0 {
    } else {
        assert(len * len >= 1) by (nonlinear_arith)
            requires
                len >= 1,
        ;
        assert(x == 0 && y == 0 ==> x * x + y * y == 0) by (nonlinear_arith);
    }
}

/// The squared length of an `i32` vector fits in 63 bits.
proof fn lemma_norm2_bound(x: int, y: int)
    requires
        -0x8000_0000 <= x <= 0x7fff_ffff,
        -0x8000_0000 <= y <= 0x7fff_ffff,
    ensures
        0 <= x * x <= 0x4000_0000_0000_0000,
        0 <= y * y <= 0x4000_0000_0000_0000,
        0 <= norm2(x, y) <= 0x8000_0000_0000_0000,
{
    assert(0 <= x * x <= 0x4000_0000_0000_0000) by (nonlinear_arith)
        requires
            -0x8000_0000 <= x <= 0x7fff_ffff,
    ;
    assert(0 <= y * y <= 0x4000_0000_0000_0000) by (nonlinear_arith)
        requires
            -0x8000_0000 <= y <= 0x7fff_ffff,
    ;
}

impl Vector2 {
    /// The vector with the given components.
    pub open spec fn spec_new(x: i32, y: i32) -> Vector2 {
        Vector2 { x, y }
    }

    /// The vector with the given components.
    #[verifier::when_used_as_spec(spec_new)]
    pub fn new(x: i32, y: i32) -> (r: Vector2)
        ensures
            r == Vector2::spec_new(x, y),
    {
        Vector2 { x, y }
    }

    /// The vector of length zero.
    pub open spec fn spec_zero() -> Vector2 {
        Vector2 { x: 0, y: 0 }
    }

    /// The vector of length zero.
    #[verifier::when_used_as_spec(spec_zero)]
    pub fn zero() -> (r: Vector2)
        ensures
            r == Vector2::spec_zero(),
    {
        Vector2 { x: 0, y: 0 }
    }

    /// Component-wise sum, saturating.
    pub open spec fn spec_plus(self, other: Vector2) -> Vector2 {
        Vector2 { x: saturate(self.x + other.x) as i32, y: saturate(self.y + other.y) as i32 }
    }

    /// Component-wise sum, saturating.
    #[verifier::when_used_as_spec(spec_plus)]
    pub fn plus(self, other: Vector2) -> (r: Vector2)
        ensures
            r == self.spec_plus(other),
    {
        Vector2 { x: sat_add(self.x, other.x), y: sat_add(self.y, other.y) }
    }

    /// Component-wise difference, saturating.
    pub open spec fn spec_minus(self, other: Vector2) -> Vector2 {
        Vector2 { x: saturate(self.x - other.x) as i32, y: saturate(self.y - other.y) as i32 }
    }

    /// Component-wise difference, saturating.
    #[verifier::when_used_as_spec(spec_minus)]
    pub fn minus(self, other: Vector2) -> (r: Vector2)
        ensures
            r == self.spec_minus(other),
    {
        Vector2 { x: sat_sub(self.x, other.x), y: sat_sub(self.y, other.y) }
    }

    /// The opposite vector, saturating.
    pub open spec fn spec_negate(self) -> Vector2 {
        Vector2 { x: saturate(-self.x) as i32, y: saturate(-self.y) as i32 }
    }

    /// The opposite vector, saturating.
    #[verifier::when_used_as_spec(spec_negate)]
    pub fn negate(self) -> (r: Vector2)
        ensures
            r == self.spec_negate(),
    {
        Vector2 { x: sat_neg(self.x), y: sat_neg(self.y) }
    }

    /// The vector times a fixed-point factor: each component times the
    /// factor, rounded toward zero and saturating.
    pub open spec fn spec_scale(self, factor: i32) -> Vector2 {
        Vector2 {
            x: product(self.x as int, factor as int) as i32,
            y: product(self.y as int, factor as int) as i32,
        }
    }

    /// The vector times a fixed-point factor.
    #[verifier::when_used_as_spec(spec_scale)]
    pub fn scale(self, factor: i32) -> (r: Vector2)
        ensures
            r == self.spec_scale(factor),
    {
        Vector2 { x: mul_fixed(self.x, factor), y: mul_fixed(self.y, factor) }
    }

    /// The vector divided by a fixed-point divisor other than zero: each
    /// component divided by it, rounded toward zero and saturating.
    pub open spec fn spec_divide(self, divisor: i32) -> Vector2 {
        Vector2 {
            x: ratio(self.x as int, divisor as int) as i32,
            y: ratio(self.y as int, divisor as int) as i32,
        }
    }

    /// The vector divided by a fixed-point divisor other than zero.
    #[verifier::when_used_as_spec(spec_divide)]
    pub fn divide(self, divisor: i32) -> (r: Vector2)
        requires
            divisor != 0,
        ensures
            r == self.spec_divide(divisor),
    {
        Vector2 { x: div_fixed(self.x, divisor), y: div_fixed(self.y, divisor) }
    }

    /// The fixed-point dot product: the exact one divided by the unit,
    /// rounded toward zero and saturating.
    pub open spec fn spec_dot(self, other: Vector2) -> i32 {
        saturate(
            quotient(dot2(self.x as int, self.y as int, other.x as int, other.y as int), UNIT as int),
        ) as i32
    }

    /// The fixed-point dot product.
    #[verifier::when_used_as_spec(spec_dot)]
    pub fn dot(self, other: Vector2) -> (r: i32)
        ensures
            r == self.spec_dot(other),
    {
        assert(-0x4000_0000_0000_0000 <= self.x * other.x <= 0x4000_0000_0000_0000)
            by (nonlinear_arith)
            requires
                -0x8000_0000 <= self.x <= 0x7fff_ffff,
                -0x8000_0000 <= other.x <= 0x7fff_ffff,
        ;
        assert(-0x4000_0000_0000_0000 <= self.y * other.y <= 0x4000_0000_0000_0000)
            by (nonlinear_arith)
            requires
                -0x8000_0000 <= self.y <= 0x7fff_ffff,
                -0x8000_0000 <= other.y <= 0x7fff_ffff,
        ;
        let wide: i128 = self.x as i128 * other.x as i128 + self.y as i128 * other.y as i128;
        saturate_i128(div_toward_zero(wide, 1000))
    }

    /// The exact squared length.
    pub open spec fn spec_length_squared(self) -> u64 {
        norm2(self.x as int, self.y as int) as u64
    }

    /// The exact squared length.
    #[verifier::when_used_as_spec(spec_length_squared)]
    pub fn length_squared(self) -> (r: u64)
        ensures
            r == self.spec_length_squared(),
            r == norm2(self.x as int, self.y as int),
    {
        proof {
            lemma_norm2_bound(self.x as int, self.y as int);
        }
        let x: i64 = self.x as i64;
        let y: i64 = self.y as i64;
        let xx: u64 = (x * x) as u64;
        let yy: u64 = (y * y) as u64;
        xx + yy
    }

    /// The length, rounded down to the grid and saturating.
    pub open spec fn spec_length(self) -> i32 {
        saturate(floor_sqrt(norm2(self.x as int, self.y as int))) as i32
    }

    /// The length, rounded down to the grid and saturating.
    #[verifier::when_used_as_spec(spec_length)]
    pub fn length(self) -> (r: i32)
        ensures
            r == self.spec_length(),
            r >= 0,
            r == 0 <==> self == Vector2::zero(),
    {
        let root: u32 = isqrt(self.length_squared());
        proof {
            lemma_component_below_length(self.x as int, self.y as int, root as int);
        }
        saturate_i64(root as i64)
    }

    /// The vector divided by its length rounded down, each component rounded
    /// toward zero; the zero vector for the zero vector. No component is
    /// larger than one unit.
    pub open spec fn spec_normalize(self) -> Vector2 {
        let len: int = floor_sqrt(norm2(self.x as int, self.y as int));
        if len == 0 {
            Vector2::zero()
        } else {
            Vector2 {
                x: quotient(self.x * UNIT as int, len) as i32,
                y: quotient(self.y * UNIT as int, len) as i32,
            }
        }
    }

    /// The vector divided by its length rounded down; the zero vector for the
    /// zero vector. No component is larger than one unit, but the result may
    /// be longer than one unit where the length was rounded down, most so
    /// for vectors of a few steps of the grid.
    #[verifier::when_used_as_spec(spec_normalize)]
    pub fn normalize(self) -> (r: Vector2)
        ensures
            r == self.spec_normalize(),
            -UNIT <= r.x <= UNIT,
            -UNIT <= r.y <= UNIT,
    {
        let root: u32 = isqrt(self.length_squared());
        proof {
            lemma_component_below_length(self.x as int, self.y as int, root as int);
        }
        if root == 0 {
            return Vector2::zero();
        }
        let len: i128 = root as i128;
        let qx: i128 = div_toward_zero(self.x as i128 * 1000, len);
        let qy: i128 = div_toward_zero(self.y as i128 * 1000, len);
        proof {
            lemma_unit_component(self.x as int, len as int);
            lemma_unit_component(self.y as int, len as int);
        }
        Vector2 { x: qx as i32, y: qy as i32 }
    }
}

/// A vector whose components are no larger than `bound` is no longer than
/// twice `bound`.
pub proof fn lemma_length_of_small(v: Vector2, bound: int)
    requires
        0 <= bound <= 0x3fff_ffff,
        -bound <= v.x <= bound,
        -bound <= v.y <= bound,
    ensures
        0 <= v.length() <= 2 * bound,
{
    let x: int = v.x as int;
    let y: int = v.y as int;
    assert(0 <= x * x + y * y < (2 * bound + 1) * (2 * bound + 1)) by (nonlinear_arith)
        requires
            0 <= bound,
            -bound <= x <= bound,
            -bound <= y <= bound,
    ;
    lemma_floor_sqrt_below(norm2(x, y), 2 * bound);
}

/// A component divided by a length that is no shorter lies between minus one
/// and one.
proof fn lemma_unit_component(c: int, len: int)
    requires
        len > 0,
        -len <= c <= len,
    ensures
        -1000 <= quotient(c * 1000, len) <= 1000,
{
    let m: int = if c >= 0 { c * 1000 } else { -(c * 1000) };
    assert(0 <= m <= 1000 * len);
    vstd::arithmetic::div_mod::lemma_div_pos_is_pos(m, len);
    vstd::arithmetic::div_mod::lemma_div_is_ordered(m, 1000 * len, len);
    vstd::arithmetic::div_mod::lemma_div_by_multiple(1000, len);
}

} // verus!
