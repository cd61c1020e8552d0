//! Fixed-point vectors and the saturating arithmetic on their components.

use vstd::arithmetic::div_mod::lemma_fundamental_div_mod_converse;
use vstd::prelude::*;

use crate::direction::{
    dot, the_unit_is_within_a_tick, the_unit_is_within_two_ticks, unit_of, unit_wide, widened,
    within_two_ticks,
};

verus! {

/// The number of ticks in one unit: scalars are fixed-point numbers with
/// sixteen fractional bits.
pub const ONE: i32 = 65536;

/// A point, a direction or a color: three fixed-point components.
#[derive(Clone, Copy, Debug, PartialEq, Eq, Structural)]
pub struct Vec3 {
    pub x: i32,
    pub y: i32,
    pub z: i32,
}

/// The nearest `i32` to `v`: `v` itself inside the range, else the end of
/// the range on `v`'s side.
pub open spec fn clamp_i32(v: int) -> i32 {
    if v < i32::MIN {
        i32::MIN
    } else if v > i32::MAX {
        i32::MAX
    } else {
        v as i32
    }
}

/// Narrows a wide intermediate result to a component, saturating at the ends
/// of the range.
pub fn saturate(v: i128) -> (r: i32)
    ensures
        r == clamp_i32(v as int),
{
    if v < -2147483648i128 {
        i32::MIN
    } else if v > 2147483647i128 {
        i32::MAX
    } else {
        v as i32
    }
}

/// The quotient of `m + b - 1` by `b` is the quotient of `m` by `b` rounded
/// up: times `b` it passes `m` by less than `b`.
pub proof fn lemma_rounded_up(m: int, b: int)
    requires
        b > 0,
    ensures
        0 <= ((m + b - 1) / b) * b - m < b,
{
    let n = m + b - 1;
    vstd::arithmetic::div_mod::lemma_fundamental_div_mod(n, b);
    vstd::arithmetic::div_mod::lemma_mod_bound(n, b);
    assert(b * (n / b) == (n / b) * b) by (nonlinear_arith);
}

/// A quotient lies between two numbers where the dividend lies between
/// their multiples of the divisor.
pub proof fn lemma_quotient_between(x: int, d: int, lo: int, hi: int)
    requires
        d > 0,
        lo * d <= x < (hi + 1) * d,
    ensures
        lo <= x / d <= hi,
{
    vstd::arithmetic::div_mod::lemma_fundamental_div_mod(x, d);
    vstd::arithmetic::div_mod::lemma_mod_bound(x, d);
    let q = x / d;
    let r = x % d;
    assert(lo <= q <= hi) by (nonlinear_arith)
        requires
            d > 0,
            lo * d <= x < (hi + 1) * d,
            x == d * q + r,
            0 <= r < d,
    {
        if q > hi {
            assert(d * q >= d * (hi + 1));
        }
        if q < lo {
            assert(d * q <= d * (lo - 1));
        }
    }
}

/// The quotient of `a` by a positive `b`, rounded down.
pub fn floor_div(a: i128, b: i128) -> (q: i128)
    requires
        0 < b <= 0x4000_0000_0000_0000_0000_0000_0000_0000,
        -0x4000_0000_0000_0000_0000_0000_0000_0000 <= a
            <= 0x4000_0000_0000_0000_0000_0000_0000_0000,
    ensures
        q == a / b,
{
    if a >= 0 {
        a / b
    } else {
        let up: i128 = (-a - 1 + b) / b;
        proof {
            let m: int = -(a as int);
            let d: int = b as int;
            let q: int = -(up as int);
            let r: int = up * d - m;
            assert(up as int == (m + d - 1) / d);
            lemma_rounded_up(m, d);
            assert(a as int == q * d + r) by (nonlinear_arith)
                requires
                    q == -(up as int),
                    r == up * d - m,
                    m == -(a as int),
            ;
            lemma_fundamental_div_mod_converse(a as int, d, q, r);
        }
        -up
    }
}

/// The square root of `n`, rounded down.
pub open spec fn floor_sqrt(n: nat) -> nat
    decreases n,
{
    if n == 0 {
        0
    } else {
        let r = floor_sqrt((n - 1) as nat);
        if (r + 1) * (r + 1) <= n {
            r + 1
        } else {
            r
        }
    }
}

/// The rounded root is the one number whose square does not pass `n` while
/// the square of the next does.
pub proof fn lemma_floor_sqrt(n: nat)
    ensures
        ({
            let r = floor_sqrt(n) as int;
            r * r <= n < (r + 1) * (r + 1)
        }),
    decreases n,
{
    if n > 0 {
        lemma_floor_sqrt((n - 1) as nat);
        let r: int = floor_sqrt((n - 1) as nat) as int;
        let s: int = floor_sqrt(n) as int;
        assert(r * r <= n - 1 < (r + 1) * (r + 1));
        if (r + 1) * (r + 1) <= n {
            assert(s == r + 1);
            assert((r + 2) * (r + 2) > (r + 1) * (r + 1)) by (nonlinear_arith)
                requires
                    r >= 0,
            ;
            assert(s * s <= n < (s + 1) * (s + 1));
        } else {
            assert(s == r);
            assert(s * s <= n < (s + 1) * (s + 1));
        }
    } else {
        assert(floor_sqrt(0) == 0);
    }
}

/// A number whose square does not pass `n` while the square of the next
/// does is the rounded root of `n`.
pub proof fn lemma_floor_sqrt_unique(n: nat, r: int)
    requires
        0 <= r,
        r * r <= n < (r + 1) * (r + 1),
    ensures
        r == floor_sqrt(n),
{
    lemma_floor_sqrt(n);
    let s = floor_sqrt(n) as int;
    if r < s {
        assert((r + 1) * (r + 1) <= s * s) by (nonlinear_arith)
            requires
                0 <= r,
                r + 1 <= s,
        ;
    } else if s < r {
        assert((s + 1) * (s + 1) <= r * r) by (nonlinear_arith)
            requires
                0 <= s,
                s + 1 <= r,
        ;
    }
}

/// The square root of `n`, rounded down, found by bisection.
pub fn isqrt(n: u128) -> (r: u64)
    requires
        n < 0x4000_0000_0000_0000_0000_0000_0000_0000,
    ensures
        r == floor_sqrt(n as nat),
{
    let mut lo: u128 = 0;
    let mut hi: u128 = 0x8000_0000_0000_0000;
    assert(hi * hi == 0x4000_0000_0000_0000_0000_0000_0000_0000) by (nonlinear_arith)
        requires
            hi == 0x8000_0000_0000_0000,
    ;
    while hi - lo > 1
        invariant
            lo < hi <= 0x8000_0000_0000_0000,
            lo * lo <= n < hi * hi,
        decreases hi - lo,
    {
        let mid: u128 = lo + (hi - lo) / 2;
        assert(mid * mid < 0x4000_0000_0000_0000_0000_0000_0000_0000) by (nonlinear_arith)
            requires
                0 <= mid < 0x8000_0000_0000_0000,
        {
            assert(mid * mid <= mid * 0x8000_0000_0000_0000);
            assert(mid * 0x8000_0000_0000_0000 < 0x8000_0000_0000_0000 * 0x8000_0000_0000_0000);
        }
        if mid * mid <= n {
            lo = mid;
        } else {
            hi = mid;
        }
    }
    proof {
        lemma_floor_sqrt_unique(n as nat, lo as int);
    }
    lo as u64
}

impl Vec3 {
    /// The color black, and the origin.
    pub open spec fn zero() -> Vec3 {
        Vec3 { x: 0, y: 0, z: 0 }
    }

    /// The component-wise sum, saturated.
    pub open spec fn plus(self, other: Vec3) -> Vec3 {
        Vec3 {
            x: clamp_i32(self.x + other.x),
            y: clamp_i32(self.y + other.y),
            z: clamp_i32(self.z + other.z),
        }
    }

    /// The component-wise product of two fixed-point vectors, rounded down
    /// and saturated.
    pub open spec fn times(self, other: Vec3) -> Vec3 {
        Vec3 {
            x: clamp_i32((self.x * other.x) / (ONE as int)),
            y: clamp_i32((self.y * other.y) / (ONE as int)),
            z: clamp_i32((self.z * other.z) / (ONE as int)),
        }
    }

    /// The length of the vector, rounded down.
    pub open spec fn norm(self) -> nat {
        floor_sqrt((self.x * self.x + self.y * self.y + self.z * self.z) as nat)
    }

    /// The vector of length one in the direction of `self`, as
    /// [`unit_of`] defines it for vectors of any size; the zero vector has
    /// no direction and stays as it is.
    pub open spec fn unit(self) -> Vec3 {
        unit_of(widened(self))
    }

    /// The component-wise sum, saturated.
    pub fn sum(self, other: Vec3) -> (v: Vec3)
        ensures
            v == self.plus(other),
    {
        Vec3 {
            x: saturate(self.x as i128 + other.x as i128),
            y: saturate(self.y as i128 + other.y as i128),
            z: saturate(self.z as i128 + other.z as i128),
        }
    }

    /// The component-wise product of two fixed-point vectors.
    pub fn product(self, other: Vec3) -> (v: Vec3)
        ensures
            v == self.times(other),
    {
        Vec3 {
            x: scaled_product(self.x, other.x),
            y: scaled_product(self.y, other.y),
            z: scaled_product(self.z, other.z),
        }
    }

    /// The length of the vector, rounded down.
    pub fn length(self) -> (len: u64)
        ensures
            len == self.norm(),
    {
        proof {
            lemma_square_fits(self.x as int);
            lemma_square_fits(self.y as int);
            lemma_square_fits(self.z as int);
        }
        let xx: u128 = ((self.x as i128) * (self.x as i128)) as u128;
        let yy: u128 = ((self.y as i128) * (self.y as i128)) as u128;
        let zz: u128 = ((self.z as i128) * (self.z as i128)) as u128;
        isqrt(xx + yy + zz)
    }

    /// The vector with the three given components.
    pub fn new(x: i32, y: i32, z: i32) -> (v: Vec3)
        ensures
            v == (Vec3 { x, y, z }),
    {
        Vec3 { x, y, z }
    }
}

/// The square of a component is not negative and fits in 62 bits.
pub proof fn lemma_square_fits(a: int)
    requires
        -0x8000_0000 <= a <= 0x8000_0000,
    ensures
        0 <= a * a <= 0x4000_0000_0000_0000,
{
    assert(0 <= a * a <= 0x4000_0000_0000_0000) by (nonlinear_arith)
        requires
            -0x8000_0000 <= a <= 0x8000_0000,
    {
        assert((0x8000_0000 - a) * (0x8000_0000 + a) >= 0);
    }
}

/// The product of two components stays inside 62 bits.
pub proof fn lemma_component_product_fits(a: int, b: int)
    requires
        -0x8000_0000 <= a <= 0x8000_0000,
        -0x8000_0000 <= b <= 0x8000_0000,
    ensures
        -0x4000_0000_0000_0000 <= a * b <= 0x4000_0000_0000_0000,
{
    assert(-0x4000_0000_0000_0000 <= a * b <= 0x4000_0000_0000_0000) by (nonlinear_arith)
        requires
            -0x8000_0000 <= a <= 0x8000_0000,
            -0x8000_0000 <= b <= 0x8000_0000,
    {
        assert((0x8000_0000 - a) * (0x8000_0000 - b) >= 0);
        assert((0x8000_0000 + a) * (0x8000_0000 + b) >= 0);
        assert((0x8000_0000 - a) * (0x8000_0000 + b) >= 0);
        assert((0x8000_0000 + a) * (0x8000_0000 - b) >= 0);
    }
}

/// The product of two fixed-point numbers: `a * b / ONE`, rounded down and
/// saturated.
pub fn scaled_product(a: i32, b: i32) -> (p: i32)
    ensures
        p == clamp_i32((a * b) / (ONE as int)),
{
    proof {
        lemma_component_product_fits(a as int, b as int);
    }
    saturate(floor_div((a as i128) * (b as i128), 65536))
}

/// The quotient of two fixed-point numbers: `a * ONE / b` for a positive
/// `b`, rounded down and saturated.
pub fn scaled_quotient(a: i32, b: i64) -> (q: i32)
    requires
        b > 0,
    ensures
        q == clamp_i32((a * ONE) / (b as int)),
{
    saturate(floor_div((a as i128) * 65536, b as i128))
}

/// The vector of length one in the direction of `v`: each component within
/// two ticks of the true direction, however short `v` is.
pub fn unit_vector(v: Vec3) -> (u: Vec3)
    ensures
        u == v.unit(),
        v != Vec3::zero() ==> {
            &&& u != Vec3::zero()
            &&& within_two_ticks(u.x as int, v.x as int, dot(widened(v), widened(v)))
            &&& within_two_ticks(u.y as int, v.y as int, dot(widened(v), widened(v)))
            &&& within_two_ticks(u.z as int, v.z as int, dot(widened(v), widened(v)))
        },
{
    proof {
        if v != Vec3::zero() {
            the_unit_is_within_a_tick(widened(v));
            the_unit_is_within_two_ticks(widened(v));
        }
    }
    unit_wide(v.x as i128, v.y as i128, v.z as i128)
}

} // verus!
