//! The direction of a vector: the fixed-point vector of length one along
//! it, whatever the size of the vector.

use vstd::prelude::*;

use crate::vec3::{floor_sqrt, isqrt, lemma_floor_sqrt, Vec3, ONE};

verus! {

/// A vector of whole numbers of any size.
pub struct Wide {
    pub x: int,
    pub y: int,
    pub z: int,
}

/// A vector of components as it is.
pub open spec fn widened(a: Vec3) -> Wide {
    Wide { x: a.x as int, y: a.y as int, z: a.z as int }
}

/// The dot product.
pub open spec fn dot(a: Wide, b: Wide) -> int {
    a.x * b.x + a.y * b.y + a.z * b.z
}

/// The size of a number without its sign.
pub open spec fn magnitude(a: int) -> int {
    if a < 0 {
        -a
    } else {
        a
    }
}

/// The quotient of `a` by a positive `b`, rounded towards nothing.
pub open spec fn toward_zero(a: int, b: int) -> int {
    if a >= 0 {
        a / b
    } else {
        -((-a) / b)
    }
}

/// The greatest size of a component.
pub open spec fn reach(n: Wide) -> int {
    let x = magnitude(n.x);
    let y = magnitude(n.y);
    let z = magnitude(n.z);
    if x >= y && x >= z {
        x
    } else if y >= z {
        y
    } else {
        z
    }
}

/// The sizes of the components added up.
pub open spec fn taxi(d: Wide) -> int {
    magnitude(d.x) + magnitude(d.y) + magnitude(d.z)
}

/// The reach from which on a vector is long enough to be divided by its
/// length: two to the thirtieth.
pub const NEAR: i128 = 0x4000_0000;

/// The reach below which the squares of the components fit: two to the
/// thirty-first.
pub const FAR: i128 = 0x8000_0000;

/// Every component halved, rounded towards nothing.
pub open spec fn halved(n: Wide) -> Wide {
    Wide { x: toward_zero(n.x, 2), y: toward_zero(n.y, 2), z: toward_zero(n.z, 2) }
}

/// Every component doubled.
pub open spec fn doubled(n: Wide) -> Wide {
    Wide { x: 2 * n.x, y: 2 * n.y, z: 2 * n.z }
}

/// The vector halved until its reach is below [`FAR`].
pub open spec fn shrunk(n: Wide) -> Wide
    decreases reach(n),
{
    if reach(n) < FAR {
        n
    } else {
        shrunk(halved(n))
    }
}

/// The vector doubled until its reach is at least [`NEAR`]; the zero vector
/// stays as it is.
pub open spec fn grown(n: Wide) -> Wide
    decreases room(n),
{
    if reach(n) >= NEAR || reach(n) <= 0 {
        n
    } else {
        proof {
            lemma_doubled_reach(n);
        }
        grown(doubled(n))
    }
}

/// By how much the reach of a vector falls short of [`NEAR`].
pub open spec fn room(n: Wide) -> int {
    if reach(n) < NEAR {
        NEAR - reach(n)
    } else {
        0
    }
}

/// Doubling a vector doubles its reach.
pub proof fn lemma_doubled_reach(n: Wide)
    ensures
        reach(doubled(n)) == 2 * reach(n),
{
}

/// The vector brought to a reach from [`NEAR`] up to, not including,
/// [`FAR`] by halving or by doubling, so that no more than one part in two
/// to the thirtieth of its direction is lost.
pub open spec fn scaled(n: Wide) -> Wide {
    if reach(n) >= FAR {
        shrunk(n)
    } else {
        grown(n)
    }
}

/// The length of a vector, rounded down.
pub open spec fn length(s: Wide) -> int {
    floor_sqrt(dot(s, s) as nat) as int
}

/// The vector of length one along `n`: the scaled vector divided by its
/// length, each component rounded towards nothing. The zero vector has no
/// direction and gives the zero vector.
pub open spec fn unit_of(n: Wide) -> Vec3 {
    if reach(n) == 0 {
        Vec3::zero()
    } else {
        let s = scaled(n);
        Vec3 {
            x: toward_zero(s.x * ONE, length(s)) as i32,
            y: toward_zero(s.y * ONE, length(s)) as i32,
            z: toward_zero(s.z * ONE, length(s)) as i32,
        }
    }
}

/// Whether `u` lies within one tick of the part `c` of a vector of the
/// squared length `square` that has the length one: `u` has the sign of `c`
/// or is nothing, and `|u| - 1 <= |c| * ONE / length < |u| + 1`, compared
/// by squares.
pub open spec fn within_a_tick(u: int, c: int, square: int) -> bool {
    &&& c >= 0 ==> u >= 0
    &&& c <= 0 ==> u <= 0
    &&& (c * ONE) * (c * ONE) < (magnitude(u) + 1) * (magnitude(u) + 1) * square
    &&& magnitude(u) >= 1 ==> (magnitude(u) - 1) * (magnitude(u) - 1) * square <= (c * ONE) * (c
        * ONE)
}

/// The scaled vector has a reach from [`NEAR`] up to, not including,
/// [`FAR`].
pub proof fn lemma_scaled_reach(n: Wide)
    requires
        reach(n) > 0,
    ensures
        NEAR <= reach(scaled(n)) < FAR,
{
    if reach(n) >= FAR {
        lemma_shrunk_reach(n);
    } else {
        lemma_grown_reach(n);
    }
}

proof fn lemma_shrunk_reach(n: Wide)
    requires
        reach(n) >= NEAR,
    ensures
        NEAR <= reach(shrunk(n)) < FAR,
    decreases reach(n),
{
    if reach(n) >= FAR {
        lemma_shrunk_reach(halved(n));
    }
}

proof fn lemma_grown_reach(n: Wide)
    requires
        0 < reach(n) < FAR,
    ensures
        NEAR <= reach(grown(n)) < FAR,
    decreases room(n),
{
    if reach(n) < NEAR {
        lemma_doubled_reach(n);
        lemma_grown_reach(doubled(n));
    }
}

/// Growing multiplies the vector by a positive number: the direction stays
/// exactly as it is.
pub proof fn lemma_grown_is_a_multiple(n: Wide) -> (q: int)
    ensures
        q >= 1,
        grown(n) == (Wide { x: n.x * q, y: n.y * q, z: n.z * q }),
    decreases room(n),
{
    if reach(n) >= NEAR || reach(n) <= 0 {
        1
    } else {
        lemma_doubled_reach(n);
        let q = lemma_grown_is_a_multiple(doubled(n));
        assert((2 * n.x) * q == n.x * (2 * q) && (2 * n.y) * q == n.y * (2 * q) && (2 * n.z) * q
            == n.z * (2 * q)) by (nonlinear_arith);
        2 * q
    }
}

/// Whether `s` is `c` divided by `p` and rounded towards nothing.
pub open spec fn is_quotient(s: int, c: int, p: int) -> bool {
    &&& c >= 0 ==> s >= 0
    &&& c <= 0 ==> s <= 0
    &&& p * magnitude(s) <= magnitude(c) < p * (magnitude(s) + 1)
}

/// Shrinking divides the vector by a positive number and rounds each
/// component towards nothing. The greatest component that is left is at
/// least [`NEAR`], so no more than one part in two to the thirtieth of any
/// component is lost.
pub proof fn lemma_shrunk_is_a_quotient(n: Wide) -> (p: int)
    ensures
        p >= 1,
        is_quotient(shrunk(n).x, n.x, p),
        is_quotient(shrunk(n).y, n.y, p),
        is_quotient(shrunk(n).z, n.z, p),
    decreases reach(n),
{
    if reach(n) < FAR {
        1
    } else {
        let h = halved(n);
        let q = lemma_shrunk_is_a_quotient(h);
        lemma_quotient_of_a_half(shrunk(n).x, h.x, n.x, q);
        lemma_quotient_of_a_half(shrunk(n).y, h.y, n.y, q);
        lemma_quotient_of_a_half(shrunk(n).z, h.z, n.z, q);
        2 * q
    }
}

proof fn lemma_quotient_of_a_half(s: int, h: int, c: int, q: int)
    requires
        q >= 1,
        h == toward_zero(c, 2),
        is_quotient(s, h, q),
    ensures
        is_quotient(s, c, 2 * q),
{
    let a = magnitude(s);
    let b = magnitude(h);
    let m = magnitude(c);
    assert(2 * b <= m < 2 * (b + 1));
    assert((2 * q) * a <= m < (2 * q) * (a + 1)) by (nonlinear_arith)
        requires
            q * a <= b,
            b + 1 <= q * (a + 1),
            2 * b <= m < 2 * (b + 1),
    ;
}

/// Halving and doubling turn a vector by little: a vector `d` that does not
/// point along `n` points along the scaled vector by no more than the sum
/// of the sizes of its components.
pub proof fn lemma_scaled_turns(d: Wide, n: Wide)
    requires
        dot(d, n) <= 0,
    ensures
        dot(d, scaled(n)) <= taxi(d),
{
    if reach(n) >= FAR {
        lemma_shrunk_turns(d, n);
    } else {
        let q = lemma_grown_is_a_multiple(n);
        let g = grown(n);
        assert(d.x * g.x == q * (d.x * n.x) && d.y * g.y == q * (d.y * n.y) && d.z * g.z == q * (
        d.z * n.z)) by (nonlinear_arith)
            requires
                g.x == n.x * q,
                g.y == n.y * q,
                g.z == n.z * q,
        ;
        assert(q * (d.x * n.x) + q * (d.y * n.y) + q * (d.z * n.z) == q * dot(d, n))
            by (nonlinear_arith)
            requires
                dot(d, n) == d.x * n.x + d.y * n.y + d.z * n.z,
        ;
        assert(q * dot(d, n) <= 0) by (nonlinear_arith)
            requires
                q >= 1,
                dot(d, n) <= 0,
        ;
    }
}

proof fn lemma_shrunk_turns(d: Wide, n: Wide)
    requires
        dot(d, n) <= taxi(d),
    ensures
        dot(d, shrunk(n)) <= taxi(d),
    decreases reach(n),
{
    if reach(n) >= FAR {
        let h = halved(n);
        lemma_half_turns(d.x, n.x);
        lemma_half_turns(d.y, n.y);
        lemma_half_turns(d.z, n.z);
        lemma_shrunk_turns(d, h);
    }
}

/// Twice the product with a halved number passes the product with the
/// number by no more than the size of the other factor.
proof fn lemma_half_turns(d: int, c: int)
    ensures
        2 * (d * toward_zero(c, 2)) <= d * c + magnitude(d),
{
    let h = toward_zero(c, 2);
    assert(-1 <= 2 * h - c <= 1);
    assert(2 * (d * h) - d * c == d * (2 * h - c)) by (nonlinear_arith);
    assert(d * (2 * h - c) <= magnitude(d)) by (nonlinear_arith)
        requires
            -1 <= 2 * h - c <= 1,
    ;
}

/// The length of a scaled vector is at least [`NEAR`] and at most twice its
/// reach, and is the root of its square, rounded down.
pub proof fn lemma_scaled_length(s: Wide)
    requires
        NEAR <= reach(s) < FAR,
    ensures
        NEAR <= length(s) <= 2 * reach(s),
        reach(s) <= length(s),
        length(s) * length(s) <= dot(s, s) < (length(s) + 1) * (length(s) + 1),
{
    let m = reach(s);
    let len = length(s);
    let square = dot(s, s);
    assert(m * m <= square <= 3 * (m * m) && s.x * s.x >= 0 && s.y * s.y >= 0 && s.z * s.z >= 0)
        by (nonlinear_arith)
        requires
            m == reach(s),
            square == dot(s, s),
    {
        assert(s.x * s.x == magnitude(s.x) * magnitude(s.x));
        assert(s.y * s.y == magnitude(s.y) * magnitude(s.y));
        assert(s.z * s.z == magnitude(s.z) * magnitude(s.z));
        assert(magnitude(s.x) * magnitude(s.x) <= m * m);
        assert(magnitude(s.y) * magnitude(s.y) <= m * m);
        assert(magnitude(s.z) * magnitude(s.z) <= m * m);
    }
    lemma_floor_sqrt(square as nat);
    assert(m <= len <= 2 * m) by (nonlinear_arith)
        requires
            m >= 1,
            len >= 0,
            len * len <= square < (len + 1) * (len + 1),
            m * m <= square <= 3 * (m * m),
    {
        if len < m {
            assert((len + 1) * (len + 1) <= m * m);
        }
        if len > 2 * m {
            assert(len * len >= (2 * m + 1) * (2 * m + 1));
        }
    }
}

/// What rounding towards nothing leaves: the quotient has the sign of the
/// dividend or is nothing, and times the divisor it falls short of the
/// dividend by less than the divisor.
pub proof fn lemma_toward_zero(a: int, b: int)
    requires
        b > 0,
    ensures
        a >= 0 ==> toward_zero(a, b) >= 0,
        a <= 0 ==> toward_zero(a, b) <= 0,
        magnitude(toward_zero(a, b)) * b <= magnitude(a) < (magnitude(toward_zero(a, b)) + 1) * b,
{
    let m = magnitude(a);
    vstd::arithmetic::div_mod::lemma_fundamental_div_mod(m, b);
    vstd::arithmetic::div_mod::lemma_mod_bound(m, b);
    let q = m / b;
    assert(q >= 0 && q * b <= m < (q + 1) * b) by (nonlinear_arith)
        requires
            b > 0,
            m >= 0,
            m == b * q + m % b,
            0 <= m % b < b,
    {
        if q < 0 {
            assert(b * q <= -b);
        }
    }
}

/// A component of the vector of length one lies within one tick of the
/// same component of the true direction of the scaled vector.
pub proof fn lemma_component_within_a_tick(c: int, s: Wide)
    requires
        NEAR <= reach(s) < FAR,
        magnitude(c) <= reach(s),
    ensures
        within_a_tick(toward_zero(c * ONE, length(s)), c, dot(s, s)),
        magnitude(toward_zero(c * ONE, length(s))) <= ONE,
{
    let len = length(s);
    let square = dot(s, s);
    let a = c * ONE;
    let u = toward_zero(a, len);
    let v = magnitude(u);
    let w = magnitude(a);
    lemma_scaled_length(s);
    lemma_toward_zero(a, len);
    assert(w == magnitude(c) * 65536);
    assert(a * a == w * w) by (nonlinear_arith)
        requires
            w == magnitude(a),
    ;
    // v * len <= w < (v + 1) * len and len <= root < len + 1.
    assert(v <= 65536) by (nonlinear_arith)
        requires
            v * len <= w,
            w <= len * 65536,
            len > 0,
            v >= 0,
    {
        if v > 65536 {
            assert(v * len >= 65537 * len);
        }
    }
    assert(a * a < (v + 1) * (v + 1) * square) by (nonlinear_arith)
        requires
            a * a == w * w,
            0 <= w < (v + 1) * len,
            len * len <= square,
            v >= 0,
            len >= 0,
    {
        assert(w * w < ((v + 1) * len) * ((v + 1) * len));
        assert(((v + 1) * len) * ((v + 1) * len) == (v + 1) * (v + 1) * (len * len));
        assert((v + 1) * (v + 1) * (len * len) <= (v + 1) * (v + 1) * square);
    }
    if v >= 1 {
        assert((v - 1) * (v - 1) * square <= a * a) by (nonlinear_arith)
            requires
                a * a == w * w,
                v * len <= w,
                square < (len + 1) * (len + 1),
                1 <= v <= 65536,
                len >= 0x4000_0000,
                square >= 0,
        {
            // (v - 1) * (len + 1) <= v * len, as v <= len + 1.
            assert((v - 1) * (len + 1) <= v * len);
            assert((v - 1) * (len + 1) >= 0);
            assert(((v - 1) * (len + 1)) * ((v - 1) * (len + 1)) <= w * w);
            assert(((v - 1) * (len + 1)) * ((v - 1) * (len + 1)) == (v - 1) * (v - 1) * ((len + 1)
                * (len + 1)));
            assert((v - 1) * (v - 1) * square <= (v - 1) * (v - 1) * ((len + 1) * (len + 1)));
        }
    }
}

/// The vector of length one along a vector that is not zero is not zero,
/// has no component beyond one, and lies component by component within one
/// tick of the true direction of the scaled vector.
pub proof fn the_unit_is_within_a_tick(n: Wide)
    requires
        reach(n) > 0,
    ensures
        reach(widened(unit_of(n))) >= ONE / 2,
        reach(widened(unit_of(n))) <= ONE,
        within_a_tick(unit_of(n).x as int, scaled(n).x, dot(scaled(n), scaled(n))),
        within_a_tick(unit_of(n).y as int, scaled(n).y, dot(scaled(n), scaled(n))),
        within_a_tick(unit_of(n).z as int, scaled(n).z, dot(scaled(n), scaled(n))),
{
    let s = scaled(n);
    let len = length(s);
    let m = reach(s);
    lemma_scaled_reach(n);
    lemma_scaled_length(s);
    lemma_component_within_a_tick(s.x, s);
    lemma_component_within_a_tick(s.y, s);
    lemma_component_within_a_tick(s.z, s);
    lemma_toward_zero(s.x * ONE, len);
    lemma_toward_zero(s.y * ONE, len);
    lemma_toward_zero(s.z * ONE, len);
    // The greatest component stays at a half or more.
    let c = if magnitude(s.x) == m {
        s.x
    } else if magnitude(s.y) == m {
        s.y
    } else {
        s.z
    };
    let v = magnitude(toward_zero(c * ONE, len));
    assert(magnitude(c * ONE) == m * 65536);
    assert(v >= 32768) by (nonlinear_arith)
        requires
            m * 65536 < (v + 1) * len,
            0 < len <= 2 * m,
            v >= 0,
    {
        if v + 1 <= 32768 {
            assert((v + 1) * len <= 32768 * len);
        }
    }
}

/// The vector of length one along a vector whose reach is below [`FAR`],
/// as every vector of components is but for the last step of the range,
/// lies component by component within one tick of the true direction of
/// that vector itself.
pub proof fn the_unit_of_a_short_vector_is_within_a_tick(n: Wide)
    requires
        0 < reach(n) < FAR,
    ensures
        within_a_tick(unit_of(n).x as int, n.x, dot(n, n)),
        within_a_tick(unit_of(n).y as int, n.y, dot(n, n)),
        within_a_tick(unit_of(n).z as int, n.z, dot(n, n)),
{
    let s = scaled(n);
    let q = lemma_grown_is_a_multiple(n);
    the_unit_is_within_a_tick(n);
    let square = dot(n, n);
    assert((n.x * q) * (n.x * q) == q * q * (n.x * n.x)) by (nonlinear_arith);
    assert((n.y * q) * (n.y * q) == q * q * (n.y * n.y)) by (nonlinear_arith);
    assert((n.z * q) * (n.z * q) == q * q * (n.z * n.z)) by (nonlinear_arith);
    let xx = n.x * n.x;
    let yy = n.y * n.y;
    let zz = n.z * n.z;
    assert(q * q * xx + q * q * yy + q * q * zz == q * q * (xx + yy + zz)) by (nonlinear_arith);
    assert(dot(s, s) == q * q * square);
    lemma_same_direction(unit_of(n).x as int, n.x, q, square);
    lemma_same_direction(unit_of(n).y as int, n.y, q, square);
    lemma_same_direction(unit_of(n).z as int, n.z, q, square);
}

/// A component within a tick of the direction of a multiple of a vector is
/// within a tick of the direction of the vector.
proof fn lemma_same_direction(u: int, c: int, q: int, square: int)
    requires
        q >= 1,
        within_a_tick(u, c * q, q * q * square),
    ensures
        within_a_tick(u, c, square),
{
    let v = magnitude(u);
    let a = c * 65536;
    assert((c * q) * 65536 == a * q) by (nonlinear_arith)
        requires
            a == c * 65536,
    ;
    assert(c >= 0 ==> c * q >= 0) by (nonlinear_arith)
        requires
            q >= 1,
    ;
    assert(c <= 0 ==> c * q <= 0) by (nonlinear_arith)
        requires
            q >= 1,
    ;
    let upper = (v + 1) * (v + 1) * square;
    assert((a * q) * (a * q) == q * q * (a * a)) by (nonlinear_arith);
    assert((v + 1) * (v + 1) * (q * q * square) == q * q * upper) by (nonlinear_arith)
        requires
            upper == (v + 1) * (v + 1) * square,
    ;
    assert(a * a < upper) by (nonlinear_arith)
        requires
            q * q * (a * a) < q * q * upper,
            q >= 1,
    ;
    if v >= 1 {
        let lower = (v - 1) * (v - 1) * square;
        assert((v - 1) * (v - 1) * (q * q * square) == q * q * lower) by (nonlinear_arith)
            requires
                lower == (v - 1) * (v - 1) * square,
        ;
        assert(lower <= a * a) by (nonlinear_arith)
            requires
                q * q * lower <= q * q * (a * a),
                q >= 1,
        ;
    }
}

/// Whether `u` lies within two ticks of the part `c` of a vector of the
/// squared length `square` that has the length one: `u` has the sign of `c`
/// or is nothing, and `|u| - 2 <= |c| * ONE / length <= |u| + 2`, compared
/// by squares.
pub open spec fn within_two_ticks(u: int, c: int, square: int) -> bool {
    &&& c >= 0 ==> u >= 0
    &&& c <= 0 ==> u <= 0
    &&& (c * ONE) * (c * ONE) <= (magnitude(u) + 2) * (magnitude(u) + 2) * square
    &&& magnitude(u) >= 2 ==> (magnitude(u) - 2) * (magnitude(u) - 2) * square <= (c * ONE) * (c
        * ONE)
}

/// The vector of length one along any vector that is not zero lies
/// component by component within two ticks of the true direction of that
/// vector.
pub proof fn the_unit_is_within_two_ticks(n: Wide)
    requires
        reach(n) > 0,
    ensures
        within_two_ticks(unit_of(n).x as int, n.x, dot(n, n)),
        within_two_ticks(unit_of(n).y as int, n.y, dot(n, n)),
        within_two_ticks(unit_of(n).z as int, n.z, dot(n, n)),
{
    assert(dot(n, n) >= 0) by (nonlinear_arith)
        requires
            dot(n, n) == n.x * n.x + n.y * n.y + n.z * n.z,
    ;
    if reach(n) < FAR {
        the_unit_of_a_short_vector_is_within_a_tick(n);
        lemma_a_tick_is_within_two(unit_of(n).x as int, n.x, dot(n, n));
        lemma_a_tick_is_within_two(unit_of(n).y as int, n.y, dot(n, n));
        lemma_a_tick_is_within_two(unit_of(n).z as int, n.z, dot(n, n));
    } else {
        let s = scaled(n);
        let len = length(s);
        let p = lemma_shrunk_is_a_quotient(n);
        lemma_scaled_reach(n);
        lemma_scaled_length(s);
        lemma_long_square(n, s, p, len);
        lemma_component_within_a_tick(s.x, s);
        lemma_component_within_a_tick(s.y, s);
        lemma_component_within_a_tick(s.z, s);
        lemma_long_component(n.x, s.x, p, len, dot(n, n));
        lemma_long_component(n.y, s.y, p, len, dot(n, n));
        lemma_long_component(n.z, s.z, p, len, dot(n, n));
    }
}

proof fn lemma_a_tick_is_within_two(u: int, c: int, square: int)
    requires
        within_a_tick(u, c, square),
        square >= 0,
    ensures
        within_two_ticks(u, c, square),
{
    let v = magnitude(u);
    let a = c * 65536;
    assert((v + 1) * (v + 1) * square <= (v + 2) * (v + 2) * square) by (nonlinear_arith)
        requires
            v >= 0,
            square >= 0,
    ;
    if v >= 2 {
        assert((v - 2) * (v - 2) * square <= (v - 1) * (v - 1) * square) by (nonlinear_arith)
            requires
                v >= 2,
                square >= 0,
        ;
    }
}

/// The square of a long vector lies between the squares of its divisor
/// times the length of the scaled vector and times four more.
proof fn lemma_long_square(n: Wide, s: Wide, p: int, len: int)
    requires
        p >= 1,
        is_quotient(s.x, n.x, p),
        is_quotient(s.y, n.y, p),
        is_quotient(s.z, n.z, p),
        len >= 0,
        reach(s) <= len,
        len * len <= dot(s, s) < (len + 1) * (len + 1),
    ensures
        p * p * (len * len) <= dot(n, n) < p * p * ((len + 4) * (len + 4)),
{
    lemma_part_square(n.x, s.x, p);
    lemma_part_square(n.y, s.y, p);
    lemma_part_square(n.z, s.z, p);
    let bx = magnitude(s.x);
    let by = magnitude(s.y);
    let bz = magnitude(s.z);
    let low = bx * bx + by * by + bz * bz;
    let high = (bx + 1) * (bx + 1) + (by + 1) * (by + 1) + (bz + 1) * (bz + 1);
    assert(low == dot(s, s)) by (nonlinear_arith)
        requires
            low == bx * bx + by * by + bz * bz,
            bx == magnitude(s.x),
            by == magnitude(s.y),
            bz == magnitude(s.z),
            dot(s, s) == s.x * s.x + s.y * s.y + s.z * s.z,
    {
        assert(bx * bx == s.x * s.x);
        assert(by * by == s.y * s.y);
        assert(bz * bz == s.z * s.z);
    }
    assert(high == low + 2 * (bx + by + bz) + 3) by (nonlinear_arith)
        requires
            low == bx * bx + by * by + bz * bz,
            high == (bx + 1) * (bx + 1) + (by + 1) * (by + 1) + (bz + 1) * (bz + 1),
    ;
    assert(high < (len + 4) * (len + 4)) by (nonlinear_arith)
        requires
            high == low + 2 * (bx + by + bz) + 3,
            low < (len + 1) * (len + 1),
            bx <= len,
            by <= len,
            bz <= len,
            len >= 0,
    ;
    let px = p * p * (bx * bx);
    let py = p * p * (by * by);
    let pz = p * p * (bz * bz);
    assert(px + py + pz == p * p * low) by (nonlinear_arith)
        requires
            px == p * p * (bx * bx),
            py == p * p * (by * by),
            pz == p * p * (bz * bz),
            low == bx * bx + by * by + bz * bz,
    ;
    let qx = p * p * ((bx + 1) * (bx + 1));
    let qy = p * p * ((by + 1) * (by + 1));
    let qz = p * p * ((bz + 1) * (bz + 1));
    assert(qx + qy + qz == p * p * high) by (nonlinear_arith)
        requires
            qx == p * p * ((bx + 1) * (bx + 1)),
            qy == p * p * ((by + 1) * (by + 1)),
            qz == p * p * ((bz + 1) * (bz + 1)),
            high == (bx + 1) * (bx + 1) + (by + 1) * (by + 1) + (bz + 1) * (bz + 1),
    ;
    assert(p * p * (len * len) <= p * p * low) by (nonlinear_arith)
        requires
            len * len <= low,
    ;
    assert(p * p * high <= p * p * ((len + 4) * (len + 4))) by (nonlinear_arith)
        requires
            high < (len + 4) * (len + 4),
    ;
    assert(dot(n, n) == n.x * n.x + n.y * n.y + n.z * n.z);
}

/// The square of a component lies between the squares of the divisor times
/// its quotient and times one more.
proof fn lemma_part_square(c: int, sc: int, p: int)
    requires
        p >= 1,
        is_quotient(sc, c, p),
    ensures
        p * p * (magnitude(sc) * magnitude(sc)) <= c * c < p * p * ((magnitude(sc) + 1) * (
        magnitude(sc) + 1)),
{
    let b = magnitude(sc);
    let a = magnitude(c);
    assert(c * c == a * a) by (nonlinear_arith)
        requires
            a == magnitude(c),
    ;
    assert(p * p * (b * b) <= a * a < p * p * ((b + 1) * (b + 1))) by (nonlinear_arith)
        requires
            0 <= p * b <= a,
            a < p * (b + 1),
            b >= 0,
            p >= 1,
    {
        assert((p * b) * (p * b) <= a * a);
        assert(a * a < (p * (b + 1)) * (p * (b + 1)));
        assert((p * b) * (p * b) == p * p * (b * b));
        assert((p * (b + 1)) * (p * (b + 1)) == p * p * ((b + 1) * (b + 1)));
    }
}

/// A component of the vector of length one along a long vector lies within
/// two ticks of the same component of the true direction.
proof fn lemma_long_component(c: int, sc: int, p: int, len: int, square: int)
    requires
        p >= 1,
        is_quotient(sc, c, p),
        len >= 0x4000_0000,
        magnitude(sc) <= len,
        p * p * (len * len) <= square < p * p * ((len + 4) * (len + 4)),
    ensures
        within_two_ticks(toward_zero(sc * ONE, len), c, square),
{
    let u = toward_zero(sc * ONE, len);
    let v = magnitude(u);
    let b = magnitude(sc);
    let a = magnitude(c);
    let w = a * 65536;
    lemma_toward_zero(sc * ONE, len);
    assert(magnitude(sc * ONE) == b * 65536);
    assert((c * ONE) * (c * ONE) == w * w) by (nonlinear_arith)
        requires
            w == a * 65536,
            a == magnitude(c),
            ONE == 65536,
    ;
    assert(v <= 65536) by (nonlinear_arith)
        requires
            v * len <= b * 65536,
            b <= len,
            len > 0,
    {
        if v > 65536 {
            assert(v * len >= 65537 * len);
        }
    }
    // The dividend times one lies between the divisor times `v` lengths and
    // times `v + 2` lengths.
    let top = (v + 2) * (p * len);
    assert(w <= top) by (nonlinear_arith)
        requires
            w == a * 65536,
            a < p * (b + 1),
            b * 65536 < (v + 1) * len,
            top == (v + 2) * (p * len),
            p >= 1,
            len >= 0x4000_0000,
            v >= 0,
    {
        assert(a * 65536 <= (p * (b + 1) - 1) * 65536);
        assert(p * (b * 65536) <= p * ((v + 1) * len - 1));
    }
    assert(w * w <= (v + 2) * (v + 2) * square) by (nonlinear_arith)
        requires
            0 <= w <= top,
            top == (v + 2) * (p * len),
            p * p * (len * len) <= square,
            v >= 0,
    {
        assert(w * w <= top * top);
        assert(top * top == (v + 2) * (v + 2) * (p * p * (len * len)));
        assert((v + 2) * (v + 2) * (p * p * (len * len)) <= (v + 2) * (v + 2) * square);
    }
    if v >= 2 {
        let bottom = (v - 2) * (p * (len + 4));
        assert(bottom <= w) by (nonlinear_arith)
            requires
                w == a * 65536,
                p * b <= a,
                v * len <= b * 65536,
                bottom == (v - 2) * (p * (len + 4)),
                p >= 1,
                len >= 0x4000_0000,
                2 <= v <= 65536,
        {
            assert((v - 2) * (len + 4) <= v * len);
            assert(p * ((v - 2) * (len + 4)) <= p * (v * len));
            assert(p * (v * len) <= p * (b * 65536));
            assert(p * (b * 65536) <= a * 65536);
        }
        assert((v - 2) * (v - 2) * square <= w * w) by (nonlinear_arith)
            requires
                0 <= bottom <= w,
                bottom == (v - 2) * (p * (len + 4)),
                square < p * p * ((len + 4) * (len + 4)),
                v >= 2,
        {
            assert(bottom * bottom <= w * w);
            assert(bottom * bottom == (v - 2) * (v - 2) * (p * p * ((len + 4) * (len + 4))));
            assert((v - 2) * (v - 2) * square <= (v - 2) * (v - 2) * (p * p * ((len + 4) * (len
                + 4))));
        }
    }
}

/// Rounding turns the vector of length one by little: a vector `d` that
/// does not point along `n` points along the vector of length one by no
/// more than twice the sum of the sizes of its components, which is two
/// ticks for each unit of `d`.
pub proof fn the_unit_turns_by_little(d: Wide, n: Wide)
    requires
        dot(d, n) <= 0,
    ensures
        dot(d, widened(unit_of(n))) <= 2 * taxi(d),
{
    if reach(n) > 0 {
        let s = scaled(n);
        let len = length(s);
        let u = widened(unit_of(n));
        lemma_scaled_reach(n);
        lemma_scaled_length(s);
        lemma_scaled_turns(d, n);
        lemma_component_within_a_tick(s.x, s);
        lemma_component_within_a_tick(s.y, s);
        lemma_component_within_a_tick(s.z, s);
        lemma_component_turns(d.x, s.x, len);
        lemma_component_turns(d.y, s.y, len);
        lemma_component_turns(d.z, s.z, len);
        let e = dot(d, s);
        let t = taxi(d);
        let du = dot(d, u);
        let px = d.x * u.x * len;
        let py = d.y * u.y * len;
        let pz = d.z * u.z * len;
        assert(du * len == px + py + pz) by (nonlinear_arith)
            requires
                du == d.x * u.x + d.y * u.y + d.z * u.z,
                px == d.x * u.x * len,
                py == d.y * u.y * len,
                pz == d.z * u.z * len,
        ;
        let qx = d.x * (s.x * 65536);
        let qy = d.y * (s.y * 65536);
        let qz = d.z * (s.z * 65536);
        assert(65536 * e == qx + qy + qz) by (nonlinear_arith)
            requires
                e == d.x * s.x + d.y * s.y + d.z * s.z,
                qx == d.x * (s.x * 65536),
                qy == d.y * (s.y * 65536),
                qz == d.z * (s.z * 65536),
        ;
        let tx = magnitude(d.x) * len;
        let ty = magnitude(d.y) * len;
        let tz = magnitude(d.z) * len;
        assert(t * len == tx + ty + tz) by (nonlinear_arith)
            requires
                t == magnitude(d.x) + magnitude(d.y) + magnitude(d.z),
                tx == magnitude(d.x) * len,
                ty == magnitude(d.y) * len,
                tz == magnitude(d.z) * len,
        ;
        assert(px <= qx + tx && py <= qy + ty && pz <= qz + tz);
        assert(du * len <= 65536 * e + t * len);
        assert(du <= 2 * t) by (nonlinear_arith)
            requires
                du * len <= 65536 * e + t * len,
                e <= t,
                t >= 0,
                len >= 65536,
        {
            assert(65536 * e <= len * t);
            if du > 2 * t {
                assert(du * len >= (2 * t + 1) * len);
            }
        }
    }
}

/// The product of `d` with a rounded quotient, times the divisor, passes
/// the product with the dividend by no more than the size of `d` times the
/// divisor.
proof fn lemma_component_turns(d: int, c: int, len: int)
    requires
        len > 0,
    ensures
        d * toward_zero(c * ONE, len) * len <= d * (c * ONE) + magnitude(d) * len,
{
    let a = c * ONE;
    let u = toward_zero(a, len);
    lemma_toward_zero(a, len);
    let gap = u * len - a;
    assert(-len < gap < len) by (nonlinear_arith)
        requires
            gap == u * len - a,
            a >= 0 ==> u >= 0,
            a <= 0 ==> u <= 0,
            magnitude(u) * len <= magnitude(a) < (magnitude(u) + 1) * len,
            len > 0,
    ;
    assert(d * u * len == d * a + d * gap) by (nonlinear_arith)
        requires
            gap == u * len - a,
    ;
    assert(d * gap <= magnitude(d) * len) by (nonlinear_arith)
        requires
            -len < gap < len,
            len > 0,
    ;
}

/// The size of a number.
fn size_of(c: i128) -> (m: i128)
    requires
        c > i128::MIN,
    ensures
        m == magnitude(c as int),
{
    if c < 0 {
        -c
    } else {
        c
    }
}

/// The greatest size of three components.
fn greatest_size(x: i128, y: i128, z: i128) -> (m: i128)
    requires
        x > i128::MIN,
        y > i128::MIN,
        z > i128::MIN,
    ensures
        m == reach(Wide { x: x as int, y: y as int, z: z as int }),
{
    let a = size_of(x);
    let b = size_of(y);
    let c = size_of(z);
    if a >= b && a >= c {
        a
    } else if b >= c {
        b
    } else {
        c
    }
}

/// The quotient of `a` by a positive `b`, rounded towards nothing.
fn divide_toward_zero(a: i128, b: i128) -> (q: i128)
    requires
        b > 0,
        -0x4000_0000_0000_0000_0000_0000_0000_0000 <= a
            <= 0x4000_0000_0000_0000_0000_0000_0000_0000,
    ensures
        q == toward_zero(a as int, b as int),
{
    if a >= 0 {
        a / b
    } else {
        -((-a) / b)
    }
}

/// The vector of length one along the vector with the components `x`, `y`
/// and `z`.
pub fn unit_wide(x: i128, y: i128, z: i128) -> (unit: Vec3)
    requires
        -0x4_0000_0000_0000_0000 <= x <= 0x4_0000_0000_0000_0000,
        -0x4_0000_0000_0000_0000 <= y <= 0x4_0000_0000_0000_0000,
        -0x4_0000_0000_0000_0000 <= z <= 0x4_0000_0000_0000_0000,
    ensures
        unit == unit_of(Wide { x: x as int, y: y as int, z: z as int }),
{
    let ghost n = Wide { x: x as int, y: y as int, z: z as int };
    let mut sx = x;
    let mut sy = y;
    let mut sz = z;
    let mut m = greatest_size(sx, sy, sz);
    if m == 0 {
        return Vec3::new(0, 0, 0);
    }
    if m >= FAR {
        while m >= FAR
            invariant
                m == reach(Wide { x: sx as int, y: sy as int, z: sz as int }),
                0 < m <= 0x4_0000_0000_0000_0000,
                shrunk(Wide { x: sx as int, y: sy as int, z: sz as int }) == shrunk(n),
            decreases m,
        {
            sx = divide_toward_zero(sx, 2);
            sy = divide_toward_zero(sy, 2);
            sz = divide_toward_zero(sz, 2);
            m = greatest_size(sx, sy, sz);
        }
    } else {
        while m < NEAR
            invariant
                m == reach(Wide { x: sx as int, y: sy as int, z: sz as int }),
                0 < m < FAR,
                grown(Wide { x: sx as int, y: sy as int, z: sz as int }) == grown(n),
            decreases FAR - m,
        {
            proof {
                lemma_doubled_reach(Wide { x: sx as int, y: sy as int, z: sz as int });
            }
            sx = 2 * sx;
            sy = 2 * sy;
            sz = 2 * sz;
            m = greatest_size(sx, sy, sz);
        }
    }
    let ghost s = Wide { x: sx as int, y: sy as int, z: sz as int };
    proof {
        lemma_scaled_reach(n);
        assert(s == scaled(n));
        lemma_scaled_length(s);
        lemma_component_within_a_tick(s.x, s);
        lemma_component_within_a_tick(s.y, s);
        lemma_component_within_a_tick(s.z, s);
        assert(sx * sx <= 0x4000_0000_0000_0000 && sy * sy <= 0x4000_0000_0000_0000 && sz * sz
            <= 0x4000_0000_0000_0000 && sx * sx >= 0 && sy * sy >= 0 && sz * sz >= 0)
            by (nonlinear_arith)
            requires
                -0x8000_0000 <= sx <= 0x8000_0000,
                -0x8000_0000 <= sy <= 0x8000_0000,
                -0x8000_0000 <= sz <= 0x8000_0000,
        {
            assert((0x8000_0000 - sx) * (0x8000_0000 + sx) >= 0);
            assert((0x8000_0000 - sy) * (0x8000_0000 + sy) >= 0);
            assert((0x8000_0000 - sz) * (0x8000_0000 + sz) >= 0);
        }
    }
    let len = isqrt((sx * sx + sy * sy + sz * sz) as u128) as i128;
    Vec3 {
        x: divide_toward_zero(sx * 65536, len) as i32,
        y: divide_toward_zero(sy * 65536, len) as i32,
        z: divide_toward_zero(sz * 65536, len) as i32,
    }
}

} // verus!
