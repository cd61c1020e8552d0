//! Axis-aligned bounding boxes.

use vstd::prelude::*;

use crate::axis::Axis;
use crate::ray::Ray;
use crate::slab::{Bound, Interval};
use crate::vec3::{floor_div, Vec3, ONE};

verus! {

/// The extent of a box along each axis, wide enough for any two corners.
#[derive(Clone, Copy, Debug, PartialEq, Eq, Structural)]
pub struct Extent {
    pub x: i64,
    pub y: i64,
    pub z: i64,
}

/// An axis-aligned box, given by its two extreme corners.
///
/// A box with `minimum` above `maximum` on some axis holds no point; the
/// canonical such box is [`AABB::empty`].
#[derive(Clone, Copy, Debug, PartialEq, Eq, Structural)]
pub struct AABB {
    pub minimum: Vec3,
    pub maximum: Vec3,
}

/// The lesser of two coordinates.
pub open spec fn min_i32(a: i32, b: i32) -> i32 {
    if a <= b {
        a
    } else {
        b
    }
}

/// The greater of two coordinates.
pub open spec fn max_i32(a: i32, b: i32) -> i32 {
    if a >= b {
        a
    } else {
        b
    }
}

/// The lesser of two coordinates.
fn least(a: i32, b: i32) -> (m: i32)
    ensures
        m == min_i32(a, b),
{
    if a <= b { a } else { b }
}

/// The greater of two coordinates.
fn greatest(a: i32, b: i32) -> (m: i32)
    ensures
        m == max_i32(a, b),
{
    if a >= b { a } else { b }
}

/// The area of a face stays far inside the 128-bit range.
pub proof fn lemma_face_fits(a: int, b: int)
    requires
        -0x1_0000_0000 < a < 0x1_0000_0000,
        -0x1_0000_0000 < b < 0x1_0000_0000,
    ensures
        -0x1_0000_0000_0000_0000 < a * b < 0x1_0000_0000_0000_0000,
{
    assert(-0x1_0000_0000_0000_0000 < a * b < 0x1_0000_0000_0000_0000) by (nonlinear_arith)
        requires
            -0x1_0000_0000 < a < 0x1_0000_0000,
            -0x1_0000_0000 < b < 0x1_0000_0000,
    {
        assert((0x1_0000_0000 - a) * (0x1_0000_0000 - b) > 0);
        assert((0x1_0000_0000 + a) * (0x1_0000_0000 + b) > 0);
        assert((0x1_0000_0000 - a) * (0x1_0000_0000 + b) > 0);
        assert((0x1_0000_0000 + a) * (0x1_0000_0000 - b) > 0);
    }
}

impl AABB {
    /// The box that holds nothing and is the identity of [`AABB::join`]: its
    /// minimum is the top of the range on every axis, its maximum the bottom.
    pub open spec fn nothing() -> AABB {
        AABB {
            minimum: Vec3 { x: i32::MAX, y: i32::MAX, z: i32::MAX },
            maximum: Vec3 { x: i32::MIN, y: i32::MIN, z: i32::MIN },
        }
    }

    /// The smallest box around `self` and `other`.
    pub open spec fn union(self, other: AABB) -> AABB {
        AABB {
            minimum: Vec3 {
                x: min_i32(self.minimum.x, other.minimum.x),
                y: min_i32(self.minimum.y, other.minimum.y),
                z: min_i32(self.minimum.z, other.minimum.z),
            },
            maximum: Vec3 {
                x: max_i32(self.maximum.x, other.maximum.x),
                y: max_i32(self.maximum.y, other.maximum.y),
                z: max_i32(self.maximum.z, other.maximum.z),
            },
        }
    }

    /// The smallest box around `self` and the point `p`.
    pub open spec fn with_point(self, p: Vec3) -> AABB {
        self.union(AABB { minimum: p, maximum: p })
    }

    /// Whether `inner` lies within `self`, axis by axis.
    pub open spec fn encloses(self, inner: AABB) -> bool {
        &&& self.minimum.x <= inner.minimum.x
        &&& self.minimum.y <= inner.minimum.y
        &&& self.minimum.z <= inner.minimum.z
        &&& inner.maximum.x <= self.maximum.x
        &&& inner.maximum.y <= self.maximum.y
        &&& inner.maximum.z <= self.maximum.z
    }

    /// Whether the box has an inside: along every axis its maximum lies
    /// beyond its minimum.
    pub open spec fn inhabited(self) -> bool {
        &&& self.minimum.x < self.maximum.x
        &&& self.minimum.y < self.maximum.y
        &&& self.minimum.z < self.maximum.z
    }

    /// The extent of the box along `axis`: negative where the box is inverted.
    pub open spec fn extent(self, axis: Axis) -> int {
        self.maximum.along(axis) - self.minimum.along(axis)
    }

    /// The midpoint of the box along `axis`, rounded down.
    pub open spec fn middle(self, axis: Axis) -> int {
        self.minimum.along(axis) + self.extent(axis) / 2
    }

    /// The centre of the box: its midpoint along each axis.
    pub open spec fn centre(self) -> Vec3 {
        Vec3 {
            x: self.middle(Axis::X) as i32,
            y: self.middle(Axis::Y) as i32,
            z: self.middle(Axis::Z) as i32,
        }
    }

    /// The surface area of the box: twice the sum of the areas of its three
    /// distinct faces.
    pub open spec fn area(self) -> int {
        2 * (self.extent(Axis::X) * self.extent(Axis::Y) + self.extent(Axis::X) * self.extent(
            Axis::Z,
        ) + self.extent(Axis::Y) * self.extent(Axis::Z))
    }

    /// The axis along which the box is longest; among equally long axes the
    /// first in the order X, Y, Z.
    pub open spec fn widest(self) -> Axis {
        let sx = self.extent(Axis::X);
        let sy = self.extent(Axis::Y);
        let sz = self.extent(Axis::Z);
        if sx >= sy && sx >= sz {
            Axis::X
        } else if sy >= sz {
            Axis::Y
        } else {
            Axis::Z
        }
    }

    /// The parameters at which `r` lies strictly inside the box on `axis`.
    pub open spec fn slab(self, r: Ray, axis: Axis) -> Interval {
        Interval::slab(
            self.minimum.along(axis),
            self.maximum.along(axis),
            r.origin.along(axis),
            r.direction.along(axis),
        )
    }

    /// Whether `r` passes through the inside of the box at a parameter
    /// strictly between `t_min` and `t_max`, decided axis by axis: the
    /// parameter range and the three slab intervals overlap two by two.
    pub open spec fn crossed_within(self, r: Ray, t_min: i64, t_max: i64) -> bool {
        Interval::pairwise(
            Interval::range(t_min, t_max),
            self.slab(r, Axis::X),
            self.slab(r, Axis::Y),
            self.slab(r, Axis::Z),
        )
    }

    /// Whether the whole line of `r` passes through the inside of the box:
    /// the three slab intervals overlap two by two.
    pub open spec fn crossed(self, r: Ray) -> bool {
        Interval::pairwise(
            Interval::everything(),
            self.slab(r, Axis::X),
            self.slab(r, Axis::Y),
            self.slab(r, Axis::Z),
        )
    }

    /// The box with the corners `a` and `b`.
    pub fn new(a: Vec3, b: Vec3) -> (r: Self)
        ensures
            r.minimum == a,
            r.maximum == b,
    {
        Self { minimum: a, maximum: b }
    }

    /// The empty box.
    pub fn empty() -> (r: Self)
        ensures
            r == Self::nothing(),
    {
        Self {
            minimum: Vec3::new(i32::MAX, i32::MAX, i32::MAX),
            maximum: Vec3::new(i32::MIN, i32::MIN, i32::MIN),
        }
    }

    /// The extent of the box along each axis, `maximum - minimum`.
    pub fn size(&self) -> (s: Extent)
        ensures
            s.x == self.extent(Axis::X),
            s.y == self.extent(Axis::Y),
            s.z == self.extent(Axis::Z),
    {
        Extent {
            x: self.maximum.x as i64 - self.minimum.x as i64,
            y: self.maximum.y as i64 - self.minimum.y as i64,
            z: self.maximum.z as i64 - self.minimum.z as i64,
        }
    }

    /// The centre of the box, `minimum + size / 2` with the half rounded down.
    pub fn center(&self) -> (c: Vec3)
        ensures
            c == self.centre(),
            c.x == self.middle(Axis::X),
            c.y == self.middle(Axis::Y),
            c.z == self.middle(Axis::Z),
    {
        let s = self.size();
        Vec3::new(
            (self.minimum.x as i128 + floor_div(s.x as i128, 2)) as i32,
            (self.minimum.y as i128 + floor_div(s.y as i128, 2)) as i32,
            (self.minimum.z as i128 + floor_div(s.z as i128, 2)) as i32,
        )
    }

    /// Whether `r` passes through the inside of the box at a parameter
    /// strictly between `t_min` and `t_max`.
    pub fn hit(&self, r: &Ray, t_min: i64, t_max: i64) -> (b: bool)
        ensures
            b == self.crossed_within(*r, t_min, t_max),
    {
        self.hit_fast(r, t_min, t_max)
    }

    /// The slab test: narrows the parameter range by the slab interval of
    /// each axis in turn and reports whether anything is left.
    pub fn hit_fast(&self, r: &Ray, t_min: i64, t_max: i64) -> (b: bool)
        ensures
            b == self.crossed_within(*r, t_min, t_max),
    {
        let range = Interval {
            low: Bound::Finite { num: t_min, den: 1 },
            high: Bound::Finite { num: t_max, den: 1 },
        };
        let sx = Interval::for_axis(self.minimum.x, self.maximum.x, r.origin.x, r.direction.x);
        let sy = Interval::for_axis(self.minimum.y, self.maximum.y, r.origin.y, r.direction.y);
        let sz = Interval::for_axis(self.minimum.z, self.maximum.z, r.origin.z, r.direction.z);
        let left = range.intersect(sx).intersect(sy).intersect(sz);
        proof {
            Interval::lemma_meet_is_pairwise(range, sx, sy, sz);
        }
        left.low.is_below(&left.high)
    }

    /// The slab test on the whole line of the ray, with no parameter range.
    pub fn hit_faster(&self, r: &Ray) -> (b: bool)
        ensures
            b == self.crossed(*r),
    {
        let line = Interval { low: Bound::NegInf, high: Bound::PosInf };
        let sx = Interval::for_axis(self.minimum.x, self.maximum.x, r.origin.x, r.direction.x);
        let sy = Interval::for_axis(self.minimum.y, self.maximum.y, r.origin.y, r.direction.y);
        let sz = Interval::for_axis(self.minimum.z, self.maximum.z, r.origin.z, r.direction.z);
        let left = line.intersect(sx).intersect(sy).intersect(sz);
        proof {
            Interval::lemma_meet_is_pairwise(line, sx, sy, sz);
        }
        left.low.is_below(&left.high)
    }

    /// The smallest box around `self` and `box1`.
    pub fn join(self: &AABB, box1: &AABB) -> (r: AABB)
        ensures
            r == self.union(*box1),
    {
        let small = Vec3::new(
            least(self.minimum.x, box1.minimum.x),
            least(self.minimum.y, box1.minimum.y),
            least(self.minimum.z, box1.minimum.z),
        );
        let big = Vec3::new(
            greatest(self.maximum.x, box1.maximum.x),
            greatest(self.maximum.y, box1.maximum.y),
            greatest(self.maximum.z, box1.maximum.z),
        );
        AABB { minimum: small, maximum: big }
    }

    /// Widens `self` to the smallest box around itself and `other`.
    pub fn join_mut(&mut self, other: &AABB)
        ensures
            *final(self) == old(self).union(*other),
    {
        let joined = self.join(other);
        self.minimum = joined.minimum;
        self.maximum = joined.maximum;
    }

    /// The smallest box around `self` and the point `other`.
    pub fn grow(&self, other: &Vec3) -> (r: AABB)
        ensures
            r == self.with_point(*other),
    {
        AABB::new(
            Vec3::new(
                least(self.minimum.x, other.x),
                least(self.minimum.y, other.y),
                least(self.minimum.z, other.z),
            ),
            Vec3::new(
                greatest(self.maximum.x, other.x),
                greatest(self.maximum.y, other.y),
                greatest(self.maximum.z, other.z),
            ),
        )
    }

    /// Widens `self` to the smallest box around itself and the point `other`.
    pub fn grow_mut(&mut self, other: &Vec3)
        ensures
            *final(self) == old(self).with_point(*other),
    {
        let grown = self.grow(other);
        self.minimum = grown.minimum;
        self.maximum = grown.maximum;
    }

    /// The surface area of the box, `2 * (sx * sy + sx * sz + sy * sz)` over
    /// its extents.
    pub fn surface_area(&self) -> (a: i128)
        ensures
            a == self.area(),
            -0x8_0000_0000_0000_0000 < a < 0x8_0000_0000_0000_0000,
    {
        let size = self.size();
        proof {
            lemma_face_fits(size.x as int, size.y as int);
            lemma_face_fits(size.x as int, size.z as int);
            lemma_face_fits(size.y as int, size.z as int);
        }
        let xy: i128 = (size.x as i128) * (size.y as i128);
        let xz: i128 = (size.x as i128) * (size.z as i128);
        let yz: i128 = (size.y as i128) * (size.z as i128);
        2 * (xy + xz + yz)
    }

    /// The axis of greatest extent, the first of them where several tie.
    pub fn largest_axis(&self) -> (axis: Axis)
        ensures
            axis == self.widest(),
    {
        let size = self.size();
        if size.x >= size.y && size.x >= size.z {
            Axis::X
        } else if size.y >= size.z {
            Axis::Y
        } else {
            Axis::Z
        }
    }
}

/// The join of two boxes encloses both of them.
pub proof fn join_encloses_both(a: AABB, b: AABB)
    ensures
        a.union(b).encloses(a),
        a.union(b).encloses(b),
{
}

/// The join is the least box that encloses both: whatever encloses the two
/// encloses their join.
pub proof fn join_is_least(a: AABB, b: AABB, c: AABB)
    requires
        c.encloses(a),
        c.encloses(b),
    ensures
        c.encloses(a.union(b)),
{
}

/// Joining does not depend on the order of the two boxes.
pub proof fn join_commutes(a: AABB, b: AABB)
    ensures
        a.union(b) == b.union(a),
{
}

/// Joining three boxes does not depend on which two are joined first.
pub proof fn join_associates(a: AABB, b: AABB, c: AABB)
    ensures
        a.union(b).union(c) == a.union(b.union(c)),
{
}

/// The empty box is the identity of the join, on either side.
pub proof fn join_with_empty(a: AABB)
    ensures
        AABB::nothing().union(a) == a,
        a.union(AABB::nothing()) == a,
{
}

/// The join of a box with an inside and any other box has an inside.
pub proof fn join_keeps_an_inside(a: AABB, b: AABB)
    requires
        a.inhabited(),
    ensures
        a.union(b).inhabited(),
        b.union(a).inhabited(),
{
}

/// Growing a box by a point is joining it with the box that holds just that
/// point, and the result holds the point.
pub proof fn grow_holds_point(a: AABB, p: Vec3)
    ensures
        a.with_point(p).encloses(a),
        a.with_point(p).encloses(AABB { minimum: p, maximum: p }),
{
}

/// A wider slab is entered no later and left no sooner.
pub proof fn lemma_slab_widens(lo: i32, hi: i32, wide_lo: i32, wide_hi: i32, o: i32, d: i32)
    requires
        wide_lo <= lo,
        hi <= wide_hi,
    ensures
        !Interval::slab(lo, hi, o, d).low.below(Interval::slab(wide_lo, wide_hi, o, d).low),
        !Interval::slab(wide_lo, wide_hi, o, d).high.below(Interval::slab(lo, hi, o, d).high),
{
    if d > 0 {
        assert((wide_lo - o) * 65536 * d <= (lo - o) * 65536 * d) by (nonlinear_arith)
            requires
                wide_lo <= lo,
                d > 0,
        ;
        assert((hi - o) * 65536 * d <= (wide_hi - o) * 65536 * d) by (nonlinear_arith)
            requires
                hi <= wide_hi,
                d > 0,
        ;
    } else if d < 0 {
        assert((o - wide_hi) * 65536 * (-d) <= (o - hi) * 65536 * (-d)) by (nonlinear_arith)
            requires
                hi <= wide_hi,
                d < 0,
        ;
        assert((o - lo) * 65536 * (-d) <= (o - wide_lo) * 65536 * (-d)) by (nonlinear_arith)
            requires
                wide_lo <= lo,
                d < 0,
        ;
    }
}

/// Overlap two by two survives widening each interval.
pub proof fn lemma_pairwise_widens(
    a: Interval,
    b: Interval,
    c: Interval,
    d: Interval,
    wa: Interval,
    wb: Interval,
    wc: Interval,
    wd: Interval,
)
    requires
        a.wf() && b.wf() && c.wf() && d.wf(),
        wa.wf() && wb.wf() && wc.wf() && wd.wf(),
        !a.low.below(wa.low) && !wa.high.below(a.high),
        !b.low.below(wb.low) && !wb.high.below(b.high),
        !c.low.below(wc.low) && !wc.high.below(c.high),
        !d.low.below(wd.low) && !wd.high.below(d.high),
        Interval::pairwise(a, b, c, d),
    ensures
        Interval::pairwise(wa, wb, wc, wd),
{
    let narrow = seq![a, b, c, d];
    let wide = seq![wa, wb, wc, wd];
    assert forall|i: int, j: int| 0 <= i < 4 && 0 <= j < 4 implies (#[trigger] wide[i]).low.below(
        (#[trigger] wide[j]).high,
    ) by {
        assert(narrow[i].low.below(narrow[j].high));
        Bound::lemma_not_above_then_below(wide[i].low, narrow[i].low, narrow[j].high);
        Bound::lemma_below_then_not_above(wide[i].low, narrow[j].high, wide[j].high);
    }
}

/// A ray that passes through a box within a parameter range passes through
/// every box that encloses it, within every wider range.
pub proof fn crossing_widens(
    inner: AABB,
    outer: AABB,
    r: Ray,
    t_min: i64,
    t_max: i64,
    wide_min: i64,
    wide_max: i64,
)
    requires
        outer.encloses(inner),
        wide_min <= t_min,
        t_max <= wide_max,
        inner.crossed_within(r, t_min, t_max),
    ensures
        outer.crossed_within(r, wide_min, wide_max),
        outer.crossed(r),
{
    lemma_slab_widens(
        inner.minimum.x,
        inner.maximum.x,
        outer.minimum.x,
        outer.maximum.x,
        r.origin.x,
        r.direction.x,
    );
    lemma_slab_widens(
        inner.minimum.y,
        inner.maximum.y,
        outer.minimum.y,
        outer.maximum.y,
        r.origin.y,
        r.direction.y,
    );
    lemma_slab_widens(
        inner.minimum.z,
        inner.maximum.z,
        outer.minimum.z,
        outer.maximum.z,
        r.origin.z,
        r.direction.z,
    );
    let narrow = Interval::range(t_min, t_max);
    let wide = Interval::range(wide_min, wide_max);
    lemma_pairwise_widens(
        Interval::range(t_min, t_max),
        inner.slab(r, Axis::X),
        inner.slab(r, Axis::Y),
        inner.slab(r, Axis::Z),
        Interval::range(wide_min, wide_max),
        outer.slab(r, Axis::X),
        outer.slab(r, Axis::Y),
        outer.slab(r, Axis::Z),
    );
    lemma_pairwise_widens(
        Interval::range(t_min, t_max),
        inner.slab(r, Axis::X),
        inner.slab(r, Axis::Y),
        inner.slab(r, Axis::Z),
        Interval::everything(),
        outer.slab(r, Axis::X),
        outer.slab(r, Axis::Y),
        outer.slab(r, Axis::Z),
    );
}

/// A line that passes through a box passes through every box that encloses
/// it.
pub proof fn line_crossing_widens(inner: AABB, outer: AABB, r: Ray)
    requires
        outer.encloses(inner),
        inner.crossed(r),
    ensures
        outer.crossed(r),
{
    lemma_slab_widens(
        inner.minimum.x,
        inner.maximum.x,
        outer.minimum.x,
        outer.maximum.x,
        r.origin.x,
        r.direction.x,
    );
    lemma_slab_widens(
        inner.minimum.y,
        inner.maximum.y,
        outer.minimum.y,
        outer.maximum.y,
        r.origin.y,
        r.direction.y,
    );
    lemma_slab_widens(
        inner.minimum.z,
        inner.maximum.z,
        outer.minimum.z,
        outer.maximum.z,
        r.origin.z,
        r.direction.z,
    );
    lemma_pairwise_widens(
        Interval::everything(),
        inner.slab(r, Axis::X),
        inner.slab(r, Axis::Y),
        inner.slab(r, Axis::Z),
        Interval::everything(),
        outer.slab(r, Axis::X),
        outer.slab(r, Axis::Y),
        outer.slab(r, Axis::Z),
    );
}

/// Whether a ray with origin `o` and direction `d` on one axis lies, at the
/// parameter `n / m`, strictly between `lo` and `hi` on that axis. The
/// position at that parameter is `o + d * (n / m) / ONE`; the comparison is
/// made after multiplying through by `ONE * m`.
pub open spec fn between_at(lo: i32, hi: i32, o: i32, d: i32, n: int, m: int) -> bool {
    lo * ONE * m < o * ONE * m + d * n < hi * ONE * m
}

/// At a parameter at which the ray lies strictly between the two faces of a
/// slab, the interval of the slab holds that parameter.
pub proof fn lemma_slab_holds(lo: i32, hi: i32, o: i32, d: i32, n: int, m: int)
    requires
        m > 0,
        between_at(lo, hi, o, d, n, m),
    ensures
        Interval::slab(lo, hi, o, d).holds(n, m),
        Interval::slab(lo, hi, o, d).wf(),
{
    let s = Interval::slab(lo, hi, o, d);
    if d > 0 {
        assert(((lo - o) * 65536) * m < n * d && n * d < ((hi - o) * 65536) * m)
            by (nonlinear_arith)
            requires
                lo * 65536 * m < o * 65536 * m + d * n < hi * 65536 * m,
        ;
    } else if d < 0 {
        assert(((o - hi) * 65536) * m < n * (-d) && n * (-d) < ((o - lo) * 65536) * m)
            by (nonlinear_arith)
            requires
                lo * 65536 * m < o * 65536 * m + d * n < hi * 65536 * m,
        ;
    } else {
        assert(lo < o < hi) by (nonlinear_arith)
            requires
                lo * 65536 * m < o * 65536 * m + d * n < hi * 65536 * m,
                d == 0,
                m > 0,
        ;
    }
}

/// The slab test misses no crossing: a ray that lies strictly inside the
/// box at some parameter `n / m` strictly between `t_min` and `t_max`
/// passes the test for that range, and its line passes the test without a
/// range.
pub proof fn a_point_inside_is_a_crossing(b: AABB, r: Ray, t_min: i64, t_max: i64, n: int, m: int)
    requires
        m > 0,
        t_min * m < n < t_max * m,
        between_at(b.minimum.x, b.maximum.x, r.origin.x, r.direction.x, n, m),
        between_at(b.minimum.y, b.maximum.y, r.origin.y, r.direction.y, n, m),
        between_at(b.minimum.z, b.maximum.z, r.origin.z, r.direction.z, n, m),
    ensures
        b.crossed_within(r, t_min, t_max),
        b.crossed(r),
{
    lemma_slab_holds(b.minimum.x, b.maximum.x, r.origin.x, r.direction.x, n, m);
    lemma_slab_holds(b.minimum.y, b.maximum.y, r.origin.y, r.direction.y, n, m);
    lemma_slab_holds(b.minimum.z, b.maximum.z, r.origin.z, r.direction.z, n, m);
    Interval::lemma_common_parameter(
        Interval::range(t_min, t_max),
        b.slab(r, Axis::X),
        b.slab(r, Axis::Y),
        b.slab(r, Axis::Z),
        n,
        m,
    );
    Interval::lemma_common_parameter(
        Interval::everything(),
        b.slab(r, Axis::X),
        b.slab(r, Axis::Y),
        b.slab(r, Axis::Z),
        n,
        m,
    );
}

/// A slab whose interval holds a parameter has the ray strictly between its
/// two faces at that parameter.
pub proof fn lemma_slab_held(lo: i32, hi: i32, o: i32, d: i32, n: int, m: int)
    requires
        m > 0,
        Interval::slab(lo, hi, o, d).holds(n, m),
    ensures
        between_at(lo, hi, o, d, n, m),
{
    if d > 0 {
        assert(lo * 65536 * m < o * 65536 * m + d * n < hi * 65536 * m) by (nonlinear_arith)
            requires
                ((lo - o) * 65536) * m < n * d,
                n * d < ((hi - o) * 65536) * m,
        ;
    } else if d < 0 {
        assert(lo * 65536 * m < o * 65536 * m + d * n < hi * 65536 * m) by (nonlinear_arith)
            requires
                ((o - hi) * 65536) * m < n * (-d),
                n * (-d) < ((o - lo) * 65536) * m,
        ;
    } else {
        assert(lo * 65536 * m < o * 65536 * m + d * n < hi * 65536 * m) by (nonlinear_arith)
            requires
                lo < o < hi,
                d == 0,
                m > 0,
        ;
    }
}

/// The slab test reports no crossing that is none: where a ray passes the
/// test for a range, there is a parameter `n / m` strictly between `t_min`
/// and `t_max` at which the ray lies strictly inside the box.
pub proof fn a_crossing_has_a_point_inside(b: AABB, r: Ray, t_min: i64, t_max: i64) -> (at: (
    int,
    int,
))
    requires
        b.crossed_within(r, t_min, t_max),
    ensures
        at.1 > 0,
        t_min * at.1 < at.0 < t_max * at.1,
        between_at(b.minimum.x, b.maximum.x, r.origin.x, r.direction.x, at.0, at.1),
        between_at(b.minimum.y, b.maximum.y, r.origin.y, r.direction.y, at.0, at.1),
        between_at(b.minimum.z, b.maximum.z, r.origin.z, r.direction.z, at.0, at.1),
{
    let range = Interval::range(t_min, t_max);
    let sx = b.slab(r, Axis::X);
    let sy = b.slab(r, Axis::Y);
    let sz = b.slab(r, Axis::Z);
    let left = range.meet(sx).meet(sy).meet(sz);
    Interval::lemma_meet_is_pairwise(range, sx, sy, sz);
    Interval::lemma_meet_lies_within(range, sx, sy, sz);
    // The part that is left lies within the range, so both its ends are
    // finite.
    assert(left.low.below(left.high));
    assert(left.low is Finite);
    assert(left.high is Finite);
    let n = left.low->num * left.high->den + left.high->num * left.low->den;
    let m = 2 * left.low->den * left.high->den;
    Bound::lemma_mean_lies_between(left.low, left.high);

    Bound::lemma_not_above_then_before(left.low, range.low, n, m);
    Bound::lemma_not_above_then_before(left.low, sx.low, n, m);
    Bound::lemma_not_above_then_before(left.low, sy.low, n, m);
    Bound::lemma_not_above_then_before(left.low, sz.low, n, m);
    Bound::lemma_not_below_then_after(left.high, range.high, n, m);
    Bound::lemma_not_below_then_after(left.high, sx.high, n, m);
    Bound::lemma_not_below_then_after(left.high, sy.high, n, m);
    Bound::lemma_not_below_then_after(left.high, sz.high, n, m);

    lemma_slab_held(b.minimum.x, b.maximum.x, r.origin.x, r.direction.x, n, m);
    lemma_slab_held(b.minimum.y, b.maximum.y, r.origin.y, r.direction.y, n, m);
    lemma_slab_held(b.minimum.z, b.maximum.z, r.origin.z, r.direction.z, n, m);
    (n, m)
}

/// A slab without an inside, its far face not beyond its near face, holds
/// the ray at no parameter.
pub proof fn lemma_thin_slab_is_empty(lo: i32, hi: i32, o: i32, d: i32)
    requires
        hi <= lo,
    ensures
        !Interval::slab(lo, hi, o, d).inhabited(),
{
    if d > 0 {
        assert(((lo - o) * ONE) * d >= ((hi - o) * ONE) * d) by (nonlinear_arith)
            requires
                hi <= lo,
                d > 0,
        ;
    } else if d < 0 {
        assert(((o - hi) * ONE) * (-d) >= ((o - lo) * ONE) * (-d)) by (nonlinear_arith)
            requires
                hi <= lo,
                d < 0,
        ;
    }
}

/// A box without an inside is never hit: where the box is flat or inverted
/// along some axis, no ray passes through it.
pub proof fn a_box_without_inside_is_never_crossed(b: AABB, r: Ray, t_min: i64, t_max: i64)
    requires
        !b.inhabited(),
    ensures
        !b.crossed_within(r, t_min, t_max),
        !b.crossed(r),
{
    let sx = b.slab(r, Axis::X);
    let sy = b.slab(r, Axis::Y);
    let sz = b.slab(r, Axis::Z);
    let bounded = seq![Interval::range(t_min, t_max), sx, sy, sz];
    let line = seq![Interval::everything(), sx, sy, sz];
    if b.extent(Axis::X) <= 0 {
        lemma_thin_slab_is_empty(b.minimum.x, b.maximum.x, r.origin.x, r.direction.x);
        assert(bounded[1] == sx && line[1] == sx);
    } else if b.extent(Axis::Y) <= 0 {
        lemma_thin_slab_is_empty(b.minimum.y, b.maximum.y, r.origin.y, r.direction.y);
        assert(bounded[2] == sy && line[2] == sy);
    } else {
        lemma_thin_slab_is_empty(b.minimum.z, b.maximum.z, r.origin.z, r.direction.z);
        assert(bounded[3] == sz && line[3] == sz);
    }
}

/// No ray passes through the empty box.
pub proof fn empty_is_never_crossed(r: Ray, t_min: i64, t_max: i64)
    ensures
        !AABB::nothing().crossed_within(r, t_min, t_max),
        !AABB::nothing().crossed(r),
{
    a_box_without_inside_is_never_crossed(AABB::nothing(), r, t_min, t_max);
}

} // verus!
