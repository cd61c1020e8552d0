//! Primitives: the triangle.

use std::sync::Arc;
use vstd::prelude::*;

use crate::aabb::{
    a_box_without_inside_is_never_crossed, a_point_inside_is_a_crossing, between_at,
    crossing_widens, max_i32, min_i32, AABB,
};
use crate::hittable::{cut, obeys_hit_laws_at, Hittable};
use crate::ray::{HitRecord, Ray};
use crate::direction::{
    dot, reach, taxi, the_unit_is_within_a_tick, the_unit_is_within_two_ticks,
    the_unit_turns_by_little, unit_of, unit_wide, widened, within_two_ticks, Wide,
};
use crate::vec3::{floor_div, lemma_quotient_between, Vec3, ONE};

verus! {

/// A triangle with a shared material. It is seen from the side on which its
/// corners run counter-clockwise.
pub struct Triangle<T> {
    pub vertex0: Vec3,
    pub vertex1: Vec3,
    pub vertex2: Vec3,
    pub material: Arc<T>,
}

/// The least determinant at which a ray counts as not parallel to a
/// triangle: two to the minus twenty-third of a cubic unit.
pub const LEAST_DETERMINANT: i128 = 0x200_0000;

/// The difference of two points.
pub open spec fn apart(a: Vec3, b: Vec3) -> Wide {
    Wide { x: a.x - b.x, y: a.y - b.y, z: a.z - b.z }
}

/// The cross product.
pub open spec fn cross(a: Wide, b: Wide) -> Wide {
    Wide { x: a.y * b.z - a.z * b.y, y: a.z * b.x - a.x * b.z, z: a.x * b.y - a.y * b.x }
}

/// The nearest `i64` to `v`.
pub open spec fn clamp_i64(v: int) -> i64 {
    if v < i64::MIN {
        i64::MIN
    } else if v > i64::MAX {
        i64::MAX
    } else {
        v as i64
    }
}

/// A vector of wide machine numbers.
#[derive(Clone, Copy)]
struct Wide128 {
    x: i128,
    y: i128,
    z: i128,
}

impl Wide128 {
    spec fn view(self) -> Wide {
        Wide { x: self.x as int, y: self.y as int, z: self.z as int }
    }

    spec fn within(self, bound: int) -> bool {
        &&& -bound <= self.x <= bound
        &&& -bound <= self.y <= bound
        &&& -bound <= self.z <= bound
    }
}

proof fn lemma_product_within(a: int, b: int, bound_a: int, bound_b: int)
    requires
        -bound_a <= a <= bound_a,
        -bound_b <= b <= bound_b,
    ensures
        -(bound_a * bound_b) <= a * b <= bound_a * bound_b,
{
    assert(-(bound_a * bound_b) <= a * b <= bound_a * bound_b) by (nonlinear_arith)
        requires
            -bound_a <= a <= bound_a,
            -bound_b <= b <= bound_b,
    {
        assert((bound_a - a) * (bound_b - b) >= 0);
        assert((bound_a + a) * (bound_b + b) >= 0);
        assert((bound_a - a) * (bound_b + b) >= 0);
        assert((bound_a + a) * (bound_b - b) >= 0);
    }
}

fn difference(a: Vec3, b: Vec3) -> (d: Wide128)
    ensures
        d@ == apart(a, b),
        d.within(0x1_0000_0000),
{
    Wide128 {
        x: a.x as i128 - b.x as i128,
        y: a.y as i128 - b.y as i128,
        z: a.z as i128 - b.z as i128,
    }
}

fn wide(a: Vec3) -> (w: Wide128)
    ensures
        w@ == widened(a),
        w.within(0x1_0000_0000),
{
    Wide128 { x: a.x as i128, y: a.y as i128, z: a.z as i128 }
}

/// The cross product of two vectors of at most 33 bits a component.
fn cross_product(a: Wide128, b: Wide128) -> (c: Wide128)
    requires
        a.within(0x1_0000_0000),
        b.within(0x1_0000_0000),
    ensures
        c@ == cross(a@, b@),
        c.within(0x2_0000_0000_0000_0000),
{
    proof {
        lemma_product_within(a.y as int, b.z as int, 0x1_0000_0000, 0x1_0000_0000);
        lemma_product_within(a.z as int, b.y as int, 0x1_0000_0000, 0x1_0000_0000);
        lemma_product_within(a.z as int, b.x as int, 0x1_0000_0000, 0x1_0000_0000);
        lemma_product_within(a.x as int, b.z as int, 0x1_0000_0000, 0x1_0000_0000);
        lemma_product_within(a.x as int, b.y as int, 0x1_0000_0000, 0x1_0000_0000);
        lemma_product_within(a.y as int, b.x as int, 0x1_0000_0000, 0x1_0000_0000);
    }
    Wide128 {
        x: a.y * b.z - a.z * b.y,
        y: a.z * b.x - a.x * b.z,
        z: a.x * b.y - a.y * b.x,
    }
}

/// The dot product of a vector of at most 33 bits a component with one of
/// at most 66.
fn dot_product(a: Wide128, b: Wide128) -> (d: i128)
    requires
        a.within(0x1_0000_0000),
        b.within(0x2_0000_0000_0000_0000),
    ensures
        d == dot(a@, b@),
        -0x6_0000_0000_0000_0000_0000_0000 <= d <= 0x6_0000_0000_0000_0000_0000_0000,
{
    proof {
        lemma_product_within(a.x as int, b.x as int, 0x1_0000_0000, 0x2_0000_0000_0000_0000);
        lemma_product_within(a.y as int, b.y as int, 0x1_0000_0000, 0x2_0000_0000_0000_0000);
        lemma_product_within(a.z as int, b.z as int, 0x1_0000_0000, 0x2_0000_0000_0000_0000);
    }
    a.x * b.x + a.y * b.y + a.z * b.z
}

/// Narrows a wide number to 64 bits, saturating.
fn saturate_i64(v: i128) -> (r: i64)
    ensures
        r == clamp_i64(v as int),
{
    if v < -0x8000_0000_0000_0000 {
        i64::MIN
    } else if v > 0x7fff_ffff_ffff_ffff {
        i64::MAX
    } else {
        v as i64
    }
}

/// The triple product changes its sign when two of its vectors change
/// places: the determinant of a ray against a triangle is the product of the
/// ray's direction with the triangle's normal, turned round.
pub proof fn lemma_determinant_is_against_the_normal(e1: Wide, e2: Wide, d: Wide)
    ensures
        dot(e1, cross(d, e2)) == -dot(d, cross(e1, e2)),
{
    lemma_spread_out(e1.x, d.y, e2.z, d.z, e2.y);
    lemma_spread_out(e1.y, d.z, e2.x, d.x, e2.z);
    lemma_spread_out(e1.z, d.x, e2.y, d.y, e2.x);
    lemma_spread_out(d.x, e1.y, e2.z, e1.z, e2.y);
    lemma_spread_out(d.y, e1.z, e2.x, e1.x, e2.z);
    lemma_spread_out(d.z, e1.x, e2.y, e1.y, e2.x);
    lemma_in_any_order(e1.x, d.y, e2.z);
    lemma_in_any_order(e1.x, d.z, e2.y);
    lemma_in_any_order(e1.y, d.z, e2.x);
    lemma_in_any_order(e1.y, d.x, e2.z);
    lemma_in_any_order(e1.z, d.x, e2.y);
    lemma_in_any_order(e1.z, d.y, e2.x);
}

/// A product of a number with a difference of two products, written out.
proof fn lemma_spread_out(a: int, p: int, q: int, r: int, s: int)
    ensures
        a * (p * q - r * s) == a * p * q - a * r * s,
{
    assert(a * (p * q - r * s) == a * p * q - a * r * s) by (nonlinear_arith);
}

/// A product of three numbers with the first two in either order.
proof fn lemma_in_any_order(a: int, b: int, c: int)
    ensures
        a * b * c == b * a * c,
{
    assert(a * b * c == b * a * c) by (nonlinear_arith);
}

/// Calls `Arc::clone`, which hands out another pointer to the same value.
#[verifier::external_body]
fn shared<T>(a: &Arc<T>) -> (b: Arc<T>)
    ensures
        b == *a,
{
    a.clone()
}

impl<T> Triangle<T> {
    /// The hit of the ray on the triangle, if the ray comes from the front
    /// and is not parallel to it, passes between its three edges, and does
    /// so at a parameter above `t_min` and not above `t_max`.
    ///
    /// With the edges `e1` and `e2` from the first corner, `p = d x e2` for
    /// the direction `d`, the determinant `det = e1 . p`, the origin seen
    /// from the first corner `s` and `q = s x e1`, the hit has the surface
    /// coordinates `u = (s . p) / det` and `v = (d . q) / det` and the
    /// parameter `t = (e2 . q) / det`.
    pub open spec fn meets(self, r: Ray, t_min: i64, t_max: i64) -> Option<HitRecord<Arc<T>>> {
        let edge1 = apart(self.vertex1, self.vertex0);
        let edge2 = apart(self.vertex2, self.vertex0);
        let d = widened(r.direction);
        let pvec = cross(d, edge2);
        let det = dot(edge1, pvec);
        let tvec = apart(r.origin, self.vertex0);
        let u = dot(tvec, pvec);
        let qvec = cross(tvec, edge1);
        let v = dot(d, qvec);
        let t = clamp_i64((dot(edge2, qvec) * ONE) / det);
        if det < LEAST_DETERMINANT || u < 0 || u > det || v < 0 || u + v > det || t <= t_min || t
            > t_max {
            None
        } else {
            Some(
                HitRecord {
                    p: r.point(t),
                    normal: unit_of(cross(edge1, edge2)),
                    t,
                    u: ((u * ONE) / det) as i32,
                    v: ((v * ONE) / det) as i32,
                    front_face: true,
                    material: self.material,
                },
            )
        }
    }
}

/// The normal of a hit on a triangle is a vector of length one across the
/// triangle, turned against the ray:
/// - it is not the zero vector, and no component of it passes one;
/// - each component lies within two ticks of the same component of the true
///   direction of the cross product of the two edges;
/// - the ray's direction points along it by no more than twice the sum of the
///   sizes of the direction's components, which is what rounding may add
///   for a ray that grazes the triangle.
pub proof fn the_normal_faces_the_ray<T>(triangle: Triangle<T>, r: Ray, t_min: i64, t_max: i64)
    requires
        triangle.meets(r, t_min, t_max) is Some,
    ensures
        ({
            let normal = triangle.meets(r, t_min, t_max)->0.normal;
            let across = cross(
                apart(triangle.vertex1, triangle.vertex0),
                apart(triangle.vertex2, triangle.vertex0),
            );
            &&& normal != Vec3::zero()
            &&& ONE / 2 <= reach(widened(normal)) <= ONE
            &&& within_two_ticks(normal.x as int, across.x, dot(across, across))
            &&& within_two_ticks(normal.y as int, across.y, dot(across, across))
            &&& within_two_ticks(normal.z as int, across.z, dot(across, across))
            &&& dot(widened(r.direction), widened(normal)) <= 2 * taxi(widened(r.direction))
        }),
{
    let edge1 = apart(triangle.vertex1, triangle.vertex0);
    let edge2 = apart(triangle.vertex2, triangle.vertex0);
    let d = widened(r.direction);
    let across = cross(edge1, edge2);
    lemma_determinant_is_against_the_normal(edge1, edge2, d);
    // The determinant is above nothing, so the cross product is not zero.
    assert(reach(across) > 0) by {
        if reach(across) == 0 {
            assert(across.x == 0 && across.y == 0 && across.z == 0);
            assert(dot(d, across) == 0) by (nonlinear_arith)
                requires
                    across.x == 0 && across.y == 0 && across.z == 0,
                    dot(d, across) == d.x * across.x + d.y * across.y + d.z * across.z,
            ;
        }
    }
    the_unit_is_within_a_tick(across);
    the_unit_is_within_two_ticks(across);
    the_unit_turns_by_little(d, across);
}

impl<T> Hittable for Triangle<T> {
    type Surface = Arc<T>;

    open spec fn struck(&self, r: Ray, t_min: i64, t_max: i64) -> Option<HitRecord<Arc<T>>> {
        self.meets(r, t_min, t_max)
    }

    /// The box from the least to the greatest coordinate of the corners.
    open spec fn bounds(&self) -> AABB {
        AABB {
            minimum: Vec3 {
                x: min_i32(self.vertex0.x, min_i32(self.vertex1.x, self.vertex2.x)),
                y: min_i32(self.vertex0.y, min_i32(self.vertex1.y, self.vertex2.y)),
                z: min_i32(self.vertex0.z, min_i32(self.vertex1.z, self.vertex2.z)),
            },
            maximum: Vec3 {
                x: max_i32(self.vertex0.x, max_i32(self.vertex1.x, self.vertex2.x)),
                y: max_i32(self.vertex0.y, max_i32(self.vertex1.y, self.vertex2.y)),
                z: max_i32(self.vertex0.z, max_i32(self.vertex1.z, self.vertex2.z)),
            },
        }
    }

    fn hit(&self, r: &Ray, t_min: i64, t_max: i64) -> (rec: Option<HitRecord<Arc<T>>>)
        ensures
            rec matches Some(h) ==> {
                let across = cross(
                    apart(self.vertex1, self.vertex0),
                    apart(self.vertex2, self.vertex0),
                );
                &&& h.normal != Vec3::zero()
                &&& ONE / 2 <= reach(widened(h.normal)) <= ONE
                &&& within_two_ticks(h.normal.x as int, across.x, dot(across, across))
                &&& within_two_ticks(h.normal.y as int, across.y, dot(across, across))
                &&& within_two_ticks(h.normal.z as int, across.z, dot(across, across))
                &&& dot(widened(r.direction), widened(h.normal)) <= 2 * taxi(
                    widened(r.direction),
                )
            },
    {
        proof {
            if self.meets(*r, t_min, t_max) is Some {
                the_normal_faces_the_ray(*self, *r, t_min, t_max);
            }
        }
        let edge1 = difference(self.vertex1, self.vertex0);
        let edge2 = difference(self.vertex2, self.vertex0);
        let d = wide(r.direction);

        let normal = cross_product(edge1, edge2);

        let pvec = cross_product(d, edge2);

        let det = dot_product(edge1, pvec);
        if det < LEAST_DETERMINANT {
            // Parallel to the ray, or seen from behind.
            return None;
        }
        let tvec = difference(r.origin, self.vertex0);

        let u = dot_product(tvec, pvec);
        if u < 0 || u > det {
            // Not between the edges of the triangle.
            return None;
        }
        let qvec = cross_product(tvec, edge1);

        let v = dot_product(d, qvec);
        if v < 0 || u + v > det {
            // Not between the edges of the triangle.
            return None;
        }
        let t = saturate_i64(floor_div(dot_product(edge2, qvec) * 65536, det));
        if t <= t_min || t > t_max {
            return None;
        }
        proof {
            assert(0 <= u * 65536 < (65536 + 1) * det) by (nonlinear_arith)
                requires
                    0 <= u <= det,
                    det > 0,
            ;
            assert(0 <= v * 65536 < (65536 + 1) * det) by (nonlinear_arith)
                requires
                    0 <= v <= det,
                    det > 0,
            ;
            lemma_quotient_between(u * 65536, det as int, 0, 65536);
            lemma_quotient_between(v * 65536, det as int, 0, 65536);
        }
        Some(
            HitRecord {
                front_face: true,
                u: floor_div(u * 65536, det) as i32,
                v: floor_div(v * 65536, det) as i32,
                p: r.at(t),
                t,
                normal: unit_wide(normal.x, normal.y, normal.z),
                material: shared(&self.material),
            },
        )
    }

    fn bounding_box(&self) -> (b: AABB) {
        let minimum = lowest(self.vertex0, lowest(self.vertex1, self.vertex2));
        let maximum = highest(self.vertex0, highest(self.vertex1, self.vertex2));

        AABB::new(minimum, maximum)
    }
}

/// The least of each component of two points.
fn lowest(a: Vec3, b: Vec3) -> (m: Vec3)
    ensures
        m == (Vec3 { x: min_i32(a.x, b.x), y: min_i32(a.y, b.y), z: min_i32(a.z, b.z) }),
{
    Vec3 {
        x: if a.x <= b.x { a.x } else { b.x },
        y: if a.y <= b.y { a.y } else { b.y },
        z: if a.z <= b.z { a.z } else { b.z },
    }
}

/// The greatest of each component of two points.
fn highest(a: Vec3, b: Vec3) -> (m: Vec3)
    ensures
        m == (Vec3 { x: max_i32(a.x, b.x), y: max_i32(a.y, b.y), z: max_i32(a.z, b.z) }),
{
    Vec3 {
        x: if a.x >= b.x { a.x } else { b.x },
        y: if a.y >= b.y { a.y } else { b.y },
        z: if a.z >= b.z { a.z } else { b.z },
    }
}

/// For which rays a triangle obeys the laws of a surface: for a ray and a
/// lower limit on which it is missed, and for those on which it is hit at a
/// parameter up to which the ray passes through its box; for no others. The
/// first two laws hold of every ray; the box decides.
pub proof fn a_triangle_obeys_where_its_box_is_crossed<T>(triangle: Triangle<T>, r: Ray, t_min: i64)
    ensures
        obeys_hit_laws_at(triangle, r, t_min) <==> (triangle.meets(r, t_min, i64::MAX) matches Some(
            h,
        ) ==> triangle.bounds().crossed_within(r, t_min, h.t)),
{
    let beyond = triangle.meets(r, t_min, i64::MAX);
    if obeys_hit_laws_at(triangle, r, t_min) {
        if beyond is Some {
            let h = beyond->0;
            assert(triangle.struck(r, t_min, h.t) == cut(triangle.struck(r, t_min, i64::MAX), h.t));
        }
    }
    if beyond matches Some(h) ==> triangle.bounds().crossed_within(r, t_min, h.t) {
        assert forall|t_max: i64|
            {
                &&& #[trigger] triangle.struck(r, t_min, t_max) == cut(
                    triangle.struck(r, t_min, i64::MAX),
                    t_max,
                )
                &&& triangle.struck(r, t_min, t_max) matches Some(h) ==> {
                    &&& t_min < h.t <= t_max
                    &&& triangle.bounds().crossed_within(r, t_min, t_max)
                }
            } by {
            if triangle.struck(r, t_min, t_max) is Some {
                let h = beyond->0;
                crossing_widens(
                    triangle.bounds(),
                    triangle.bounds(),
                    r,
                    t_min,
                    h.t,
                    t_min,
                    t_max,
                );
            }
        }
    }
}

/// A triangle obeys the laws of a surface for a ray that lies strictly
/// inside the triangle's box at some parameter `n / m` above the lower limit
/// and before the hit.
pub proof fn a_triangle_obeys_where_the_ray_is_inside_its_box<T>(
    triangle: Triangle<T>,
    r: Ray,
    t_min: i64,
    n: int,
    m: int,
)
    requires
        triangle.meets(r, t_min, i64::MAX) is Some,
        m > 0,
        t_min * m < n < triangle.meets(r, t_min, i64::MAX)->0.t * m,
        between_at(
            triangle.bounds().minimum.x,
            triangle.bounds().maximum.x,
            r.origin.x,
            r.direction.x,
            n,
            m,
        ),
        between_at(
            triangle.bounds().minimum.y,
            triangle.bounds().maximum.y,
            r.origin.y,
            r.direction.y,
            n,
            m,
        ),
        between_at(
            triangle.bounds().minimum.z,
            triangle.bounds().maximum.z,
            r.origin.z,
            r.direction.z,
            n,
            m,
        ),
    ensures
        obeys_hit_laws_at(triangle, r, t_min),
{
    let h = triangle.meets(r, t_min, i64::MAX)->0;
    a_point_inside_is_a_crossing(triangle.bounds(), r, t_min, h.t, n, m);
    a_triangle_obeys_where_its_box_is_crossed(triangle, r, t_min);
}

/// A triangle whose box has no inside, as a triangle that lies in a plane
/// along two axes, breaks the laws of a surface for every ray that hits it:
/// no ray passes through such a box.
pub proof fn a_triangle_in_a_flat_box_breaks_the_laws<T>(triangle: Triangle<T>, r: Ray, t_min: i64)
    requires
        triangle.meets(r, t_min, i64::MAX) is Some,
        !triangle.bounds().inhabited(),
    ensures
        !obeys_hit_laws_at(triangle, r, t_min),
{
    let h = triangle.meets(r, t_min, i64::MAX)->0;
    a_box_without_inside_is_never_crossed(triangle.bounds(), r, t_min, h.t);
    a_triangle_obeys_where_its_box_is_crossed(triangle, r, t_min);
}

} // verus!
