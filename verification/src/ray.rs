//! Rays.

use vstd::prelude::*;

use crate::aabb::AABB;
use crate::hittable::{obeys_hit_laws_at, Hittable};
use crate::vec3::{clamp_i32, floor_div, lemma_quotient_between, saturate, Vec3, ONE};

verus! {

/// A ray: the points `origin + direction * t / ONE` for the parameters `t`,
/// counted in ticks, at one moment `time` of the exposure.
#[derive(Clone, Copy, Debug, PartialEq, Eq, Structural)]
pub struct Ray {
    pub origin: Vec3,
    pub direction: Vec3,
    pub time: i32,
}

/// An intersection of a ray with a surface.
#[derive(Clone, Copy, Debug)]
pub struct HitRecord<M> {
    /// The point that was hit.
    pub p: Vec3,
    /// The unit normal at that point, turned against the incoming ray.
    pub normal: Vec3,
    /// The ray parameter of the hit, in ticks.
    pub t: i64,
    /// The first surface coordinate of the point.
    pub u: i32,
    /// The second surface coordinate of the point.
    pub v: i32,
    /// Whether the ray came from outside the surface.
    pub front_face: bool,
    /// The material of the surface.
    pub material: M,
}

/// The least parameter at which a hit counts: a thousandth of a unit, so
/// that a scattered ray does not hit the surface it leaves.
pub const T_MIN: i64 = 65;

/// The position on one axis at parameter `t`: `o + d * t / ONE`, rounded down
/// and saturated.
pub open spec fn position(o: i32, d: i32, t: i64) -> i32 {
    clamp_i32(o + (d * t) / (ONE as int))
}

fn advance(o: i32, d: i32, t: i64) -> (p: i32)
    ensures
        p == position(o, d, t),
{
    proof {
        assert(-0x4000_0000_0000_0000_0000_0000 <= d * t <= 0x4000_0000_0000_0000_0000_0000)
            by (nonlinear_arith)
            requires
                -0x8000_0000 <= d <= 0x8000_0000,
                -0x8000_0000_0000_0000 <= t <= 0x8000_0000_0000_0000,
        {
            assert((0x8000_0000 - d) * (0x8000_0000_0000_0000 - t) >= 0);
            assert((0x8000_0000 + d) * (0x8000_0000_0000_0000 + t) >= 0);
            assert((0x8000_0000 - d) * (0x8000_0000_0000_0000 + t) >= 0);
            assert((0x8000_0000 + d) * (0x8000_0000_0000_0000 - t) >= 0);
        }
    }
    let quotient: i128 = floor_div((d as i128) * (t as i128), 65536);
    proof {
        lemma_quotient_between(
            d * t,
            65536,
            -0x4000_0000_0000_0000_0000_0000,
            0x4000_0000_0000_0000_0000_0000,
        );
    }
    saturate(o as i128 + quotient)
}

impl Ray {
    /// The point of the ray at parameter `t`.
    pub open spec fn point(self, t: i64) -> Vec3 {
        Vec3 {
            x: position(self.origin.x, self.direction.x, t),
            y: position(self.origin.y, self.direction.y, t),
            z: position(self.origin.z, self.direction.z, t),
        }
    }

    /// The point of the ray at parameter `t`.
    pub fn at(&self, t: i64) -> (p: Vec3)
        ensures
            p == self.point(t),
    {
        Vec3::new(
            advance(self.origin.x, self.direction.x, t),
            advance(self.origin.y, self.direction.y, t),
            advance(self.origin.z, self.direction.z, t),
        )
    }

    /// The nearest hit of the ray on `objects`, scanned in order, at a
    /// parameter above [`T_MIN`]: each object is asked for a hit no further
    /// than the nearest found before it.
    pub fn hit<H: Hittable>(&self, objects: Vec<&H>) -> (closest_hit: Option<HitRecord<H::Surface>>)
        ensures
            closest_hit == nearest(*self, referents(objects@), T_MIN, i64::MAX),
    {
        let mut closest_hit_distance: i64 = i64::MAX;
        let mut closest_hit: Option<HitRecord<H::Surface>> = None;
        let mut k: usize = 0;
        while k < objects.len()
            invariant
                k <= objects@.len(),
                closest_hit == nearest(*self, referents(objects@).take(k as int), T_MIN, i64::MAX),
                closest_hit_distance == match closest_hit {
                    Some(h) => h.t,
                    None => i64::MAX,
                },
            decreases objects@.len() - k,
        {
            proof {
                assert(referents(objects@).take(k + 1).drop_last() == referents(objects@).take(
                    k as int,
                ));
                assert(referents(objects@).take(k + 1).last() == *objects@[k as int]);
            }
            match objects[k].hit(self, T_MIN, closest_hit_distance) {
                Some(rec) => {
                    if T_MIN < rec.t && rec.t <= closest_hit_distance {
                        closest_hit_distance = rec.t;
                        closest_hit = Some(rec);
                    }
                },
                None => {},
            }
            k += 1;
        }
        proof {
            assert(referents(objects@).take(k as int) == referents(objects@));
        }
        closest_hit
    }

    /// Whether the whole line of the ray passes through the inside of
    /// `aabb`.
    pub fn aabb_intersect(&self, aabb: AABB) -> (b: bool)
        ensures
            b == aabb.crossed(*self),
    {
        aabb.hit_faster(self)
    }
}

/// The surfaces behind a list of references, in order.
pub open spec fn referents<H>(objects: Seq<&H>) -> Seq<H> {
    Seq::new(objects.len(), |k: int| *objects[k])
}

/// The hit that a scan of `objects` in order keeps: each object is asked
/// for a hit above `t_min` and not above the nearest hit kept so far, at
/// first `t_max`, and a hit within those limits replaces the one kept.
pub open spec fn nearest<H: Hittable>(r: Ray, objects: Seq<H>, t_min: i64, t_max: i64) -> Option<
    HitRecord<H::Surface>,
>
    decreases objects.len(),
{
    if objects.len() == 0 {
        None
    } else {
        let kept = nearest(r, objects.drop_last(), t_min, t_max);
        let limit = match kept {
            Some(h) => h.t,
            None => t_max,
        };
        match objects.last().struck(r, t_min, limit) {
            Some(h) => if t_min < h.t <= limit {
                Some(h)
            } else {
                kept
            },
            None => kept,
        }
    }
}

/// Whether `found` is a nearest hit of `r` on `objects` within the range:
/// nothing, where no object is hit; else the hit on one of the objects, no
/// further than the hit on any of them.
pub open spec fn is_nearest<H: Hittable>(
    r: Ray,
    objects: Seq<H>,
    t_min: i64,
    t_max: i64,
    found: Option<HitRecord<H::Surface>>,
) -> bool {
    match found {
        None => forall|k: int|
            0 <= k < objects.len() ==> (#[trigger] objects[k]).struck(r, t_min, t_max) is None,
        Some(h) => {
            &&& exists|k: int|
                0 <= k < objects.len() && (#[trigger] objects[k]).struck(r, t_min, t_max) == Some(h)
            &&& forall|k: int|
                0 <= k < objects.len() ==> ((#[trigger] objects[k]).struck(r, t_min, t_max) matches Some(
                    g,
                ) ==> h.t <= g.t)
        },
    }
}

/// Whether every one of `objects` obeys the laws of a surface for the ray
/// `r` and the lower limit `t_min`.
pub open spec fn all_obey_at<H: Hittable>(objects: Seq<H>, r: Ray, t_min: i64) -> bool {
    forall|k: int| 0 <= k < objects.len() ==> obeys_hit_laws_at(#[trigger] objects[k], r, t_min)
}

/// On surfaces that obey the laws for the ray and the lower limit at hand,
/// the scan keeps a nearest hit.
pub proof fn scan_keeps_the_nearest<H: Hittable>(r: Ray, objects: Seq<H>, t_min: i64, t_max: i64)
    requires
        all_obey_at(objects, r, t_min),
    ensures
        is_nearest(r, objects, t_min, t_max, nearest(r, objects, t_min, t_max)),
    decreases objects.len(),
{
    if objects.len() > 0 {
        let rest = objects.drop_last();
        let last = objects.last();
        assert(last == objects[objects.len() - 1]);
        assert forall|k: int| 0 <= k < rest.len() implies obeys_hit_laws_at(#[trigger] rest[k], r, t_min) by {
            assert(rest[k] == objects[k]);
        }
        scan_keeps_the_nearest(r, rest, t_min, t_max);
        let kept = nearest(r, rest, t_min, t_max);
        let limit = match kept {
            Some(h) => h.t,
            None => t_max,
        };
        let found = nearest(r, objects, t_min, t_max);
        assert(obeys_hit_laws_at(last, r, t_min));
        assert(last.struck(r, t_min, limit) == crate::hittable::cut(
            last.struck(r, t_min, i64::MAX),
            limit,
        ));
        assert(last.struck(r, t_min, t_max) == crate::hittable::cut(
            last.struck(r, t_min, i64::MAX),
            t_max,
        ));
        if kept is Some {
            let w = choose|k: int|
                0 <= k < rest.len() && (#[trigger] rest[k]).struck(r, t_min, t_max) == kept;
            assert(rest[w] == objects[w]);
            assert(obeys_hit_laws_at(objects[w], r, t_min));
        }
        match found {
            None => {
                assert forall|k: int| 0 <= k < objects.len() implies (#[trigger] objects[k]).struck(
                    r,
                    t_min,
                    t_max,
                ) is None by {
                    if k < rest.len() {
                        assert(rest[k] == objects[k]);
                    }
                }
            },
            Some(h) => {
                if last.struck(r, t_min, limit) == Some(h) && t_min < h.t <= limit {
                    assert(objects[objects.len() - 1].struck(r, t_min, t_max) == Some(h));
                } else {
                    let w = choose|k: int|
                        0 <= k < rest.len() && (#[trigger] rest[k]).struck(r, t_min, t_max) == Some(
                            h,
                        );
                    assert(rest[w] == objects[w]);
                    assert(objects[w].struck(r, t_min, t_max) == Some(h));
                }
                assert forall|k: int| 0 <= k < objects.len() implies ((#[trigger] objects[k]).struck(
                    r,
                    t_min,
                    t_max,
                ) matches Some(g) ==> h.t <= g.t) by {
                    if k < rest.len() {
                        assert(rest[k] == objects[k]);
                    }
                }
            },
        }
    }
}

/// Two nearest hits on the same surfaces lie at the same parameter.
pub proof fn nearest_hits_agree<H: Hittable>(
    r: Ray,
    objects: Seq<H>,
    t_min: i64,
    t_max: i64,
    a: Option<HitRecord<H::Surface>>,
    b: Option<HitRecord<H::Surface>>,
)
    requires
        is_nearest(r, objects, t_min, t_max, a),
        is_nearest(r, objects, t_min, t_max, b),
    ensures
        a is Some <==> b is Some,
        a is Some ==> a->0.t == b->0.t,
{
    if a is Some {
        let k = choose|k: int|
            0 <= k < objects.len() && (#[trigger] objects[k]).struck(r, t_min, t_max) == a;
        assert(objects[k].struck(r, t_min, t_max) is Some);
    }
    if b is Some {
        let k = choose|k: int|
            0 <= k < objects.len() && (#[trigger] objects[k]).struck(r, t_min, t_max) == b;
        assert(objects[k].struck(r, t_min, t_max) is Some);
    }
}

} // verus!
