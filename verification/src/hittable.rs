//! What every primitive and every aggregate of primitives can do: be hit by
//! a ray, and say in which box it lies.

use vstd::prelude::*;

use crate::aabb::AABB;
use crate::ray::{HitRecord, Ray};

verus! {

/// A surface that a ray can hit.
///
/// Both methods are functions of their arguments: [`Hittable::struck`] and
/// [`Hittable::bounds`] name what they return. Nothing more is asked of an
/// implementation here; what the hierarchies need beyond that is stated by
/// [`obeys_hit_laws_at`], ray by ray, and assumed only where a law says so
/// and only of the ray at hand.
pub trait Hittable {
    /// The material that a hit on this surface carries.
    type Surface;

    /// The hit that [`Hittable::hit`] reports for `r` within the range.
    spec fn struck(&self, r: Ray, t_min: i64, t_max: i64) -> Option<HitRecord<Self::Surface>>;

    /// The box that [`Hittable::bounding_box`] reports.
    spec fn bounds(&self) -> AABB;

    /// The nearest intersection of `r` with the surface at a parameter above
    /// `t_min` and not above `t_max`, if there is one.
    fn hit(&self, r: &Ray, t_min: i64, t_max: i64) -> (rec: Option<HitRecord<Self::Surface>>)
        ensures
            rec == self.struck(*r, t_min, t_max),
    ;

    /// A box around the surface.
    fn bounding_box(&self) -> (b: AABB)
        ensures
            b == self.bounds(),
    ;
}

/// A hit cut off at `t_max`: the hit where it lies at or before `t_max`,
/// nothing otherwise.
pub open spec fn cut<M>(rec: Option<HitRecord<M>>, t_max: i64) -> Option<HitRecord<M>> {
    match rec {
        Some(h) => if h.t <= t_max {
            rec
        } else {
            None
        },
        None => None,
    }
}

/// What a hierarchy relies on in a surface for the ray `r` and the lower
/// limit `t_min`, whatever the upper limit:
/// - a reported hit lies above `t_min` and not above the upper limit;
/// - the surface has one nearest hit above `t_min`, and reports it exactly
///   when it lies within the range;
/// - where the ray hits the surface within a range, it passes through the
///   surface's box within that range.
pub open spec fn obeys_hit_laws_at<H: Hittable>(s: H, r: Ray, t_min: i64) -> bool {
    forall|t_max: i64|
        {
            &&& #[trigger] s.struck(r, t_min, t_max) == cut(s.struck(r, t_min, i64::MAX), t_max)
            &&& s.struck(r, t_min, t_max) matches Some(h) ==> {
                &&& t_min < h.t <= t_max
                &&& s.bounds().crossed_within(r, t_min, t_max)
            }
        }
}

/// Whether the surface obeys the laws for every ray and every lower limit.
pub open spec fn obeys_hit_laws<H: Hittable>(s: H) -> bool {
    forall|r: Ray, t_min: i64| #[trigger] obeys_hit_laws_at(s, r, t_min)
}

/// The boxes of a sequence of surfaces, in order.
pub open spec fn boxes_of<H: Hittable>(shapes: Seq<H>) -> Seq<AABB> {
    Seq::new(shapes.len(), |i: int| shapes[i].bounds())
}

} // verus!
