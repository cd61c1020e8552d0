//! What a material can do: scatter a ray that hit it.

use std::sync::Arc;
use vstd::prelude::*;

use crate::ray::{HitRecord, Ray};
use crate::vec3::Vec3;

verus! {

/// The response of a surface to light, at hits that carry a material of the
/// type `M`.
pub trait Material<M> {
    /// Scatters the incoming `ray` at the hit `rec`: the attenuation color
    /// and the outgoing ray, or `Err` where the ray is absorbed. The outcome
    /// may depend on chance, so nothing is promised of it.
    fn scatter(&self, ray: &Ray, rec: &HitRecord<M>) -> Result<(Vec3, Ray), ()>;
}

/// A shared material scatters as the material that is shared.
impl<M, T: Material<M>> Material<M> for Arc<T> {
    /// Scatters as the shared material does: the outcome is one that the
    /// shared material may give for the same ray and the same hit.
    fn scatter(&self, ray: &Ray, rec: &HitRecord<M>) -> (outcome: Result<(Vec3, Ray), ()>)
        ensures
            call_ensures(<T as Material<M>>::scatter, (&**self, ray, rec), outcome),
    {
        (**self).scatter(ray, rec)
    }
}

} // verus!
