//! The scene: the shapes to be rendered, in order.

use vstd::prelude::*;

use crate::aabb::AABB;
use crate::hittable::{boxes_of, Hittable};
use crate::util::{joint_aabb_from_shapes, joint_all};
use crate::random::{is_alphanumeric, random_alphanumeric, small_generator, thread_generator};

verus! {

/// Calls `String::push`, which appends the character to the string.
#[verifier::external_body]
fn push_char(s: &mut String, c: char)
    ensures
        final(s)@ == old(s)@.push(c),
{
    s.push(c)
}

/// A random seed of `length` characters, each a letter or a digit.
pub fn get_seed(length: usize) -> (seed: String)
    ensures
        seed@.len() == length,
        forall|k: int| 0 <= k < length ==> is_alphanumeric(#[trigger] seed@[k] as u8),
{
    let mut rng = small_generator(thread_generator()).unwrap();
    let mut seed = String::new();
    let mut k: usize = 0;
    while k < length
        invariant
            k <= length,
            seed@.len() == k,
            forall|j: int| 0 <= j < k ==> is_alphanumeric(#[trigger] seed@[j] as u8),
        decreases length - k,
    {
        let byte = random_alphanumeric(&mut rng);
        push_char(&mut seed, byte as char);
        k += 1;
    }
    seed
}

/// An ordered collection of shapes. It is filled before rendering and only
/// read while rendering.
pub struct Scene<H> {
    pub objects: Vec<H>,
}

impl<H: Hittable> Scene<H> {
    /// The scene without shapes.
    pub fn new() -> (scene: Scene<H>)
        ensures
            scene.objects@.len() == 0,
    {
        Scene { objects: Vec::new() }
    }

    /// Replaces the shapes of the scene by `objects`.
    pub fn set(&mut self, objects: Vec<H>)
        ensures
            final(self).objects == objects,
    {
        self.objects = objects;
    }

    /// Removes every shape from the scene.
    pub fn clear(&mut self)
        ensures
            final(self).objects@.len() == 0,
    {
        self.objects.clear()
    }

    /// The box around the whole scene, whatever the exposure from `_time0`
    /// to `_time1`: the join of the boxes of all its shapes, which is the
    /// empty box for a scene without shapes.
    pub fn bounding_box(&self, _time0: i32, _time1: i32) -> (output_box: AABB)
        ensures
            output_box == joint_all(boxes_of(self.objects@)),
    {
        joint_aabb_from_shapes(self.objects.as_slice())
    }
}

} // verus!
