//! The radiance integrator and the steps from samples to the bytes of a
//! pixel.

use vstd::prelude::*;

use crate::bvh::layout::{candidates, picked};
use crate::bvh::sah::BVHNode;
use crate::bvh2::{flat, BVH};
use crate::hittable::Hittable;
use crate::material::Material;
use crate::ray::{nearest, HitRecord, Ray, T_MIN};
use crate::scene::Scene;
use crate::vec3::{
    clamp_i32, floor_div, floor_sqrt, isqrt, lemma_component_product_fits, lemma_quotient_between,
    saturate, unit_vector, Vec3, ONE,
};

verus! {

/// The number of bounces after which a path carries no more light.
pub const MAX_DEPTH: u32 = 16;

/// The number of rays that are averaged into one pixel.
pub const SAMPLES_PER_PIXEL: u32 = 100;

/// Seven tenths of a unit, the green of the sky's blue.
pub const SKY_GREEN: i32 = 45875;

/// The largest root of a channel that is kept: 0.999 of a unit, rounded
/// down.
pub const BRIGHTEST: i32 = 65470;

/// The light of the background along `r`: a gradient on the height of the
/// ray's direction, from white where it points straight down to sky blue,
/// `(0.5, 0.7, 1.0)`, where it points straight up.
pub open spec fn sky(r: Ray) -> Vec3 {
    let t = (r.direction.unit().y + ONE) / 2;
    Vec3 {
        x: clamp_i32((ONE - t) + (t * (ONE / 2)) / (ONE as int)),
        y: clamp_i32((ONE - t) + (t * SKY_GREEN) / (ONE as int)),
        z: clamp_i32((ONE - t) + (t * ONE) / (ONE as int)),
    }
}

/// Blends white and `blue`, a channel of the sky's color, at the height
/// `t`.
fn blend(t: i32, blue: i32) -> (c: i32)
    requires
        0 <= blue <= ONE,
    ensures
        c == clamp_i32((ONE - t) + (t * blue) / (ONE as int)),
{
    proof {
        lemma_component_product_fits(t as int, blue as int);
    }
    let share: i128 = floor_div((t as i128) * (blue as i128), 65536);
    proof {
        lemma_quotient_between(t * blue, 65536, -0x4000_0000_0000_0000, 0x4000_0000_0000_0000);
    }
    saturate((65536 - t as i128) + share)
}

/// The light of the background along `r`.
pub fn background(r: &Ray) -> (color: Vec3)
    ensures
        color == sky(*r),
{
    let unit_direction = unit_vector(r.direction);
    let t: i32 = floor_div(unit_direction.y as i128 + 65536, 2) as i32;
    assert(ONE / 2 == 32768);
    Vec3 { x: blend(t, 32768), y: blend(t, SKY_GREEN), z: blend(t, 65536) }
}

/// What a path carries back through a scattering: nothing from an absorbed
/// ray, and from a scattered one the radiance `deeper` along the outgoing
/// ray, channel by channel times the attenuation.
pub open spec fn carried(scattered: Result<(Vec3, Ray), ()>, deeper: Vec3) -> Vec3 {
    match scattered {
        Ok(outcome) => outcome.0.times(deeper),
        Err(_) => Vec3::zero(),
    }
}

/// Through no scattering does a path carry anything back from black.
pub proof fn nothing_is_carried_from_black(scattered: Result<(Vec3, Ray), ()>)
    ensures
        carried(scattered, Vec3::zero()) == Vec3::zero(),
{
    if let Ok(outcome) = scattered {
        let a = outcome.0;
        assert(a.x * 0 == 0 && a.y * 0 == 0 && a.z * 0 == 0) by (nonlinear_arith);
        assert(0int / (ONE as int) == 0);
    }
}

/// What a path carries back through a scattering.
pub fn shade(scattered: &Result<(Vec3, Ray), ()>, deeper: Vec3) -> (color: Vec3)
    ensures
        color == carried(*scattered, deeper),
{
    match scattered {
        Ok(outcome) => outcome.0.product(deeper),
        Err(_) => Vec3::new(0, 0, 0),
    }
}

/// The nearest hit of `r` among the candidates that the hierarchy `nodes`
/// picks out of `shapes`.
pub open spec fn seen<H: Hittable>(shapes: Seq<H>, nodes: Seq<BVHNode>, r: Ray) -> Option<
    HitRecord<H::Surface>,
> {
    nearest(r, picked(shapes, candidates(nodes, r, 0)), T_MIN, i64::MAX)
}

/// The radiance that arrives along `r` after at most `depth` bounces, where
/// the scatterings on the way have the outcomes `outcomes`, one after the
/// other. With no bounce left the path is black; a ray that hits nothing
/// sees the background; an absorbed ray is black; a scattered ray carries
/// the radiance along the outgoing ray, with one bounce less and the rest
/// of the outcomes, times the attenuation.
pub open spec fn radiance<H: Hittable>(
    shapes: Seq<H>,
    nodes: Seq<BVHNode>,
    r: Ray,
    depth: nat,
    outcomes: Seq<Result<(Vec3, Ray), ()>>,
) -> Vec3
    decreases depth,
{
    if depth == 0 {
        Vec3::zero()
    } else {
        match seen(shapes, nodes, r) {
            None => sky(r),
            Some(h) => if outcomes.len() == 0 {
                Vec3::zero()
            } else {
                match outcomes[0] {
                    Ok(outcome) => carried(
                        outcomes[0],
                        radiance(shapes, nodes, outcome.1, (depth - 1) as nat, outcomes.skip(1)),
                    ),
                    Err(_) => Vec3::zero(),
                }
            },
        }
    }
}

/// Whether `outcomes` are outcomes that the scatterings on the way of `r`
/// may have, one for each surface that the path hits: each is one that the
/// material of the nearest hit may give for the ray that arrives and that
/// hit, and the path goes on along the outgoing ray of each.
pub open spec fn drawn<H: Hittable>(
    shapes: Seq<H>,
    nodes: Seq<BVHNode>,
    r: Ray,
    depth: nat,
    outcomes: Seq<Result<(Vec3, Ray), ()>>,
) -> bool where H::Surface: Material<H::Surface>
    decreases depth,
{
    if depth == 0 {
        outcomes.len() == 0
    } else {
        match seen(shapes, nodes, r) {
            None => outcomes.len() == 0,
            Some(h) => {
                &&& outcomes.len() > 0
                &&& call_ensures(
                    <H::Surface as Material<H::Surface>>::scatter,
                    (&h.material, &r, &h),
                    outcomes[0],
                )
                &&& match outcomes[0] {
                    Ok(outcome) => drawn(
                        shapes,
                        nodes,
                        outcome.1,
                        (depth - 1) as nat,
                        outcomes.skip(1),
                    ),
                    Err(_) => outcomes.len() == 1,
                }
            },
        }
    }
}

/// The radiance that arrives along `r` after at most `depth` bounces.
///
/// With no bounce left the path is black. A ray that hits nothing among the
/// candidates of the hierarchy sees the background. A ray that hits a
/// surface is scattered by the material of the nearest hit, and carries
/// back what [`shade`] says of the outcome and of the radiance along the
/// outgoing ray with one bounce less.
///
/// The scatterings may depend on chance, so their outcomes have no name.
/// Whatever they are, the result is [`radiance`] of them: with the same
/// outcomes drawn, the same scene, hierarchy, ray and depth give the same
/// color.
pub fn ray_color<H: Hittable>(scene: &Scene<H>, r: &Ray, bvh: &BVH, depth: u32) -> (color: Vec3)
    where H::Surface: Material<H::Surface>
    requires
        depth > 0 ==> bvh.wf(scene.objects@.len()),
    ensures
        exists|outcomes: Seq<Result<(Vec3, Ray), ()>>| #[trigger]
            drawn(scene.objects@, flat(bvh.nodes@), *r, depth as nat, outcomes) && color
                == radiance(scene.objects@, flat(bvh.nodes@), *r, depth as nat, outcomes),
        depth == 0 ==> color == Vec3::zero(),
        depth > 0 && seen(scene.objects@, flat(bvh.nodes@), *r) is None ==> color == sky(*r),
        depth > 0 ==> (seen(scene.objects@, flat(bvh.nodes@), *r) matches Some(h) ==> exists|
            scattered: Result<(Vec3, Ray), ()>,
            deeper: Vec3,
        |
            call_ensures(
                <H::Surface as Material<H::Surface>>::scatter,
                (&h.material, r, &h),
                scattered,
            ) && color == #[trigger] carried(scattered, deeper)),
        depth == 1 && seen(scene.objects@, flat(bvh.nodes@), *r) is Some ==> color
            == Vec3::zero(),
    decreases depth,
{
    let ghost objects = scene.objects@;
    let ghost nodes = flat(bvh.nodes@);
    if depth == 0 {
        proof {
            assert(drawn(objects, nodes, *r, 0, Seq::empty()));
        }
        return Vec3::new(0, 0, 0);
    }
    let shapes = bvh.traverse(r, &scene.objects);

    let hit_record = r.hit(shapes);
    match hit_record {
        Some(t) => {
            let scattered = t.material.scatter(r, &t);
            let deeper = match &scattered {
                Ok(scattered_ray) => ray_color(scene, &scattered_ray.1, bvh, depth - 1),
                Err(_) => Vec3::new(0, 0, 0),
            };
            let color = shade(&scattered, deeper);
            proof {
                if depth == 1 {
                    nothing_is_carried_from_black(scattered);
                }
                let below = (depth - 1) as nat;
                let rest = match scattered {
                    Ok(outcome) => choose|rest: Seq<Result<(Vec3, Ray), ()>>| #[trigger]
                        drawn(objects, nodes, outcome.1, below, rest) && deeper == radiance(
                            objects,
                            nodes,
                            outcome.1,
                            below,
                            rest,
                        ),
                    Err(_) => Seq::empty(),
                };
                let outcomes = seq![scattered] + rest;
                assert(outcomes[0] == scattered);
                assert(outcomes.skip(1) == rest);
                assert(drawn(objects, nodes, *r, depth as nat, outcomes));
                assert(color == radiance(objects, nodes, *r, depth as nat, outcomes));
            }
            color
        },
        None => {
            proof {
                assert(drawn(objects, nodes, *r, depth as nat, Seq::empty()));
            }
            background(r)
        },
    }
}

/// The height of an image of the given width at three to two, rounded down.
pub fn image_height(image_width: u32) -> (image_height: u32)
    ensures
        image_height == (image_width * 2) / 3,
{
    ((image_width as u64 * 2) / 3) as u32
}

/// Where the sample of pixel `pixel` lies on an image axis of `extent`
/// pixels, as a fraction of the axis: `(pixel + jitter) / (extent - 1)`,
/// rounded down, with `jitter` the part of a pixel by which the sample is
/// moved.
pub open spec fn plane_coordinate(pixel: u32, jitter: i32, extent: u32) -> int {
    (pixel * ONE + jitter) / (extent - 1)
}

/// Where the sample of pixel `pixel`, moved by `jitter`, lies on an image
/// axis of `extent` pixels.
pub fn image_coordinate(pixel: u32, jitter: i32, extent: u32) -> (s: i32)
    requires
        extent > 1,
        pixel < extent,
        0 <= jitter < ONE,
    ensures
        s == plane_coordinate(pixel, jitter, extent),
        0 <= s < 2 * ONE,
{
    let numerator: i128 = pixel as i128 * 65536 + jitter as i128;
    let q = floor_div(numerator, extent as i128 - 1);
    proof {
        let d = extent - 1;
        assert((131071 + 1) * d > numerator) by (nonlinear_arith)
            requires
                numerator == pixel * 65536 + jitter,
                0 <= jitter < 65536,
                0 <= pixel <= d,
                d >= 1,
        ;
        lemma_quotient_between(numerator as int, d as int, 0, 131071);
    }
    q as i32
}

/// The sum of `colors`, taken from the left with saturating sums.
pub open spec fn total(colors: Seq<Vec3>) -> Vec3
    decreases colors.len(),
{
    if colors.len() == 0 {
        Vec3::zero()
    } else {
        total(colors.drop_last()).plus(colors.last())
    }
}

/// The mean of `samples` many colors that add up to `sum`, each channel
/// rounded down.
pub open spec fn mean(sum: Vec3, samples: nat) -> Vec3 {
    Vec3 {
        x: ((sum.x as int) / (samples as int)) as i32,
        y: ((sum.y as int) / (samples as int)) as i32,
        z: ((sum.z as int) / (samples as int)) as i32,
    }
}

/// A channel of a sum divided by the number of samples.
fn share(channel: i32, samples: usize) -> (c: i32)
    requires
        samples > 0,
    ensures
        c == (channel as int) / (samples as int),
{
    let q = floor_div(channel as i128, samples as i128);
    proof {
        let d = samples as int;
        assert(-0x8000_0000 * d <= channel < (0x7fff_ffff + 1) * d) by (nonlinear_arith)
            requires
                d >= 1,
                -0x8000_0000 <= channel <= 0x7fff_ffff,
        ;
        lemma_quotient_between(channel as int, d, -0x8000_0000, 0x7fff_ffff);
    }
    q as i32
}

/// The color of a pixel: the mean of the colors of its samples.
pub fn pixel_color(samples: &Vec<Vec3>) -> (color: Vec3)
    requires
        samples@.len() > 0,
    ensures
        color == mean(total(samples@), samples@.len()),
{
    let mut pixel_color = Vec3::new(0, 0, 0);
    let mut k: usize = 0;
    while k < samples.len()
        invariant
            k <= samples@.len(),
            pixel_color == total(samples@.take(k as int)),
        decreases samples@.len() - k,
    {
        proof {
            assert(samples@.take(k + 1).drop_last() == samples@.take(k as int));
        }
        pixel_color = pixel_color.sum(samples[k]);
        k += 1;
    }
    proof {
        assert(samples@.take(k as int) == samples@);
    }
    let n = samples.len();
    Vec3 { x: share(pixel_color.x, n), y: share(pixel_color.y, n), z: share(pixel_color.z, n) }
}

/// The byte of a channel: the square root of the channel, for gamma two,
/// kept between nothing and [`BRIGHTEST`], on the scale from 0 to 255.99 and
/// rounded down. A channel below nothing is dark.
pub open spec fn gamma_byte(channel: i32) -> int {
    if channel <= 0 {
        0
    } else {
        let root = floor_sqrt((channel * ONE) as nat) as int;
        let kept = if root > BRIGHTEST {
            BRIGHTEST as int
        } else {
            root
        };
        (kept * 25599) / (100 * ONE)
    }
}

/// The byte of a channel.
pub fn channel_byte(channel: i32) -> (byte: u8)
    ensures
        byte == gamma_byte(channel),
{
    if channel <= 0 {
        return 0;
    }
    let root: u64 = isqrt(channel as u128 * 65536);
    let kept: u64 = if root > 65470 {
        65470
    } else {
        root
    };
    ((kept * 25599) / 6553600) as u8
}

/// The bytes of an image: red, green and blue of each pixel in turn.
pub open spec fn raster(pixels: Seq<Vec3>) -> Seq<u8>
    decreases pixels.len(),
{
    if pixels.len() == 0 {
        Seq::empty()
    } else {
        raster(pixels.drop_last()).push(gamma_byte(pixels.last().x) as u8).push(
            gamma_byte(pixels.last().y) as u8,
        ).push(gamma_byte(pixels.last().z) as u8)
    }
}

/// The image as a buffer of bytes, three for each pixel, in the order of
/// `pixels`.
pub fn encode(pixels: &Vec<Vec3>) -> (data: Vec<u8>)
    ensures
        data@ == raster(pixels@),
{
    let mut data: Vec<u8> = Vec::new();
    let mut k: usize = 0;
    while k < pixels.len()
        invariant
            k <= pixels@.len(),
            data@ == raster(pixels@.take(k as int)),
        decreases pixels@.len() - k,
    {
        proof {
            assert(pixels@.take(k + 1).drop_last() == pixels@.take(k as int));
        }
        let pixel = pixels[k];
        data.push(channel_byte(pixel.x));
        data.push(channel_byte(pixel.y));
        data.push(channel_byte(pixel.z));
        k += 1;
    }
    proof {
        assert(pixels@.take(k as int) == pixels@);
    }
    data
}

} // verus!
