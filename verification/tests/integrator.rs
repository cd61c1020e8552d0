use pathtracer::aabb::AABB;
use pathtracer::bvh2::BVH;
use pathtracer::hittable::Hittable;
use pathtracer::integrator::{
    background, channel_byte, encode, image_coordinate, image_height, pixel_color, ray_color,
    shade, MAX_DEPTH, SAMPLES_PER_PIXEL,
};
use pathtracer::material::Material;
use pathtracer::ray::{HitRecord, Ray};
use pathtracer::scene::Scene;
use pathtracer::vec3::{Vec3, ONE};

/// A material that swallows every ray, or sends every ray straight up from
/// far above the scene with a fixed attenuation.
#[derive(Clone, Copy)]
enum Paint {
    Soot,
    Mirror(Vec3),
}

impl<M> Material<M> for Paint {
    fn scatter(&self, ray: &Ray, _rec: &HitRecord<M>) -> Result<(Vec3, Ray), ()> {
        match self {
            Paint::Soot => Err(()),
            Paint::Mirror(attenuation) => Ok((
                *attenuation,
                Ray {
                    origin: Vec3::new(0, 1000 * ONE, 0),
                    direction: Vec3::new(0, ONE, 0),
                    time: ray.time,
                },
            )),
        }
    }
}

/// A floor below the scene that every ray pointing down hits after one
/// unit.
struct Floor {
    paint: Paint,
}

impl Hittable for Floor {
    type Surface = Paint;

    fn struck(&self, r: Ray, t_min: i64, t_max: i64) -> Option<HitRecord<Paint>> {
        self.hit(&r, t_min, t_max)
    }

    fn bounds(&self) -> AABB {
        self.bounding_box()
    }

    fn hit(&self, r: &Ray, t_min: i64, t_max: i64) -> Option<HitRecord<Paint>> {
        let t = ONE as i64;
        if r.direction.y < 0 && t_min < t && t <= t_max {
            Some(HitRecord {
                p: r.at(t),
                normal: Vec3::new(0, ONE, 0),
                t,
                u: 0,
                v: 0,
                front_face: true,
                material: self.paint,
            })
        } else {
            None
        }
    }

    fn bounding_box(&self) -> AABB {
        AABB::new(
            Vec3::new(-100 * ONE, -100 * ONE, -100 * ONE),
            Vec3::new(100 * ONE, 100 * ONE, 100 * ONE),
        )
    }
}

fn scene_of(paint: Paint) -> (Scene<Floor>, BVH) {
    let mut scene = Scene::new();
    scene.set(vec![Floor { paint }]);
    let bvh = BVH::build(&mut scene.objects);
    (scene, bvh)
}

fn ray_towards(x: i32, y: i32, z: i32) -> Ray {
    Ray { origin: Vec3::new(0, 0, 0), direction: Vec3::new(x, y, z), time: 0 }
}

#[test]
fn the_depth_and_the_samples_by_default() {
    assert_eq!(MAX_DEPTH, 16);
    assert_eq!(SAMPLES_PER_PIXEL, 100);
}

#[test]
fn without_a_bounce_left_the_path_is_black() {
    let black = Vec3::new(0, 0, 0);
    for paint in [Paint::Soot, Paint::Mirror(Vec3::new(ONE, ONE, ONE))] {
        let (scene, bvh) = scene_of(paint);
        for r in [ray_towards(0, -ONE, 0), ray_towards(0, ONE, 0), ray_towards(3, 4, 5)] {
            assert_eq!(ray_color(&scene, &r, &bvh, 0), black);
        }
    }
}

#[test]
fn without_a_bounce_left_the_hierarchy_is_not_walked() {
    let (scene, _) = scene_of(Paint::Soot);
    let broken = BVH { nodes: Vec::new() };
    assert_eq!(ray_color(&scene, &ray_towards(0, -ONE, 0), &broken, 0), Vec3::new(0, 0, 0));
}

#[test]
fn a_ray_that_hits_nothing_sees_the_background() {
    let (scene, bvh) = scene_of(Paint::Soot);
    assert_eq!(ray_color(&scene, &ray_towards(0, ONE, 0), &bvh, 1), Vec3::new(32768, 45875, 65536));
    assert_eq!(ray_color(&scene, &ray_towards(ONE, 0, 0), &bvh, 5), Vec3::new(49152, 55705, 65536));
}

#[test]
fn the_background_runs_from_white_to_blue() {
    assert_eq!(background(&ray_towards(0, ONE, 0)), Vec3::new(32768, 45875, 65536));
    assert_eq!(background(&ray_towards(0, -ONE, 0)), Vec3::new(65536, 65536, 65536));
    assert_eq!(background(&ray_towards(ONE, 0, 0)), Vec3::new(49152, 55705, 65536));
    assert_eq!(background(&ray_towards(0, 3, 4)), Vec3::new(39322, 49807, 65536));
    assert_eq!(background(&ray_towards(3, 4, 0)), Vec3::new(36045, 47841, 65536));
    assert_eq!(background(&ray_towards(0, 0, 0)), Vec3::new(49152, 55705, 65536));
    // A direction of a few ticks is as good as a long one.
    assert_eq!(background(&ray_towards(1, 1, 0)), Vec3::new(37567, 48754, 65536));
    assert_eq!(background(&ray_towards(0, 1, 0)), background(&ray_towards(0, ONE, 0)));
}

#[test]
fn an_absorbed_ray_is_black() {
    let (scene, bvh) = scene_of(Paint::Soot);
    assert_eq!(ray_color(&scene, &ray_towards(0, -ONE, 0), &bvh, MAX_DEPTH), Vec3::new(0, 0, 0));
}

#[test]
fn a_scattered_ray_carries_the_attenuated_light_of_the_next() {
    let attenuation = Vec3::new(ONE / 2, ONE / 4, ONE);
    let (scene, bvh) = scene_of(Paint::Mirror(attenuation));
    let down = ray_towards(0, -ONE, 0);
    assert_eq!(ray_color(&scene, &down, &bvh, 2), Vec3::new(16384, 11468, 65536));
    assert_eq!(ray_color(&scene, &down, &bvh, MAX_DEPTH), Vec3::new(16384, 11468, 65536));
    // With one bounce the scattered ray has none left.
    assert_eq!(ray_color(&scene, &down, &bvh, 1), Vec3::new(0, 0, 0));
}

#[test]
fn the_height_of_the_image() {
    assert_eq!(image_height(1080), 720);
    assert_eq!(image_height(100), 66);
    assert_eq!(image_height(0), 0);
    assert_eq!(image_height(u32::MAX), 2863311530);
}

#[test]
fn the_place_of_a_sample_on_the_image_plane() {
    assert_eq!(image_coordinate(0, 0, 1080), 0);
    assert_eq!(image_coordinate(1079, 0, 1080), ONE);
    assert_eq!(image_coordinate(540, ONE / 2, 1080), 32828);
    assert_eq!(image_coordinate(1079, ONE - 1, 1080), 65596);
    assert_eq!(image_coordinate(1, ONE - 1, 2), 2 * ONE - 1);
}

#[test]
fn a_pixel_is_the_mean_of_its_samples() {
    assert_eq!(pixel_color(&vec![Vec3::new(3, 3, 3), Vec3::new(4, 5, 6)]), Vec3::new(3, 4, 4));
    assert_eq!(pixel_color(&vec![Vec3::new(-7, 0, 7)]), Vec3::new(-7, 0, 7));
    assert_eq!(pixel_color(&vec![Vec3::new(-4, 0, 0), Vec3::new(-3, 1, 0)]), Vec3::new(-4, 0, 0));
    let bright = Vec3::new(i32::MAX, ONE, 0);
    assert_eq!(pixel_color(&vec![bright, bright]), Vec3::new(i32::MAX / 2, ONE, 0));
}

#[test]
fn the_byte_of_a_channel() {
    assert_eq!(channel_byte(0), 0);
    assert_eq!(channel_byte(-5), 0);
    assert_eq!(channel_byte(1), 0);
    assert_eq!(channel_byte(ONE / 4), 127);
    assert_eq!(channel_byte(ONE / 2), 181);
    assert_eq!(channel_byte(ONE), 255);
    assert_eq!(channel_byte(4 * ONE), 255);
    assert_eq!(channel_byte(i32::MAX), 255);
}

#[test]
fn the_bytes_of_an_image() {
    let pixels = vec![Vec3::new(ONE, 0, ONE / 4), Vec3::new(ONE / 2, -1, 4 * ONE)];
    assert_eq!(encode(&pixels), vec![255, 0, 127, 181, 0, 255]);
    assert_eq!(encode(&Vec::new()), Vec::<u8>::new());
}

#[test]
fn what_a_path_carries_back_through_a_scattering() {
    let deeper = Vec3::new(ONE, ONE / 2, 3);
    let out = ray_towards(0, ONE, 0);
    assert_eq!(shade(&Err(()), deeper), Vec3::new(0, 0, 0));
    assert_eq!(shade(&Ok((Vec3::new(ONE, ONE, ONE), out)), deeper), deeper);
    assert_eq!(
        shade(&Ok((Vec3::new(ONE / 2, ONE / 2, ONE / 2), out)), deeper),
        Vec3::new(ONE / 2, ONE / 4, 1)
    );
    assert_eq!(shade(&Ok((Vec3::new(0, -ONE, 2 * ONE), out)), deeper), Vec3::new(0, -ONE / 2, 6));
}

#[test]
fn a_shared_material_scatters_as_the_material_that_is_shared() {
    let down = ray_towards(0, -ONE, 0);
    let floor = Floor { paint: Paint::Soot };
    let rec = floor.hit(&down, 0, i64::MAX).expect("the ray points down");
    let attenuation = Vec3::new(ONE / 2, ONE / 4, ONE);
    let mirror = std::sync::Arc::new(Paint::Mirror(attenuation));
    let (color, out) = mirror.scatter(&down, &rec).expect("a mirror scatters");
    let (same_color, same_out) =
        Paint::Mirror(attenuation).scatter(&down, &rec).expect("a mirror scatters");
    assert_eq!(color, attenuation);
    assert_eq!((color, out), (same_color, same_out));
    assert_eq!(out.direction, Vec3::new(0, ONE, 0));
    let soot = std::sync::Arc::new(Paint::Soot);
    assert!(soot.scatter(&down, &rec).is_err());
}
