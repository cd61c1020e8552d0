use pathtracer::aabb::AABB;
use pathtracer::hittable::Hittable;
use pathtracer::ray::{HitRecord, Ray};
use pathtracer::scene::{get_seed, Scene};
use pathtracer::util::{concatenate_vectors, joint_aabb, joint_aabb_from_shapes};
use pathtracer::vec3::{
    floor_div, isqrt, saturate, scaled_product, scaled_quotient, unit_vector, Vec3, ONE,
};

struct Shade {
    bounds: AABB,
}

impl Hittable for Shade {
    type Surface = ();

    fn struck(&self, r: Ray, t_min: i64, t_max: i64) -> Option<HitRecord<()>> {
        self.hit(&r, t_min, t_max)
    }

    fn bounds(&self) -> AABB {
        self.bounding_box()
    }

    fn hit(&self, _r: &Ray, _t_min: i64, _t_max: i64) -> Option<HitRecord<()>> {
        None
    }

    fn bounding_box(&self) -> AABB {
        self.bounds
    }
}

fn shade(lo: (i32, i32, i32), hi: (i32, i32, i32)) -> Shade {
    Shade { bounds: AABB::new(Vec3::new(lo.0, lo.1, lo.2), Vec3::new(hi.0, hi.1, hi.2)) }
}

#[test]
fn vectors_are_put_end_to_end_and_left_empty() {
    let mut parts = vec![vec![1, 2], vec![], vec![3], vec![4, 5, 6]];
    let all = concatenate_vectors(&mut parts);
    assert_eq!(all, vec![1, 2, 3, 4, 5, 6]);
    assert_eq!(parts.len(), 4);
    assert!(parts.iter().all(|p| p.is_empty()));
    let mut none: Vec<Vec<String>> = Vec::new();
    assert!(concatenate_vectors(&mut none).is_empty());
}

#[test]
fn the_join_over_chosen_shapes() {
    let shapes = vec![shade((0, 0, 0), (1, 1, 1)), shade((5, 5, 5), (6, 6, 6)), shade((-3, 0, 0), (-2, 9, 1))];
    assert_eq!(joint_aabb(&[0, 2], &shapes), AABB::new(Vec3::new(-3, 0, 0), Vec3::new(1, 9, 1)));
    assert_eq!(joint_aabb(&[1], &shapes), shapes[1].bounds);
    assert_eq!(joint_aabb(&[1, 1, 1], &shapes), shapes[1].bounds);
    assert_eq!(joint_aabb(&[], &shapes), AABB::empty());
    assert_eq!(
        joint_aabb_from_shapes(&shapes),
        AABB::new(Vec3::new(-3, 0, 0), Vec3::new(6, 9, 6))
    );
    let nothing: Vec<Shade> = Vec::new();
    assert_eq!(joint_aabb_from_shapes(&nothing), AABB::empty());
}

#[test]
fn a_scene_holds_its_shapes_in_order() {
    let mut scene: Scene<Shade> = Scene::new();
    assert!(scene.objects.is_empty());
    assert_eq!(scene.bounding_box(0, ONE), AABB::empty());
    scene.set(vec![shade((0, 0, 0), (1, 1, 1)), shade((5, 5, 5), (6, 6, 6))]);
    assert_eq!(scene.objects.len(), 2);
    assert_eq!(scene.bounding_box(0, ONE), AABB::new(Vec3::new(0, 0, 0), Vec3::new(6, 6, 6)));
    scene.clear();
    assert!(scene.objects.is_empty());
    assert_eq!(scene.bounding_box(0, ONE), AABB::empty());
}

#[test]
fn a_seed_is_made_of_letters_and_digits() {
    for length in [0usize, 1, 32, 500] {
        let seed = get_seed(length);
        assert_eq!(seed.chars().count(), length);
        assert_eq!(seed.len(), length);
        assert!(seed.chars().all(|c| c.is_ascii_alphanumeric()));
    }
    // Thirty-two random characters do not come twice.
    assert_ne!(get_seed(32), get_seed(32));
}

#[test]
fn quotients_are_rounded_down() {
    assert_eq!(floor_div(7, 2), 3);
    assert_eq!(floor_div(-7, 2), -4);
    assert_eq!(floor_div(-8, 2), -4);
    assert_eq!(floor_div(0, 5), 0);
    assert_eq!(floor_div(-1, 1 << 100), -1);
    assert_eq!(floor_div(-(1 << 126), 1 << 126), -1);
    assert_eq!(floor_div(1 << 126, 1), 1 << 126);
}

#[test]
fn roots_are_rounded_down() {
    assert_eq!(isqrt(0), 0);
    assert_eq!(isqrt(1), 1);
    assert_eq!(isqrt(15), 3);
    assert_eq!(isqrt(16), 4);
    assert_eq!(isqrt(17), 4);
    assert_eq!(isqrt((1 << 126) - 1), (1 << 63) - 1);
    assert_eq!(isqrt(1 << 64), 1 << 32);
}

#[test]
fn narrowing_stops_at_the_ends_of_the_range() {
    assert_eq!(saturate(5), 5);
    assert_eq!(saturate(-5), -5);
    assert_eq!(saturate(i32::MAX as i128 + 1), i32::MAX);
    assert_eq!(saturate(i32::MIN as i128 - 1), i32::MIN);
    assert_eq!(saturate(i128::MAX), i32::MAX);
    assert_eq!(saturate(i128::MIN), i32::MIN);
}

#[test]
fn products_and_quotients_of_fixed_point_numbers() {
    assert_eq!(scaled_product(ONE, ONE), ONE);
    assert_eq!(scaled_product(ONE / 2, ONE / 2), ONE / 4);
    assert_eq!(scaled_product(3, ONE / 2), 1);
    assert_eq!(scaled_product(-3, ONE / 2), -2);
    assert_eq!(scaled_product(i32::MAX, i32::MAX), i32::MAX);
    assert_eq!(scaled_product(i32::MAX, i32::MIN), i32::MIN);
    assert_eq!(scaled_quotient(ONE, ONE as i64), ONE);
    assert_eq!(scaled_quotient(1, 3), 21845);
    assert_eq!(scaled_quotient(-1, 3), -21846);
    assert_eq!(scaled_quotient(i32::MAX, 1), i32::MAX);
}

#[test]
fn sums_and_products_of_vectors() {
    let a = Vec3::new(1, -2, i32::MAX);
    let b = Vec3::new(10, -20, 1);
    assert_eq!(a.sum(b), Vec3::new(11, -22, i32::MAX));
    assert_eq!(Vec3::new(i32::MIN, 0, 0).sum(Vec3::new(-1, 0, 0)), Vec3::new(i32::MIN, 0, 0));
    let half = Vec3::new(ONE / 2, ONE / 2, ONE / 2);
    assert_eq!(Vec3::new(ONE, 3, -3).product(half), Vec3::new(ONE / 2, 1, -2));
}

#[test]
fn the_length_and_the_direction_of_a_vector() {
    assert_eq!(Vec3::new(3, 4, 0).length(), 5);
    assert_eq!(Vec3::new(1, 1, 1).length(), 1);
    assert_eq!(Vec3::new(0, 0, 0).length(), 0);
    assert_eq!(Vec3::new(i32::MIN, i32::MIN, i32::MIN).length(), 3719550786);
    assert_eq!(unit_vector(Vec3::new(3, 4, 0)), Vec3::new(39321, 52428, 0));
    assert_eq!(unit_vector(Vec3::new(0, -7 * ONE, 0)), Vec3::new(0, -ONE, 0));
    assert_eq!(unit_vector(Vec3::new(0, 0, 0)), Vec3::new(0, 0, 0));
    assert_eq!(unit_vector(Vec3::new(-3, 0, 4)), Vec3::new(-39321, 0, 52428));
    // A vector of a few ticks has a direction as fine as a long one.
    assert_eq!(unit_vector(Vec3::new(1, 1, 0)), Vec3::new(46340, 46340, 0));
    assert_eq!(unit_vector(Vec3::new(1, 1, 1)), Vec3::new(37837, 37837, 37837));
    assert_eq!(unit_vector(Vec3::new(0, 0, -1)), Vec3::new(0, 0, -ONE));
    assert_eq!(
        unit_vector(Vec3::new(i32::MIN, i32::MIN, i32::MIN)),
        Vec3::new(-37837, -37837, -37837)
    );
    assert_eq!(unit_vector(Vec3::new(i32::MAX, 0, 0)), Vec3::new(ONE, 0, 0));
}
