use std::sync::Arc;

use pathtracer::aabb::AABB;
use pathtracer::geometry::Triangle;
use pathtracer::hittable::Hittable;
use pathtracer::ray::Ray;
use pathtracer::vec3::{Vec3, ONE};

fn corner() -> Triangle<&'static str> {
    Triangle {
        vertex0: Vec3::new(0, 0, 0),
        vertex1: Vec3::new(ONE, 0, 0),
        vertex2: Vec3::new(0, ONE, 0),
        material: Arc::new("paper"),
    }
}

fn from_above(x: i32, y: i32) -> Ray {
    Ray { origin: Vec3::new(x, y, ONE), direction: Vec3::new(0, 0, -ONE), time: 0 }
}

#[test]
fn a_ray_from_the_front_hits_the_triangle() {
    let triangle = corner();
    let hit = triangle
        .hit(&from_above(ONE / 4, ONE / 4), 0, i64::MAX)
        .expect("the ray points at the triangle");
    assert_eq!(hit.t, ONE as i64);
    assert_eq!(hit.p, Vec3::new(ONE / 4, ONE / 4, 0));
    assert_eq!(hit.u, ONE / 4);
    assert_eq!(hit.v, ONE / 4);
    assert_eq!(hit.normal, Vec3::new(0, 0, ONE));
    assert!(hit.front_face);
    assert!(Arc::ptr_eq(&hit.material, &triangle.material));
    assert_eq!(Arc::strong_count(&triangle.material), 2);
}

#[test]
fn a_ray_from_behind_passes_through() {
    let triangle = corner();
    let r = Ray { origin: Vec3::new(ONE / 4, ONE / 4, -ONE), direction: Vec3::new(0, 0, ONE), time: 0 };
    assert!(triangle.hit(&r, 0, i64::MAX).is_none());
}

#[test]
fn a_ray_beside_the_triangle_misses() {
    let triangle = corner();
    assert!(triangle.hit(&from_above(-1, ONE / 4), 0, i64::MAX).is_none());
    assert!(triangle.hit(&from_above(ONE / 4, -1), 0, i64::MAX).is_none());
    assert!(triangle.hit(&from_above(ONE / 2 + 1, ONE / 2), 0, i64::MAX).is_none());
    assert!(triangle.hit(&from_above(ONE, ONE), 0, i64::MAX).is_none());
}

#[test]
fn the_edges_and_corners_belong_to_the_triangle() {
    let triangle = corner();
    for (x, y) in [(0, 0), (ONE, 0), (0, ONE), (ONE / 2, ONE / 2), (0, ONE / 3), (ONE / 3, 0)] {
        let hit = triangle.hit(&from_above(x, y), 0, i64::MAX).expect("on the rim");
        assert_eq!((hit.u, hit.v), (x, y));
    }
}

#[test]
fn a_ray_along_the_triangle_misses() {
    let triangle = corner();
    let r = Ray { origin: Vec3::new(-ONE, ONE / 4, 0), direction: Vec3::new(ONE, 0, 0), time: 0 };
    assert!(triangle.hit(&r, 0, i64::MAX).is_none());
}

#[test]
fn a_hit_counts_within_the_range_only() {
    let triangle = corner();
    let r = from_above(ONE / 4, ONE / 4);
    let t = ONE as i64;
    assert!(triangle.hit(&r, 0, t).is_some());
    assert!(triangle.hit(&r, 0, t - 1).is_none());
    assert!(triangle.hit(&r, t - 1, t).is_some());
    assert!(triangle.hit(&r, t, i64::MAX).is_none());
}

#[test]
fn a_slanted_ray_hits_where_it_meets_the_plane() {
    let triangle = corner();
    let r = Ray {
        origin: Vec3::new(0, 0, 2 * ONE),
        direction: Vec3::new(ONE / 8, ONE / 4, -ONE),
        time: 0,
    };
    let hit = triangle.hit(&r, 0, i64::MAX).expect("the ray points at the triangle");
    assert_eq!(hit.t, 2 * ONE as i64);
    assert_eq!(hit.p, Vec3::new(ONE / 4, ONE / 2, 0));
    assert_eq!((hit.u, hit.v), (ONE / 4, ONE / 2));
}

#[test]
fn the_box_of_a_triangle_reaches_its_corners() {
    let triangle = Triangle {
        vertex0: Vec3::new(3, -2, 7),
        vertex1: Vec3::new(-1, 5, 7),
        vertex2: Vec3::new(0, 0, 9),
        material: Arc::new(()),
    };
    assert_eq!(triangle.bounding_box(), AABB::new(Vec3::new(-1, -2, 7), Vec3::new(3, 5, 9)));
}

#[test]
fn the_largest_triangle_does_not_overflow() {
    let triangle = Triangle {
        vertex0: Vec3::new(i32::MIN, i32::MIN, 0),
        vertex1: Vec3::new(i32::MAX, i32::MIN, 0),
        vertex2: Vec3::new(i32::MIN, i32::MAX, 0),
        material: Arc::new(()),
    };
    let r = Ray {
        origin: Vec3::new(-5, -5, i32::MAX),
        direction: Vec3::new(0, 0, i32::MIN),
        time: 0,
    };
    let hit = triangle.hit(&r, 0, i64::MAX).expect("the ray points at the triangle");
    assert_eq!(hit.t, 65535);
    assert_eq!(hit.p, Vec3::new(-5, -5, 32767));
    assert_eq!((hit.u, hit.v), (32767, 32767));
    assert_eq!(hit.normal, Vec3::new(0, 0, ONE));
}

fn dot(a: Vec3, b: Vec3) -> i64 {
    a.x as i64 * b.x as i64 + a.y as i64 * b.y as i64 + a.z as i64 * b.z as i64
}

#[test]
fn a_triangle_with_small_legs_has_a_normal_of_length_one() {
    let triangle = Triangle {
        vertex0: Vec3::new(0, 0, 0),
        vertex1: Vec3::new(100, 0, 0),
        vertex2: Vec3::new(0, 100, 0),
        material: Arc::new(()),
    };
    let r = Ray { origin: Vec3::new(10, 10, ONE), direction: Vec3::new(0, 0, -ONE), time: 0 };
    let hit = triangle.hit(&r, 65, i64::MAX).expect("the ray points at the triangle");
    assert_eq!(hit.t, ONE as i64);
    assert_eq!((hit.u, hit.v), (6553, 6553));
    assert_eq!(hit.normal, Vec3::new(0, 0, ONE));
    assert!(dot(r.direction, hit.normal) < 0);
}

#[test]
fn the_normal_of_a_slanted_sliver_is_turned_against_the_ray() {
    let triangle = Triangle {
        vertex0: Vec3::new(0, 0, 0),
        vertex1: Vec3::new(-ONE, 0, -ONE + 1),
        vertex2: Vec3::new(0, 1, 0),
        material: Arc::new(()),
    };
    let r = Ray { origin: Vec3::new(1000, 0, 1), direction: Vec3::new(-1000, 0, -1), time: 0 };
    let hit = triangle.hit(&r, 65, i64::MAX).expect("the ray points at the triangle");
    assert_eq!(hit.t, ONE as i64);
    assert_eq!(hit.normal, Vec3::new(46340, 0, -46341));
    assert_eq!(dot(r.direction, hit.normal), -46293659);
}

#[test]
fn the_normal_of_a_small_slanted_triangle() {
    let triangle = Triangle {
        vertex0: Vec3::new(0, 0, 0),
        vertex1: Vec3::new(200, 0, 100),
        vertex2: Vec3::new(0, 200, 100),
        material: Arc::new(()),
    };
    let r = Ray { origin: Vec3::new(50, 50, ONE), direction: Vec3::new(0, 0, -ONE), time: 0 };
    let hit = triangle.hit(&r, 65, i64::MAX).expect("the ray points at the triangle");
    assert_eq!(hit.t, 65486);
    assert_eq!(hit.normal, Vec3::new(-26754, -26754, 53509));
    // The length is one to within a tick or two.
    let square = dot(hit.normal, hit.normal);
    let one = ONE as i64;
    assert!((one - 2) * (one - 2) <= square && square <= one * one);
    assert!(dot(r.direction, hit.normal) < 0);
}

#[test]
fn every_hit_has_a_normal_of_length_one_against_the_ray() {
    let mut state: u64 = 99;
    let mut next = |lo: i32, hi: i32| {
        state = state.wrapping_mul(6364136223846793005).wrapping_add(1442695040888963407);
        lo + ((state >> 33) % ((hi - lo) as u64)) as i32
    };
    let mut hits = 0;
    for round in 0..4000 {
        // Triangles from a few ticks to many units across.
        let span = [40, 3000, ONE, 200 * ONE][round % 4];
        let v0 = Vec3::new(next(-span, span), next(-span, span), next(-span, span));
        let v1 = Vec3::new(next(-span, span), next(-span, span), next(-span, span));
        let v2 = Vec3::new(next(-span, span), next(-span, span), next(-span, span));
        let triangle = Triangle { vertex0: v0, vertex1: v1, vertex2: v2, material: Arc::new(()) };
        let inside = Vec3::new(
            ((v0.x as i64 + v1.x as i64 + v2.x as i64) / 3) as i32,
            ((v0.y as i64 + v1.y as i64 + v2.y as i64) / 3) as i32,
            ((v0.z as i64 + v1.z as i64 + v2.z as i64) / 3) as i32,
        );
        let origin = Vec3::new(next(-300 * ONE, 300 * ONE), next(-300 * ONE, 300 * ONE), next(-300 * ONE, 300 * ONE));
        let r = Ray {
            origin,
            direction: Vec3::new(inside.x - origin.x, inside.y - origin.y, inside.z - origin.z),
            time: 0,
        };
        if let Some(hit) = triangle.hit(&r, 0, i64::MAX) {
            hits += 1;
            let square = dot(hit.normal, hit.normal);
            let one = ONE as i64;
            assert!((one - 3) * (one - 3) <= square && square <= one * one);
            let taxi = r.direction.x.abs() as i64 + r.direction.y.abs() as i64 + r.direction.z.abs() as i64;
            assert!(dot(r.direction, hit.normal) <= 2 * taxi);
        }
    }
    assert!(hits > 200);
}
