use pathtracer::aabb::AABB;
use pathtracer::hittable::Hittable;
use pathtracer::ray::{HitRecord, Ray, T_MIN};
use pathtracer::vec3::{isqrt, Vec3, ONE};

/// A surface that every ray hits at one fixed parameter.
struct Plate {
    t: i64,
    id: u32,
}

impl Hittable for Plate {
    type Surface = u32;

    fn struck(&self, r: Ray, t_min: i64, t_max: i64) -> Option<HitRecord<u32>> {
        self.hit(&r, t_min, t_max)
    }

    fn bounds(&self) -> AABB {
        self.bounding_box()
    }

    fn hit(&self, r: &Ray, t_min: i64, t_max: i64) -> Option<HitRecord<u32>> {
        if t_min < self.t && self.t <= t_max {
            Some(HitRecord {
                p: r.at(self.t),
                normal: Vec3::new(0, ONE, 0),
                t: self.t,
                u: 0,
                v: 0,
                front_face: true,
                material: self.id,
            })
        } else {
            None
        }
    }

    fn bounding_box(&self) -> AABB {
        AABB::new(Vec3::new(i32::MIN, i32::MIN, i32::MIN), Vec3::new(i32::MAX, i32::MAX, i32::MAX))
    }
}

/// A surface that reports a hit at its parameter whatever the range.
struct Liar {
    t: i64,
}

impl Hittable for Liar {
    type Surface = u32;

    fn struck(&self, r: Ray, t_min: i64, t_max: i64) -> Option<HitRecord<u32>> {
        self.hit(&r, t_min, t_max)
    }

    fn bounds(&self) -> AABB {
        self.bounding_box()
    }

    fn hit(&self, r: &Ray, _t_min: i64, _t_max: i64) -> Option<HitRecord<u32>> {
        Some(HitRecord {
            p: r.at(self.t),
            normal: Vec3::new(0, ONE, 0),
            t: self.t,
            u: 0,
            v: 0,
            front_face: true,
            material: 0,
        })
    }

    fn bounding_box(&self) -> AABB {
        AABB::empty()
    }
}

/// A sphere in whole ticks.
struct Ball {
    center: Vec3,
    radius: i32,
}

impl Hittable for Ball {
    type Surface = ();

    fn struck(&self, r: Ray, t_min: i64, t_max: i64) -> Option<HitRecord<()>> {
        self.hit(&r, t_min, t_max)
    }

    fn bounds(&self) -> AABB {
        self.bounding_box()
    }

    fn hit(&self, r: &Ray, t_min: i64, t_max: i64) -> Option<HitRecord<()>> {
        let one = ONE as i128;
        let oc = [
            (r.origin.x - self.center.x) as i128,
            (r.origin.y - self.center.y) as i128,
            (r.origin.z - self.center.z) as i128,
        ];
        let d = [r.direction.x as i128, r.direction.y as i128, r.direction.z as i128];
        let a: i128 = d.iter().map(|c| c * c).sum();
        let half_b: i128 = (0..3).map(|k| oc[k] * d[k]).sum();
        let c: i128 = oc.iter().map(|c| c * c).sum::<i128>() - (self.radius as i128).pow(2);
        let discriminant = half_b * half_b - a * c;
        if discriminant < 0 || a == 0 {
            return None;
        }
        let sqrtd = isqrt(discriminant as u128) as i128;
        let mut root = ((-half_b - sqrtd) * one).div_euclid(a);
        if root <= t_min as i128 || root > t_max as i128 {
            root = ((-half_b + sqrtd) * one).div_euclid(a);
            if root <= t_min as i128 || root > t_max as i128 {
                return None;
            }
        }
        let t = root as i64;
        let p = r.at(t);
        let outward = Vec3::new(
            (((p.x - self.center.x) as i128 * one) / self.radius as i128) as i32,
            (((p.y - self.center.y) as i128 * one) / self.radius as i128) as i32,
            (((p.z - self.center.z) as i128 * one) / self.radius as i128) as i32,
        );
        Some(HitRecord { p, normal: outward, t, u: 0, v: 0, front_face: true, material: () })
    }

    fn bounding_box(&self) -> AABB {
        let r = self.radius;
        AABB::new(
            Vec3::new(self.center.x - r, self.center.y - r, self.center.z - r),
            Vec3::new(self.center.x + r, self.center.y + r, self.center.z + r),
        )
    }
}

fn any_ray() -> Ray {
    Ray { origin: Vec3::new(0, 0, 0), direction: Vec3::new(ONE, 0, 0), time: 0 }
}

#[test]
fn a_point_of_a_ray() {
    let r = Ray {
        origin: Vec3::new(ONE, 2 * ONE, 3 * ONE),
        direction: Vec3::new(ONE / 2, -ONE, 0),
        time: 0,
    };
    assert_eq!(r.at(3 * ONE as i64), Vec3::new(2 * ONE + ONE / 2, -ONE, 3 * ONE));
    assert_eq!(r.at(0), r.origin);
    assert_eq!(r.at(-(ONE as i64)), Vec3::new(ONE / 2, 3 * ONE, 3 * ONE));
}

#[test]
fn a_point_of_a_ray_is_rounded_down() {
    let r = Ray { origin: Vec3::new(0, 0, 0), direction: Vec3::new(1, -1, 3), time: 0 };
    assert_eq!(r.at(ONE as i64 / 2), Vec3::new(0, -1, 1));
    assert_eq!(r.at(ONE as i64), Vec3::new(1, -1, 3));
}

#[test]
fn a_point_of_a_ray_stops_at_the_ends_of_the_range() {
    let r = Ray {
        origin: Vec3::new(i32::MAX - 5, i32::MIN + 5, 0),
        direction: Vec3::new(ONE, -ONE, i32::MAX),
        time: 0,
    };
    assert_eq!(r.at(ONE as i64), Vec3::new(i32::MAX, i32::MIN, i32::MAX));
    assert_eq!(r.at(i64::MAX), Vec3::new(i32::MAX, i32::MIN, i32::MAX));
    assert_eq!(r.at(i64::MIN), Vec3::new(i32::MIN, i32::MAX, i32::MIN));
}

#[test]
fn the_scan_keeps_the_nearest_hit() {
    let plates = [Plate { t: 500, id: 0 }, Plate { t: 300, id: 1 }, Plate { t: 900, id: 2 }];
    let hit = any_ray().hit(plates.iter().collect()).expect("three plates are hit");
    assert_eq!(hit.t, 300);
    assert_eq!(hit.material, 1);
    assert_eq!(hit.p, Vec3::new(300, 0, 0));
}

#[test]
fn the_scan_of_nothing_finds_nothing() {
    let none: Vec<&Plate> = Vec::new();
    assert!(any_ray().hit(none).is_none());
}

#[test]
fn a_hit_counts_only_above_the_least_parameter() {
    assert_eq!(T_MIN, 65);
    let at_least = [Plate { t: T_MIN, id: 0 }];
    assert!(any_ray().hit(at_least.iter().collect()).is_none());
    let just_above = [Plate { t: T_MIN + 1, id: 0 }];
    assert_eq!(any_ray().hit(just_above.iter().collect()).map(|h| h.t), Some(T_MIN + 1));
    let behind = [Plate { t: -300, id: 0 }];
    assert!(any_ray().hit(behind.iter().collect()).is_none());
}

#[test]
fn the_furthest_parameter_still_counts() {
    let far = [Plate { t: i64::MAX, id: 3 }];
    assert_eq!(any_ray().hit(far.iter().collect()).map(|h| h.material), Some(3));
}

#[test]
fn of_two_hits_at_one_parameter_the_later_stays() {
    let plates = [Plate { t: 300, id: 0 }, Plate { t: 300, id: 1 }];
    let hit = any_ray().hit(plates.iter().collect()).expect("two plates are hit");
    assert_eq!(hit.material, 1);
}

#[test]
fn a_hit_beyond_the_nearest_is_not_kept() {
    let near = Liar { t: 500 };
    let far = Liar { t: 900 };
    let behind = Liar { t: 3 };
    let hit = any_ray().hit(vec![&near, &far, &behind]).expect("the near one is hit");
    assert_eq!(hit.t, 500);
}

#[test]
fn a_ray_towards_the_unit_sphere_hits_its_near_side() {
    let ball = Ball { center: Vec3::new(0, 0, 0), radius: ONE };
    let r = Ray { origin: Vec3::new(0, 0, -5 * ONE), direction: Vec3::new(0, 0, ONE), time: 0 };
    let hit = r.hit(vec![&ball]).expect("the ray points at the sphere");
    assert_eq!(hit.t, 4 * ONE as i64);
    assert_eq!(hit.p, Vec3::new(0, 0, -ONE));
    assert_eq!(hit.normal, Vec3::new(0, 0, -ONE));
}

#[test]
fn a_ray_past_the_unit_sphere_hits_nothing() {
    let ball = Ball { center: Vec3::new(0, 0, 0), radius: ONE };
    let r = Ray { origin: Vec3::new(2 * ONE, 0, -5 * ONE), direction: Vec3::new(0, 0, ONE), time: 0 };
    assert!(r.hit(vec![&ball]).is_none());
    assert!(!r.aabb_intersect(ball.bounding_box()));
}
