use std::cell::Cell;

use pathtracer::aabb::AABB;
use pathtracer::bvh::layout::Line;
use pathtracer::bvh::sah::{BVHNode, Bucket, BVH};
use pathtracer::hittable::Hittable;
use pathtracer::ray::{HitRecord, Ray};
use pathtracer::util::{joint_aabb, joint_aabb_from_shapes};
use pathtracer::vec3::{Vec3, ONE};

/// A solid box. A ray hits it one tick after it has come inside, counting
/// from `t_min`.
struct Block {
    bounds: AABB,
    id: usize,
    asked: Cell<u32>,
}

fn entered(lo: i32, hi: i32, o: i32, d: i32) -> Option<i128> {
    let (lo, hi, o, d) = (lo as i128, hi as i128, o as i128, d as i128);
    if d > 0 {
        Some(((lo - o) * ONE as i128).div_euclid(d))
    } else if d < 0 {
        Some(((o - hi) * ONE as i128).div_euclid(-d))
    } else {
        None
    }
}

impl Block {
    fn new(id: usize, bounds: AABB) -> Block {
        Block { bounds, id, asked: Cell::new(0) }
    }
}

impl Hittable for Block {
    type Surface = usize;

    fn struck(&self, r: Ray, t_min: i64, t_max: i64) -> Option<HitRecord<usize>> {
        self.hit(&r, t_min, t_max)
    }

    fn bounds(&self) -> AABB {
        self.bounding_box()
    }

    fn hit(&self, r: &Ray, t_min: i64, t_max: i64) -> Option<HitRecord<usize>> {
        self.asked.set(self.asked.get() + 1);
        if !self.bounds.hit(r, t_min, i64::MAX) {
            return None;
        }
        let b = &self.bounds;
        let mut entry = t_min as i128;
        for e in [
            entered(b.minimum.x, b.maximum.x, r.origin.x, r.direction.x),
            entered(b.minimum.y, b.maximum.y, r.origin.y, r.direction.y),
            entered(b.minimum.z, b.maximum.z, r.origin.z, r.direction.z),
        ] {
            if let Some(e) = e {
                entry = entry.max(e);
            }
        }
        let t = entry + 1;
        if t > t_max as i128 {
            return None;
        }
        let t = t as i64;
        Some(HitRecord {
            p: r.at(t),
            normal: Vec3::new(0, 0, ONE),
            t,
            u: 0,
            v: 0,
            front_face: true,
            material: self.id,
        })
    }

    fn bounding_box(&self) -> AABB {
        self.bounds
    }
}

fn cube_at(x: i32, y: i32, z: i32) -> AABB {
    AABB::new(
        Vec3::new(x * ONE, y * ONE, z * ONE),
        Vec3::new((x + 1) * ONE, (y + 1) * ONE, (z + 1) * ONE),
    )
}

fn span(x0: i32, x1: i32) -> AABB {
    AABB::new(Vec3::new(x0 * ONE, 0, 0), Vec3::new(x1 * ONE, ONE, ONE))
}

fn row(xs: &[i32]) -> Vec<Block> {
    xs.iter().enumerate().map(|(id, x)| Block::new(id, cube_at(*x, 0, 0))).collect()
}

struct Lcg(u64);

impl Lcg {
    fn next(&mut self) -> u64 {
        self.0 = self.0.wrapping_mul(6364136223846793005).wrapping_add(1442695040888963407);
        self.0 >> 33
    }

    fn between(&mut self, lo: i32, hi: i32) -> i32 {
        lo + (self.next() % ((hi - lo) as u64)) as i32
    }
}

fn random_scene(rng: &mut Lcg, n: usize) -> Vec<Block> {
    (0..n)
        .map(|id| {
            let lo = Vec3::new(
                rng.between(-20 * ONE, 20 * ONE),
                rng.between(-20 * ONE, 20 * ONE),
                rng.between(-20 * ONE, 20 * ONE),
            );
            let hi = Vec3::new(
                lo.x + rng.between(1, 4 * ONE),
                lo.y + rng.between(1, 4 * ONE),
                lo.z + rng.between(1, 4 * ONE),
            );
            Block::new(id, AABB::new(lo, hi))
        })
        .collect()
}

fn random_ray(rng: &mut Lcg) -> Ray {
    Ray {
        origin: Vec3::new(
            rng.between(-30 * ONE, 30 * ONE),
            rng.between(-30 * ONE, 30 * ONE),
            rng.between(-30 * ONE, 30 * ONE),
        ),
        direction: Vec3::new(
            rng.between(-ONE, ONE + 1),
            rng.between(-ONE, ONE + 1),
            rng.between(-ONE, ONE + 1),
        ),
        time: 0,
    }
}

/// A ray from a random point towards the middle of one of the shapes.
fn aimed_ray(rng: &mut Lcg, shapes: &[Block]) -> Ray {
    let target = shapes[rng.between(0, shapes.len() as i32) as usize].bounds.center();
    let origin = Vec3::new(
        rng.between(-30 * ONE, 30 * ONE),
        rng.between(-30 * ONE, 30 * ONE),
        rng.between(-30 * ONE, 30 * ONE),
    );
    Ray {
        origin,
        direction: Vec3::new(
            (target.x - origin.x) / 64,
            (target.y - origin.y) / 64,
            (target.z - origin.z) / 64,
        ),
        time: 0,
    }
}

fn leaves_below(nodes: &[BVHNode], i: usize, out: &mut Vec<usize>) {
    match nodes[i] {
        BVHNode::Leaf { shape_index, .. } => out.push(shape_index),
        BVHNode::Node { child_l_index, child_r_index, .. } => {
            leaves_below(nodes, child_l_index, out);
            leaves_below(nodes, child_r_index, out);
        }
    }
}

#[test]
fn a_bucket_counts_and_joins() {
    let mut b = Bucket::empty();
    assert_eq!(b.size, 0);
    assert_eq!(b.aabb, AABB::empty());
    b.add_aabb(&cube_at(0, 0, 0));
    b.add_aabb(&cube_at(2, 0, 0));
    assert_eq!(b.size, 2);
    assert_eq!(b.aabb, span(0, 3));
    let mut c = Bucket::empty();
    c.add_aabb(&cube_at(7, 0, 0));
    let both = Bucket::join_bucket(b, &c);
    assert_eq!(both.size, 3);
    assert_eq!(both.aabb, span(0, 8));
}

#[test]
fn one_shape_makes_one_leaf() {
    let shapes = row(&[4]);
    let bvh = BVH::build(&shapes);
    assert_eq!(bvh.nodes, vec![BVHNode::Leaf { depth: 0, parent_index: 0, shape_index: 0 }]);
}

#[test]
fn two_far_boxes_make_a_root_and_two_leaves() {
    let shapes = vec![Block::new(0, cube_at(0, 0, 0)), Block::new(1, cube_at(5, 5, 5))];
    let bvh = BVH::build(&shapes);
    assert_eq!(
        bvh.nodes,
        vec![
            BVHNode::Node {
                depth: 0,
                parent_index: 0,
                child_l_index: 1,
                child_l_aabb: cube_at(0, 0, 0),
                child_r_index: 2,
                child_r_aabb: cube_at(5, 5, 5),
            },
            BVHNode::Leaf { depth: 1, parent_index: 0, shape_index: 0 },
            BVHNode::Leaf { depth: 1, parent_index: 0, shape_index: 1 },
        ]
    );
}

#[test]
fn the_cheapest_split_between_buckets_divides_a_row() {
    let shapes = row(&[0, 1, 2, 10]);
    let bvh = BVH::build(&shapes);
    assert_eq!(
        bvh.nodes,
        vec![
            BVHNode::Node {
                depth: 0,
                parent_index: 0,
                child_l_index: 1,
                child_l_aabb: span(0, 3),
                child_r_index: 6,
                child_r_aabb: span(10, 11),
            },
            BVHNode::Node {
                depth: 1,
                parent_index: 0,
                child_l_index: 2,
                child_l_aabb: span(0, 1),
                child_r_index: 3,
                child_r_aabb: span(1, 3),
            },
            BVHNode::Leaf { depth: 2, parent_index: 1, shape_index: 0 },
            BVHNode::Node {
                depth: 2,
                parent_index: 1,
                child_l_index: 4,
                child_l_aabb: span(1, 2),
                child_r_index: 5,
                child_r_aabb: span(2, 3),
            },
            BVHNode::Leaf { depth: 3, parent_index: 3, shape_index: 1 },
            BVHNode::Leaf { depth: 3, parent_index: 3, shape_index: 2 },
            BVHNode::Leaf { depth: 1, parent_index: 0, shape_index: 3 },
        ]
    );
}

#[test]
fn shapes_with_one_centre_are_divided_in_the_middle() {
    let shapes = row(&[3, 3, 3]);
    let bvh = BVH::build(&shapes);
    assert_eq!(
        bvh.nodes,
        vec![
            BVHNode::Node {
                depth: 0,
                parent_index: 0,
                child_l_index: 1,
                child_l_aabb: span(3, 4),
                child_r_index: 2,
                child_r_aabb: span(3, 4),
            },
            BVHNode::Leaf { depth: 1, parent_index: 0, shape_index: 0 },
            BVHNode::Node {
                depth: 1,
                parent_index: 0,
                child_l_index: 3,
                child_l_aabb: span(3, 4),
                child_r_index: 4,
                child_r_aabb: span(3, 4),
            },
            BVHNode::Leaf { depth: 2, parent_index: 2, shape_index: 1 },
            BVHNode::Leaf { depth: 2, parent_index: 2, shape_index: 2 },
        ]
    );
}

#[test]
fn a_subtree_is_built_behind_the_nodes_that_are_there() {
    let shapes = row(&[0, 9]);
    let mut nodes = vec![BVHNode::Leaf { depth: 7, parent_index: 7, shape_index: 7 }];
    let root = BVHNode::build(&shapes, &[1, 0], &mut nodes, 5, 2);
    assert_eq!(root, 1);
    assert_eq!(
        nodes,
        vec![
            BVHNode::Leaf { depth: 7, parent_index: 7, shape_index: 7 },
            BVHNode::Node {
                depth: 2,
                parent_index: 5,
                child_l_index: 2,
                child_l_aabb: span(0, 1),
                child_r_index: 3,
                child_r_aabb: span(9, 10),
            },
            BVHNode::Leaf { depth: 3, parent_index: 1, shape_index: 0 },
            BVHNode::Leaf { depth: 3, parent_index: 1, shape_index: 1 },
        ]
    );
}

#[test]
fn the_outline_and_the_total_area_of_a_row() {
    let shapes = row(&[0, 1, 2, 10]);
    let bvh = BVH::build(&shapes);
    let unit = ONE as i128 * ONE as i128;
    assert_eq!(bvh.total_surface_area(), 70 * unit);
    assert_eq!(
        bvh.outline(),
        vec![
            Line::Left { depth: 0, aabb: span(0, 3) },
            Line::Left { depth: 1, aabb: span(0, 1) },
            Line::Shape { depth: 2, shape_index: 0 },
            Line::Right { depth: 1, aabb: span(1, 3) },
            Line::Left { depth: 2, aabb: span(1, 2) },
            Line::Shape { depth: 3, shape_index: 1 },
            Line::Right { depth: 2, aabb: span(2, 3) },
            Line::Shape { depth: 3, shape_index: 2 },
            Line::Right { depth: 0, aabb: span(10, 11) },
            Line::Shape { depth: 1, shape_index: 3 },
        ]
    );
}

#[test]
fn a_ray_aimed_at_one_box_does_not_ask_the_other() {
    let shapes = vec![Block::new(0, cube_at(0, 0, 0)), Block::new(1, cube_at(5, 5, 5))];
    let bvh = BVH::build(&shapes);
    let r = Ray {
        origin: Vec3::new(5 * ONE + ONE / 2, 5 * ONE + ONE / 2, -10 * ONE),
        direction: Vec3::new(0, 0, ONE),
        time: 0,
    };
    let candidates = bvh.traverse(&r, &shapes);
    assert_eq!(candidates.len(), 1);
    assert_eq!(candidates[0].id, 1);
    let hit = r.hit(candidates).expect("the ray passes through the second box");
    assert_eq!(hit.material, 1);
    // The ray comes inside at fifteen units.
    assert_eq!(hit.t, 15 * ONE as i64 + 1);
    assert_eq!(shapes[0].asked.get(), 0);
    assert_eq!(shapes[1].asked.get(), 1);
}

#[test]
fn a_ray_aimed_at_neither_box_asks_none() {
    let shapes = vec![Block::new(0, cube_at(0, 0, 0)), Block::new(1, cube_at(5, 5, 5))];
    let bvh = BVH::build(&shapes);
    let r = Ray {
        origin: Vec3::new(20 * ONE, 20 * ONE, -10 * ONE),
        direction: Vec3::new(0, 0, ONE),
        time: 0,
    };
    let candidates = bvh.traverse(&r, &shapes);
    assert!(candidates.is_empty());
    assert!(r.hit(candidates).is_none());
    assert_eq!(shapes[0].asked.get() + shapes[1].asked.get(), 0);
}

#[test]
fn a_single_leaf_is_always_a_candidate() {
    let shapes = row(&[4]);
    let bvh = BVH::build(&shapes);
    let r = Ray { origin: Vec3::new(0, 50 * ONE, 0), direction: Vec3::new(0, ONE, 0), time: 0 };
    assert_eq!(bvh.traverse(&r, &shapes).len(), 1);
}

#[test]
fn the_leaves_hold_every_shape_once_and_the_boxes_fit() {
    let mut rng = Lcg(99);
    for n in [1usize, 2, 3, 5, 8, 13, 40, 100] {
        let shapes = random_scene(&mut rng, n);
        let bvh = BVH::build(&shapes);
        assert_eq!(bvh.nodes.len(), 2 * n - 1);
        let mut all = Vec::new();
        leaves_below(&bvh.nodes, 0, &mut all);
        let joined = joint_aabb(&all, &shapes);
        assert_eq!(joined, joint_aabb_from_shapes(&shapes));
        let mut sorted = all.clone();
        sorted.sort();
        assert_eq!(sorted, (0..n).collect::<Vec<usize>>());
        for (i, node) in bvh.nodes.iter().enumerate() {
            if let BVHNode::Node {
                child_l_index, child_l_aabb, child_r_index, child_r_aabb, depth, ..
            } = node
            {
                assert!(*child_l_index == i + 1 && *child_r_index > *child_l_index);
                let mut left = Vec::new();
                leaves_below(&bvh.nodes, *child_l_index, &mut left);
                assert_eq!(*child_l_aabb, joint_aabb(&left, &shapes));
                let mut right = Vec::new();
                leaves_below(&bvh.nodes, *child_r_index, &mut right);
                assert_eq!(*child_r_aabb, joint_aabb(&right, &shapes));
                for child in [*child_l_index, *child_r_index] {
                    match bvh.nodes[child] {
                        BVHNode::Leaf { depth: d, parent_index, .. }
                        | BVHNode::Node { depth: d, parent_index, .. } => {
                            assert_eq!(d, depth + 1);
                            assert_eq!(parent_index, i);
                        }
                    }
                }
            }
        }
    }
}

#[test]
fn the_hierarchy_finds_what_a_scan_of_all_shapes_finds() {
    let mut rng = Lcg(4242);
    let mut found = 0;
    for round in 0..40 {
        let shapes = random_scene(&mut rng, 1 + round % 30);
        let bvh = BVH::build(&shapes);
        for k in 0..200 {
            let r = if k % 2 == 0 { random_ray(&mut rng) } else { aimed_ray(&mut rng, &shapes) };
            let through = r.hit(bvh.traverse(&r, &shapes));
            let scan = r.hit(shapes.iter().collect());
            assert_eq!(through.is_some(), scan.is_some());
            if let (Some(a), Some(b)) = (through, scan) {
                found += 1;
                assert_eq!(a.t, b.t);
                // The nearest hit is no further than the hit on any shape.
                for s in &shapes {
                    if let Some(h) = s.hit(&r, 65, i64::MAX) {
                        assert!(a.t <= h.t);
                    }
                }
            }
        }
    }
    assert!(found > 100);
}

#[test]
fn the_candidates_hold_every_shape_whose_box_the_line_crosses() {
    let mut rng = Lcg(77);
    for round in 0..20 {
        let shapes = random_scene(&mut rng, 2 + round);
        let bvh = BVH::build(&shapes);
        for _ in 0..100 {
            let r = random_ray(&mut rng);
            let ids: Vec<usize> = bvh.traverse(&r, &shapes).iter().map(|s| s.id).collect();
            for s in &shapes {
                if s.bounds.hit_faster(&r) {
                    assert!(ids.contains(&s.id));
                }
            }
            let mut once = ids.clone();
            once.sort();
            once.dedup();
            assert_eq!(once.len(), ids.len());
        }
    }
}

#[test]
fn a_built_hierarchy_is_well_linked_and_a_broken_one_is_not() {
    let shapes = row(&[0, 1, 2, 10]);
    let mut bvh = BVH::build(&shapes);
    assert!(bvh.is_linked(4));
    assert!(bvh.is_linked(usize::MAX));
    // The last shape is not one of three.
    assert!(!bvh.is_linked(3));
    assert!(BVHNode::linked_from(&bvh.nodes, 3, 3));
    assert!(!BVHNode::linked_from(&bvh.nodes, 7, 4));
    // A child that is its own parent.
    bvh.nodes[3] = BVHNode::Node {
        depth: 2,
        parent_index: 1,
        child_l_index: 3,
        child_l_aabb: span(1, 2),
        child_r_index: 5,
        child_r_aabb: span(2, 3),
    };
    assert!(!bvh.is_linked(4));
    // A child beyond the array.
    bvh.nodes[3] = BVHNode::Node {
        depth: 2,
        parent_index: 1,
        child_l_index: 4,
        child_l_aabb: span(1, 2),
        child_r_index: 7,
        child_r_aabb: span(2, 3),
    };
    assert!(!bvh.is_linked(4));
    assert!(!BVH { nodes: Vec::new() }.is_linked(4));
}

#[test]
fn the_blocks_obey_the_laws_of_a_surface() {
    let mut rng = Lcg(2718);
    let shapes = random_scene(&mut rng, 30);
    let mut hits = 0;
    for k in 0..3000 {
        let r = if k % 2 == 0 { random_ray(&mut rng) } else { aimed_ray(&mut rng, &shapes) };
        let t_min = rng.between(-5, 5) as i64 * ONE as i64;
        let t_max = t_min + rng.between(-2, 100) as i64 * ONE as i64;
        for s in &shapes {
            let within = s.hit(&r, t_min, t_max);
            let beyond = s.hit(&r, t_min, i64::MAX);
            // What is reported within a range is what is reported without
            // an upper limit, cut off at the limit.
            match (&within, &beyond) {
                (Some(a), Some(b)) => assert!(a.t == b.t && b.t <= t_max),
                (None, Some(b)) => assert!(b.t > t_max),
                (None, None) => {}
                (Some(_), None) => panic!("a hit within a range is a hit without a limit"),
            }
            if let Some(h) = within {
                hits += 1;
                assert!(t_min < h.t && h.t <= t_max);
                assert!(s.bounds.hit(&r, t_min, t_max));
            }
        }
    }
    assert!(hits > 100);
}

#[test]
fn a_leaf_at_the_greatest_depth() {
    let shapes = row(&[4]);
    let mut nodes = Vec::new();
    let root = BVHNode::build(&shapes, &[0], &mut nodes, 3, u32::MAX);
    assert_eq!(root, 0);
    assert_eq!(nodes, vec![BVHNode::Leaf { depth: u32::MAX, parent_index: 3, shape_index: 0 }]);
    let mut below = Vec::new();
    BVHNode::build(&shapes, &[0, 0], &mut below, 0, u32::MAX - 1);
    assert_eq!(below[1], BVHNode::Leaf { depth: u32::MAX, parent_index: 0, shape_index: 0 });
}
