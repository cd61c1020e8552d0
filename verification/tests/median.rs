use pathtracer::aabb::AABB;
use pathtracer::bvh::layout::Line;
use pathtracer::bvh::{Bvh, BvhNode, Mark};
use pathtracer::bvh2::{BVHNode, BVH};
use pathtracer::hittable::Hittable;
use pathtracer::ray::{HitRecord, Ray};
use pathtracer::util::joint_aabb_from_shapes;
use pathtracer::vec3::{Vec3, ONE};

/// A solid box. A ray hits it one tick after it has come inside, counting
/// from `t_min`.
struct Block {
    bounds: AABB,
    id: usize,
}

fn entered(lo: i32, hi: i32, o: i32, d: i32) -> Option<i128> {
    let (lo, hi, o, d) = (lo as i128, hi as i128, o as i128, d as i128);
    if d > 0 {
        Some(((lo - o) * ONE as i128).div_euclid(d))
    } else if d < 0 {
        Some(((o - hi) * ONE as i128).div_euclid(-d))
    } else {
        None
    }
}

impl Hittable for Block {
    type Surface = usize;

    fn struck(&self, r: Ray, t_min: i64, t_max: i64) -> Option<HitRecord<usize>> {
        self.hit(&r, t_min, t_max)
    }

    fn bounds(&self) -> AABB {
        self.bounding_box()
    }

    fn hit(&self, r: &Ray, t_min: i64, t_max: i64) -> Option<HitRecord<usize>> {
        if !self.bounds.hit(r, t_min, i64::MAX) {
            return None;
        }
        let b = &self.bounds;
        let mut entry = t_min as i128;
        for e in [
            entered(b.minimum.x, b.maximum.x, r.origin.x, r.direction.x),
            entered(b.minimum.y, b.maximum.y, r.origin.y, r.direction.y),
            entered(b.minimum.z, b.maximum.z, r.origin.z, r.direction.z),
        ] {
            if let Some(e) = e {
                entry = entry.max(e);
            }
        }
        let t = entry + 1;
        if t > t_max as i128 {
            return None;
        }
        let t = t as i64;
        Some(HitRecord {
            p: r.at(t),
            normal: Vec3::new(0, 0, ONE),
            t,
            u: 0,
            v: 0,
            front_face: true,
            material: self.id,
        })
    }

    fn bounding_box(&self) -> AABB {
        self.bounds
    }
}

fn span(x0: i32, x1: i32) -> AABB {
    AABB::new(Vec3::new(x0 * ONE, 0, 0), Vec3::new(x1 * ONE, ONE, ONE))
}

fn row(xs: &[i32]) -> Vec<Block> {
    xs.iter().enumerate().map(|(id, x)| Block { id, bounds: span(*x, *x + 1) }).collect()
}

struct Lcg(u64);

impl Lcg {
    fn next(&mut self) -> u64 {
        self.0 = self.0.wrapping_mul(6364136223846793005).wrapping_add(1442695040888963407);
        self.0 >> 33
    }

    fn between(&mut self, lo: i32, hi: i32) -> i32 {
        lo + (self.next() % ((hi - lo) as u64)) as i32
    }
}

fn random_scene(rng: &mut Lcg, n: usize) -> Vec<Block> {
    (0..n)
        .map(|id| {
            let lo = Vec3::new(
                rng.between(-20 * ONE, 20 * ONE),
                rng.between(-20 * ONE, 20 * ONE),
                rng.between(-20 * ONE, 20 * ONE),
            );
            let hi = Vec3::new(
                lo.x + rng.between(1, 4 * ONE),
                lo.y + rng.between(1, 4 * ONE),
                lo.z + rng.between(1, 4 * ONE),
            );
            Block { id, bounds: AABB::new(lo, hi) }
        })
        .collect()
}

fn aimed_ray(rng: &mut Lcg, shapes: &[Block]) -> Ray {
    let target = shapes[rng.between(0, shapes.len() as i32) as usize].bounds.center();
    let origin = Vec3::new(
        rng.between(-30 * ONE, 30 * ONE),
        rng.between(-30 * ONE, 30 * ONE),
        rng.between(-30 * ONE, 30 * ONE),
    );
    Ray {
        origin,
        direction: Vec3::new(
            (target.x - origin.x) / 64 + rng.between(-300, 300),
            (target.y - origin.y) / 64 + rng.between(-300, 300),
            (target.z - origin.z) / 64 + rng.between(-300, 300),
        ),
        time: 0,
    }
}

fn ids_of(bvh: &Bvh<Block>, out: &mut Vec<usize>) {
    match &bvh.tree {
        BvhNode::Leaf(shape) => out.push(shape.id),
        BvhNode::Branch { left, right } => {
            ids_of(left, out);
            ids_of(right, out);
        }
    }
}

fn boxes_fit(bvh: &Bvh<Block>) -> bool {
    match &bvh.tree {
        BvhNode::Leaf(shape) => bvh.bbox == shape.bounds,
        BvhNode::Branch { left, right } => {
            bvh.bbox == left.bbox.join(&right.bbox) && boxes_fit(left) && boxes_fit(right)
        }
    }
}

#[test]
fn the_median_divides_the_sorted_row() {
    let mut shapes = row(&[3, 1, 2, 0]);
    let bvh = BVH::build(&mut shapes);
    assert_eq!(
        bvh.nodes,
        vec![
            BVHNode::Node {
                depth: 0,
                parent_index: 0,
                child_l_index: 1,
                child_l_aabb: span(0, 2),
                child_r_index: 4,
                child_r_aabb: span(2, 4),
            },
            BVHNode::Node {
                depth: 1,
                parent_index: 0,
                child_l_index: 2,
                child_l_aabb: span(0, 1),
                child_r_index: 3,
                child_r_aabb: span(1, 2),
            },
            BVHNode::Leaf { depth: 2, parent_index: 1, shape_index: 3 },
            BVHNode::Leaf { depth: 2, parent_index: 1, shape_index: 1 },
            BVHNode::Node {
                depth: 1,
                parent_index: 0,
                child_l_index: 5,
                child_l_aabb: span(2, 3),
                child_r_index: 6,
                child_r_aabb: span(3, 4),
            },
            BVHNode::Leaf { depth: 2, parent_index: 4, shape_index: 2 },
            BVHNode::Leaf { depth: 2, parent_index: 4, shape_index: 0 },
        ]
    );
    assert_eq!(shapes.len(), 4);
    assert_eq!(shapes[0].id, 0);
}

#[test]
fn building_leaves_the_indices_in_the_order_of_the_leaves() {
    let shapes = row(&[3, 1, 2, 0]);
    let mut indices = vec![0, 1, 2, 3];
    let mut nodes = Vec::new();
    let root = BVHNode::build(&shapes, &mut indices, &mut nodes, 0, 0);
    assert_eq!(root, 0);
    assert_eq!(indices, vec![3, 1, 2, 0]);
    assert_eq!(nodes.len(), 7);
}

#[test]
fn an_odd_number_puts_the_shorter_half_on_the_left() {
    let shapes = row(&[2, 0, 1]);
    let mut indices = vec![0, 1, 2];
    let mut nodes = Vec::new();
    BVHNode::build(&shapes, &mut indices, &mut nodes, 0, 0);
    assert_eq!(indices, vec![1, 2, 0]);
    assert_eq!(
        nodes[0],
        BVHNode::Node {
            depth: 0,
            parent_index: 0,
            child_l_index: 1,
            child_l_aabb: span(0, 1),
            child_r_index: 2,
            child_r_aabb: span(1, 3),
        }
    );
    assert_eq!(nodes[1], BVHNode::Leaf { depth: 1, parent_index: 0, shape_index: 1 });
}

#[test]
fn shapes_with_equal_keys_keep_their_order() {
    let shapes = row(&[5, 5, 5, 5]);
    let mut indices = vec![2, 0, 3, 1];
    let mut nodes = Vec::new();
    BVHNode::build(&shapes, &mut indices, &mut nodes, 0, 0);
    assert_eq!(indices, vec![2, 0, 3, 1]);
}

#[test]
fn the_other_builder_divides_by_the_heuristic() {
    let shapes = row(&[3, 1, 2, 0]);
    let mut indices = vec![0, 1, 2, 3];
    let mut nodes = Vec::new();
    let root = BVHNode::build_sah(&shapes, &mut indices, &mut nodes, 9, 0, 0, ONE);
    assert_eq!(root, 0);
    assert_eq!(indices, vec![3, 1, 2, 0]);
    assert_eq!(
        nodes,
        vec![
            BVHNode::Node {
                depth: 0,
                parent_index: 9,
                child_l_index: 1,
                child_l_aabb: span(0, 2),
                child_r_index: 4,
                child_r_aabb: span(2, 4),
            },
            BVHNode::Node {
                depth: 1,
                parent_index: 0,
                child_l_index: 2,
                child_l_aabb: span(0, 1),
                child_r_index: 3,
                child_r_aabb: span(1, 2),
            },
            BVHNode::Leaf { depth: 2, parent_index: 1, shape_index: 3 },
            BVHNode::Leaf { depth: 2, parent_index: 1, shape_index: 1 },
            BVHNode::Node {
                depth: 1,
                parent_index: 0,
                child_l_index: 5,
                child_l_aabb: span(2, 3),
                child_r_index: 6,
                child_r_aabb: span(3, 4),
            },
            BVHNode::Leaf { depth: 2, parent_index: 4, shape_index: 2 },
            BVHNode::Leaf { depth: 2, parent_index: 4, shape_index: 0 },
        ]
    );
}

#[test]
fn the_heuristic_sets_a_far_shape_apart_where_the_median_does_not() {
    let shapes = row(&[0, 1, 2, 10]);
    let mut indices = vec![0, 1, 2, 3];
    let mut nodes = Vec::new();
    BVHNode::build_sah(&shapes, &mut indices, &mut nodes, 0, 0, 0, ONE);
    assert_eq!(indices, vec![0, 1, 2, 3]);
    assert_eq!(
        nodes,
        vec![
            BVHNode::Node {
                depth: 0,
                parent_index: 0,
                child_l_index: 1,
                child_l_aabb: span(0, 3),
                child_r_index: 6,
                child_r_aabb: span(10, 11),
            },
            BVHNode::Node {
                depth: 1,
                parent_index: 0,
                child_l_index: 2,
                child_l_aabb: span(0, 1),
                child_r_index: 3,
                child_r_aabb: span(1, 3),
            },
            BVHNode::Leaf { depth: 2, parent_index: 1, shape_index: 0 },
            BVHNode::Node {
                depth: 2,
                parent_index: 1,
                child_l_index: 4,
                child_l_aabb: span(1, 2),
                child_r_index: 5,
                child_r_aabb: span(2, 3),
            },
            BVHNode::Leaf { depth: 3, parent_index: 3, shape_index: 1 },
            BVHNode::Leaf { depth: 3, parent_index: 3, shape_index: 2 },
            BVHNode::Leaf { depth: 1, parent_index: 0, shape_index: 3 },
        ]
    );
    let mut by_median = Vec::new();
    BVHNode::build(&shapes, &mut indices, &mut by_median, 0, 0);
    assert_eq!(
        by_median[0],
        BVHNode::Node {
            depth: 0,
            parent_index: 0,
            child_l_index: 1,
            child_l_aabb: span(0, 2),
            child_r_index: 4,
            child_r_aabb: span(2, 11),
        }
    );
}

#[test]
fn the_other_builder_leaves_the_indices_in_the_order_of_the_leaves() {
    let mut rng = Lcg(4711);
    for n in [1usize, 2, 3, 7, 20, 65] {
        let shapes = random_scene(&mut rng, n);
        let mut indices: Vec<usize> = (0..n).rev().collect();
        let mut nodes = Vec::new();
        BVHNode::build_sah(&shapes, &mut indices, &mut nodes, 0, 0, 0, ONE);
        assert_eq!(nodes.len(), 2 * n - 1);
        let leaves: Vec<usize> = nodes
            .iter()
            .filter_map(|node| match node {
                BVHNode::Leaf { shape_index, .. } => Some(*shape_index),
                BVHNode::Node { .. } => None,
            })
            .collect();
        assert_eq!(leaves, indices);
        let mut sorted = indices.clone();
        sorted.sort();
        assert_eq!(sorted, (0..n).collect::<Vec<usize>>());
        assert!(BVHNode::linked_from(&nodes, 0, n));
    }
}

#[test]
fn the_other_builder_makes_a_leaf_of_one_shape() {
    let shapes = row(&[3]);
    let mut indices = vec![0];
    let mut nodes = Vec::new();
    BVHNode::build_sah(&shapes, &mut indices, &mut nodes, 4, 2, 0, ONE);
    assert_eq!(nodes, vec![BVHNode::Leaf { depth: 2, parent_index: 4, shape_index: 0 }]);
}

#[test]
fn the_median_hierarchy_walks_and_outlines() {
    let mut shapes = row(&[0, 9]);
    let bvh = BVH::build(&mut shapes);
    let r = Ray {
        origin: Vec3::new(9 * ONE + ONE / 2, ONE / 2, -3 * ONE),
        direction: Vec3::new(0, 0, ONE),
        time: 0,
    };
    let found = bvh.traverse(&r, &shapes);
    assert_eq!(found.iter().map(|s| s.id).collect::<Vec<usize>>(), vec![1]);
    assert_eq!(
        bvh.outline(),
        vec![
            Line::Left { depth: 0, aabb: span(0, 1) },
            Line::Shape { depth: 1, shape_index: 0 },
            Line::Right { depth: 0, aabb: span(9, 10) },
            Line::Shape { depth: 1, shape_index: 1 },
        ]
    );
    let mut indices = Vec::new();
    BVHNode::traverse(&r, &bvh.nodes, 0, &mut indices);
    assert_eq!(indices, vec![1]);
}

#[test]
fn the_median_hierarchy_finds_what_a_scan_finds() {
    let mut rng = Lcg(31337);
    let mut found = 0;
    for round in 0..40 {
        let mut shapes = random_scene(&mut rng, 1 + round % 30);
        let bvh = BVH::build(&mut shapes);
        assert_eq!(bvh.nodes.len(), 2 * shapes.len() - 1);
        for _ in 0..100 {
            let r = aimed_ray(&mut rng, &shapes);
            let through = r.hit(bvh.traverse(&r, &shapes));
            let scan = r.hit(shapes.iter().collect());
            assert_eq!(through.is_some(), scan.is_some());
            if let (Some(a), Some(b)) = (through, scan) {
                found += 1;
                assert_eq!(a.t, b.t);
            }
        }
    }
    assert!(found > 100);
}

#[test]
fn the_tree_is_planted_over_the_sorted_halves() {
    let bvh = Bvh::new(row(&[3, 1, 2, 0]));
    let mut ids = Vec::new();
    ids_of(&bvh, &mut ids);
    assert_eq!(ids, vec![3, 1, 2, 0]);
    assert_eq!(bvh.bbox, span(0, 4));
    assert_eq!(bvh.bounding_box(), span(0, 4));
    match &bvh.tree {
        BvhNode::Branch { left, right } => {
            assert_eq!(left.bbox, span(0, 2));
            assert_eq!(right.bbox, span(2, 4));
            assert!(matches!(left.tree, BvhNode::Branch { .. }));
        }
        BvhNode::Leaf(_) => panic!("four shapes make a branch"),
    }
    assert!(boxes_fit(&bvh));
}

#[test]
fn the_tree_of_one_shape_is_a_leaf() {
    let bvh = Bvh::new(row(&[6]));
    assert!(matches!(&bvh.tree, BvhNode::Leaf(shape) if shape.id == 0));
    assert_eq!(bvh.bbox, span(6, 7));
}

#[test]
fn the_tree_of_three_shapes_has_one_on_the_left() {
    let bvh = Bvh::new(row(&[2, 0, 1]));
    match &bvh.tree {
        BvhNode::Branch { left, right } => {
            assert!(matches!(&left.tree, BvhNode::Leaf(shape) if shape.id == 1));
            let mut ids = Vec::new();
            ids_of(right, &mut ids);
            assert_eq!(ids, vec![2, 0]);
        }
        BvhNode::Leaf(_) => panic!("three shapes make a branch"),
    }
}

#[test]
fn the_outline_of_the_tree() {
    let bvh = Bvh::new(row(&[0, 1, 2]));
    let mut lines = Vec::new();
    bvh.outline(0, &mut lines);
    assert_eq!(
        lines,
        vec![
            Mark::Left(0),
            Mark::Shape(1),
            Mark::Right(0),
            Mark::Left(1),
            Mark::Shape(2),
            Mark::Right(1),
            Mark::Shape(2),
        ]
    );
}

#[test]
fn the_descent_finds_what_a_scan_finds() {
    let mut rng = Lcg(1234567);
    let mut found = 0;
    for round in 0..40 {
        let n = 1 + round % 30;
        let shapes = random_scene(&mut rng, n);
        let copy: Vec<Block> = shapes.iter().map(|s| Block { id: s.id, bounds: s.bounds }).collect();
        let all = joint_aabb_from_shapes(&shapes);
        let bvh = Bvh::new(copy);
        assert_eq!(bvh.bbox, all);
        assert!(boxes_fit(&bvh));
        let mut ids = Vec::new();
        ids_of(&bvh, &mut ids);
        ids.sort();
        assert_eq!(ids, (0..n).collect::<Vec<usize>>());
        for _ in 0..100 {
            let r = aimed_ray(&mut rng, &shapes);
            let t_min = 65;
            let t_max = rng.between(1, 200) as i64 * ONE as i64;
            let through = bvh.hit(&r, t_min, t_max);
            // The scan over all shapes, with the same range.
            let mut best: Option<HitRecord<usize>> = None;
            for s in &shapes {
                let limit = best.as_ref().map(|h| h.t).unwrap_or(t_max);
                if let Some(h) = s.hit(&r, t_min, limit) {
                    best = Some(h);
                }
            }
            assert_eq!(through.is_some(), best.is_some());
            if let (Some(a), Some(b)) = (through, best) {
                found += 1;
                assert_eq!(a.t, b.t);
                assert!(t_min < a.t && a.t <= t_max);
            }
        }
    }
    assert!(found > 100);
}

#[test]
fn a_built_median_hierarchy_is_well_linked() {
    let mut shapes = row(&[3, 1, 2, 0]);
    let mut bvh = BVH::build(&mut shapes);
    assert!(bvh.is_linked(4));
    assert!(!bvh.is_linked(2));
    assert!(BVHNode::linked_from(&bvh.nodes, 4, 4));
    bvh.nodes.truncate(6);
    assert!(!bvh.is_linked(4));
    assert!(!BVH { nodes: Vec::new() }.is_linked(4));
}

#[test]
fn the_levels_of_a_tree() {
    assert_eq!(Bvh::new(row(&[5])).levels(), Some(1));
    assert_eq!(Bvh::new(row(&[5, 6])).levels(), Some(2));
    assert_eq!(Bvh::new(row(&[0, 1, 2])).levels(), Some(3));
    assert_eq!(Bvh::new(row(&[0, 1, 2, 3, 4, 5, 6, 7])).levels(), Some(4));
    assert_eq!(Bvh::new(row(&[0, 1, 2, 3, 4, 5, 6, 7, 8])).levels(), Some(5));
}

#[test]
fn a_median_leaf_at_the_greatest_depth() {
    let shapes = row(&[4]);
    let mut indices = vec![0];
    let mut nodes = Vec::new();
    BVHNode::build(&shapes, &mut indices, &mut nodes, 3, u32::MAX);
    assert_eq!(nodes, vec![BVHNode::Leaf { depth: u32::MAX, parent_index: 3, shape_index: 0 }]);
    let mut other = Vec::new();
    BVHNode::build_sah(&shapes, &mut indices, &mut other, 3, u32::MAX, 0, ONE);
    assert_eq!(other, vec![BVHNode::Leaf { depth: u32::MAX, parent_index: 3, shape_index: 0 }]);
}
