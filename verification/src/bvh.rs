//! A hierarchy as a tree of owned nodes, split at the median along the widest
//! axis, which is itself a surface that a ray can hit.

use vstd::prelude::*;

use crate::aabb::{crossing_widens, AABB};
use crate::axis::Axis;
use crate::hittable::{boxes_of, cut, obeys_hit_laws, obeys_hit_laws_at, Hittable};
use crate::ray::{
    all_obey_at, is_nearest, nearest, nearest_hits_agree, scan_keeps_the_nearest, HitRecord, Ray,
};
use crate::sorting::{lemma_settled_at, lemma_sorted_by_key, lemma_sorted_single, sorted_by_key};
use crate::util::{
    joint, joint_aabb_from_shapes, joint_all, lemma_joint_all_concat, lemma_joint_all_encloses_each,
    lemma_joint_all_of_permutation,
};

pub mod layout;
pub mod sah;

verus! {

/// A line of the outline of a tree: the step into the left or the right
/// subtree of a branch, or the shape of a leaf, each with its depth.
#[derive(Clone, Copy, Debug, PartialEq, Eq, Structural)]
pub enum Mark {
    Left(usize),
    Right(usize),
    Shape(usize),
}

/// What a node of the tree holds: two subtrees, or one shape.
pub enum BvhNode<H> {
    Branch { left: Box<Bvh<H>>, right: Box<Bvh<H>> },
    Leaf(H),
}

/// A hierarchy over shapes that it owns: a binary tree with a shape at each
/// leaf and, at each node, a box around the shapes below it.
pub struct Bvh<H> {
    pub tree: BvhNode<H>,
    pub bbox: AABB,
}

/// The key by which shapes are sorted along `axis`: the sum of the two ends
/// of the box, which is twice its midpoint.
pub open spec fn sort_key(b: AABB, axis: Axis) -> int {
    b.minimum.along(axis) + b.maximum.along(axis)
}

/// The key of a shape along `axis`.
pub open spec fn key_along<H: Hittable>(axis: Axis) -> spec_fn(H) -> int {
    |shape: H| sort_key(shape.bounds(), axis)
}

/// The shapes of `s` sorted by their keys along `axis`, shapes with equal
/// keys in the order in which they stand in `s`.
pub open spec fn sorted_on<H: Hittable>(s: Seq<H>, axis: Axis) -> Seq<H> {
    sorted_by_key(s, key_along::<H>(axis))
}

/// The key along `axis` of the shape that an index names.
pub open spec fn index_key(boxes: Seq<AABB>, axis: Axis) -> spec_fn(usize) -> int {
    |idx: usize| sort_key(boxes[idx as int], axis)
}

/// The indices of `indices` sorted by the keys of their shapes along the
/// widest axis of the box around those shapes, equal keys in the order in
/// which they stand.
pub open spec fn median_order(boxes: Seq<AABB>, indices: Seq<usize>) -> Seq<usize> {
    sorted_by_key(indices, index_key(boxes, joint(boxes, indices).widest()))
}

/// The two halves of the median policy: the sorted list cut in the middle,
/// the shorter half first where the number is odd.
pub open spec fn median_split(boxes: Seq<AABB>, indices: Seq<usize>) -> (Seq<usize>, Seq<usize>) {
    let sorted = median_order(boxes, indices);
    let half = (indices.len() / 2) as int;
    (sorted.take(half), sorted.skip(half))
}

/// Twice the midpoint of the box of `shape` along `axis`.
pub(crate) fn key_of<H: Hittable>(shape: &H, axis: Axis) -> (key: i64)
    ensures
        key == sort_key(shape.bounds(), axis),
{
    let b = shape.bounding_box();
    b.minimum.index(axis) as i64 + b.maximum.index(axis) as i64
}

/// Sorts `objects` by their keys along `axis`, keeping the order of shapes
/// with equal keys.
fn sort_along<H: Hittable>(objects: &mut Vec<H>, axis: Axis)
    ensures
        final(objects)@ == sorted_on(old(objects)@, axis),
{
    let ghost start = objects@;
    let len = objects.len();
    let mut i: usize = 0;
    assert(start.take(0) == Seq::<H>::empty());
    assert(Seq::<H>::empty() + start.skip(0) == start);
    while i < len
        invariant
            i <= len,
            len == start.len(),
            objects@ == sorted_on(start.take(i as int), axis) + start.skip(i as int),
            sorted_on(start.take(i as int), axis).len() == i,
        decreases len - i,
    {
        let ghost done = sorted_on(start.take(i as int), axis);
        let x = objects.remove(i);
        assert(x == start[i as int]);
        assert(objects@ == done + start.skip(i + 1));
        let key = key_of(&x, axis);
        let mut p: usize = i;
        while p > 0 && key_of(&objects[p - 1], axis) > key
            invariant
                p <= i,
                i < len,
                len == start.len(),
                done.len() == i,
                objects@ == done + start.skip(i + 1),
                key == sort_key(x.bounds(), axis),
                forall|k: int|
                    p <= k < i ==> sort_key((#[trigger] done[k]).bounds(), axis) > key,
            decreases p,
        {
            assert(objects@[p - 1] == done[p - 1]);
            p -= 1;
        }
        proof {
            if p > 0 {
                assert(objects@[p - 1] == done[p - 1]);
            }
            lemma_settled_at(done, x, key_along::<H>(axis), p as int);
            assert(start.take(i + 1).drop_last() == start.take(i as int));
            assert(start.take(i + 1).last() == x);
            lemma_sorted_by_key(start.take(i + 1), key_along::<H>(axis));
            assert((done + start.skip(i + 1)).insert(p as int, x) == done.insert(p as int, x)
                + start.skip(i + 1));
        }
        objects.insert(p, x);
        i += 1;
    }
    proof {
        assert(start.take(len as int) == start);
        assert(start.skip(len as int) == Seq::<H>::empty());
        assert(sorted_on(start, axis) + Seq::<H>::empty() == sorted_on(start, axis));
    }
}

impl<H: Hittable> Bvh<H> {
    /// The shapes at the leaves, from left to right.
    pub open spec fn shapes(self) -> Seq<H>
        decreases self,
    {
        match self.tree {
            BvhNode::Leaf(shape) => seq![shape],
            BvhNode::Branch { left, right } => left.shapes() + right.shapes(),
        }
    }

    /// Whether the box at every node is the join of the boxes of the shapes
    /// below it: at a leaf the box of its shape, at a branch the join of
    /// the boxes of its two subtrees.
    pub open spec fn wf(self) -> bool
        decreases self,
    {
        match self.tree {
            BvhNode::Leaf(shape) => self.bbox == shape.bounds(),
            BvhNode::Branch { left, right } => {
                &&& left.wf()
                &&& right.wf()
                &&& self.bbox == left.bbox.union(right.bbox)
            },
        }
    }

    /// The tree that [`Bvh::new`] plants over `objects`: a leaf for one
    /// shape; else the shapes are sorted along the widest axis of the box
    /// around them all and cut at the middle of the sorted list, the first
    /// half for the left subtree and the rest for the right.
    pub open spec fn planted(objects: Seq<H>) -> Bvh<H>
        decreases objects.len(),
    {
        if objects.len() <= 1 {
            Bvh { tree: BvhNode::Leaf(objects.first()), bbox: objects.first().bounds() }
        } else {
            let axis = joint_all(boxes_of(objects)).widest();
            let sorted = sorted_on(objects, axis);
            let half = (objects.len() / 2) as int;
            proof {
                lemma_sorted_by_key(objects, key_along::<H>(axis));
            }
            let left = Self::planted(sorted.take(half));
            let right = Self::planted(sorted.skip(half));
            Bvh {
                tree: BvhNode::Branch { left: Box::new(left), right: Box::new(right) },
                bbox: left.bbox.union(right.bbox),
            }
        }
    }

    /// The number of nodes on the longest way from the root to a leaf.
    pub open spec fn height(self) -> nat
        decreases self,
    {
        match self.tree {
            BvhNode::Leaf(_) => 1,
            BvhNode::Branch { left, right } => if left.height() >= right.height() {
                left.height() + 1
            } else {
                right.height() + 1
            },
        }
    }

    /// The height of the tree, where it can be counted: `None` for a tree
    /// with more levels than `usize` counts.
    pub fn levels(&self) -> (height: Option<usize>)
        ensures
            height matches Some(h) ==> h == self.height(),
            height is None ==> self.height() > usize::MAX,
        decreases self,
    {
        match &self.tree {
            BvhNode::Leaf(_) => Some(1),
            BvhNode::Branch { left, right } => {
                let l = left.levels();
                let r = right.levels();
                match (l, r) {
                    (Some(l), Some(r)) => {
                        let deeper = if l >= r {
                            l
                        } else {
                            r
                        };
                        deeper.checked_add(1)
                    },
                    _ => None,
                }
            },
        }
    }

    /// The outline of the tree with its root at `depth`: for a branch the
    /// step to the left, the outline of the left subtree, the step to the
    /// right and the outline of the right subtree; for a leaf its shape.
    pub open spec fn outline_from(self, depth: usize) -> Seq<Mark>
        decreases self,
    {
        match self.tree {
            BvhNode::Leaf(_) => seq![Mark::Shape(depth)],
            BvhNode::Branch { left, right } => seq![Mark::Left(depth)] + left.outline_from(
                (depth + 1) as usize,
            ) + seq![Mark::Right(depth)] + right.outline_from((depth + 1) as usize),
        }
    }

    /// Appends to `lines` the outline of the tree with its root at `depth`.
    pub fn outline(&self, depth: usize, lines: &mut Vec<Mark>)
        requires
            depth + self.height() <= usize::MAX,
        ensures
            final(lines)@ == old(lines)@ + self.outline_from(depth),
        decreases self,
    {
        match &self.tree {
            BvhNode::Branch { left, right } => {
                lines.push(Mark::Left(depth));
                left.outline(depth + 1, lines);
                lines.push(Mark::Right(depth));
                right.outline(depth + 1, lines);
                assert(lines@ == old(lines)@ + (seq![Mark::Left(depth)] + left.outline_from(
                    (depth + 1) as usize,
                ) + seq![Mark::Right(depth)] + right.outline_from((depth + 1) as usize)));
            },
            BvhNode::Leaf(_) => {
                lines.push(Mark::Shape(depth));
                assert(lines@ == old(lines)@ + seq![Mark::Shape(depth)]);
            },
        }
    }

    /// Plants the hierarchy over `objects`.
    pub fn new(objects: Vec<H>) -> (bvh: Self)
        requires
            objects@.len() > 0,
        ensures
            bvh == Self::planted(objects@),
            bvh.wf(),
            bvh.shapes().to_multiset() == objects@.to_multiset(),
            bvh.bbox == joint_all(boxes_of(objects@)),
        decreases objects@.len(),
    {
        let mut objects = objects;
        let ghost given = objects@;
        proof {
            planted_holds_the_shapes(given);
        }
        let axis = joint_aabb_from_shapes(objects.as_slice()).largest_axis();

        sort_along(&mut objects, axis);
        let len = objects.len();
        proof {
            lemma_sorted_by_key(given, key_along::<H>(axis));
        }

        if len == 1 {
            let leaf = objects.pop().unwrap();
            proof {
                lemma_sorted_single(given, key_along::<H>(axis));
            }
            Bvh { bbox: leaf.bounding_box(), tree: BvhNode::Leaf(leaf) }
        } else {
            let ghost sorted = objects@;
            let right_part = objects.split_off(len / 2);
            proof {
                assert(objects@ == sorted.take((len / 2) as int));
                assert(right_part@ == sorted.skip((len / 2) as int));
            }
            let right = Bvh::new(right_part);
            let left = Bvh::new(objects);
            let bbox = AABB::join(&left.bbox, &right.bbox);
            Bvh { tree: BvhNode::Branch { left: Box::new(left), right: Box::new(right) }, bbox }
        }
    }
}

impl<H: Hittable> Hittable for Bvh<H> {
    type Surface = H::Surface;

    /// The hit that the descent finds. A subtree whose box the ray misses
    /// within the range gives nothing. A leaf gives the hit on its shape. A
    /// branch asks its left subtree, then its right subtree for a hit no
    /// further than the one found on the left, and prefers the hit on the
    /// right.
    open spec fn struck(&self, r: Ray, t_min: i64, t_max: i64) -> Option<HitRecord<H::Surface>>
        decreases self,
    {
        if !self.bbox.crossed_within(r, t_min, t_max) {
            None
        } else {
            match self.tree {
                BvhNode::Leaf(shape) => shape.struck(r, t_min, t_max),
                BvhNode::Branch { left, right } => {
                    let on_left = left.struck(r, t_min, t_max);
                    let limit = match on_left {
                        Some(h) => h.t,
                        None => t_max,
                    };
                    let on_right = right.struck(r, t_min, limit);
                    if on_right is Some {
                        on_right
                    } else {
                        on_left
                    }
                },
            }
        }
    }

    open spec fn bounds(&self) -> AABB {
        self.bbox
    }

    fn hit(&self, r: &Ray, t_min: i64, t_max: i64) -> (rec: Option<HitRecord<H::Surface>>)
        decreases self,
    {
        if !self.bbox.hit(r, t_min, t_max) {
            return None;
        }
        match &self.tree {
            BvhNode::Leaf(leaf) => leaf.hit(r, t_min, t_max),
            BvhNode::Branch { left, right } => {
                let left = left.hit(r, t_min, t_max);
                let limit = match &left {
                    Some(hit) => hit.t,
                    None => t_max,
                };
                let right = right.hit(r, t_min, limit);
                if right.is_some() {
                    right
                } else {
                    left
                }
            },
        }
    }

    fn bounding_box(&self) -> (b: AABB) {
        self.bbox
    }
}

/// Both halves of a median split hold a shape, and together they hold the
/// shapes of the node, each as often as the node does.
pub proof fn lemma_median_split(boxes: Seq<AABB>, indices: Seq<usize>, shapes: nat)
    requires
        indices.len() >= 2,
        forall|k: int| 0 <= k < indices.len() ==> (#[trigger] indices[k]) < shapes,
    ensures
        0 < median_split(boxes, indices).0.len() < indices.len(),
        0 < median_split(boxes, indices).1.len() < indices.len(),
        median_split(boxes, indices).0.len() + median_split(boxes, indices).1.len()
            == indices.len(),
        forall|k: int|
            0 <= k < median_split(boxes, indices).0.len() ==> (#[trigger] median_split(
                boxes,
                indices,
            ).0[k]) < shapes,
        forall|k: int|
            0 <= k < median_split(boxes, indices).1.len() ==> (#[trigger] median_split(
                boxes,
                indices,
            ).1[k]) < shapes,
        (median_split(boxes, indices).0 + median_split(boxes, indices).1).to_multiset()
            == indices.to_multiset(),
{
    broadcast use vstd::seq_lib::to_multiset_contains;

    let sorted = median_order(boxes, indices);
    let half = (indices.len() / 2) as int;
    lemma_sorted_by_key(indices, index_key(boxes, joint(boxes, indices).widest()));
    let (l, r) = median_split(boxes, indices);
    assert(l + r == sorted);
    assert forall|k: int| 0 <= k < sorted.len() implies (#[trigger] sorted[k]) < shapes by {
        assert(sorted.contains(sorted[k]));
        assert(indices.to_multiset().count(sorted[k]) > 0);
        assert(indices.contains(sorted[k]));
    }
    assert forall|k: int| 0 <= k < l.len() implies (#[trigger] l[k]) < shapes by {
        assert(l[k] == sorted[k]);
    }
    assert forall|k: int| 0 <= k < r.len() implies (#[trigger] r[k]) < shapes by {
        assert(r[k] == sorted[k + half]);
    }
}

/// The median split is ordered: no shape of the first half has a greater key
/// along the split axis than a shape of the second half.
pub proof fn median_split_is_ordered(boxes: Seq<AABB>, indices: Seq<usize>, i: int, j: int)
    requires
        0 <= i < median_split(boxes, indices).0.len(),
        0 <= j < median_split(boxes, indices).1.len(),
    ensures
        sort_key(
            boxes[median_split(boxes, indices).0[i] as int],
            joint(boxes, indices).widest(),
        ) <= sort_key(
            boxes[median_split(boxes, indices).1[j] as int],
            joint(boxes, indices).widest(),
        ),
{
    let key = index_key(boxes, joint(boxes, indices).widest());
    let sorted = median_order(boxes, indices);
    let half = (indices.len() / 2) as int;
    lemma_sorted_by_key(indices, key);
    assert(median_split(boxes, indices).0[i] == sorted[i]);
    assert(median_split(boxes, indices).1[j] == sorted[half + j]);
    assert(key(sorted[i]) <= key(sorted[half + j]));
}

/// In a well-formed hierarchy the box at the root is the join of the boxes
/// of all its shapes.
pub proof fn root_box_is_the_join<H: Hittable>(bvh: Bvh<H>)
    requires
        bvh.wf(),
    ensures
        bvh.bbox == joint_all(boxes_of(bvh.shapes())),
    decreases bvh,
{
    match bvh.tree {
        BvhNode::Leaf(shape) => {
            assert(boxes_of(bvh.shapes()).drop_last() == Seq::<AABB>::empty());
            assert(joint_all(Seq::<AABB>::empty()) == AABB::nothing());
        },
        BvhNode::Branch { left, right } => {
            root_box_is_the_join(*left);
            root_box_is_the_join(*right);
            lemma_joint_all_concat(left.shapes(), right.shapes());
        },
    }
}

/// The planted hierarchy is well formed, holds the given shapes, each as
/// often as it was given, and has at its root the join of all their boxes.
pub proof fn planted_holds_the_shapes<H: Hittable>(objects: Seq<H>)
    requires
        objects.len() > 0,
    ensures
        Bvh::planted(objects).wf(),
        Bvh::planted(objects).shapes().to_multiset() == objects.to_multiset(),
        Bvh::planted(objects).bbox == joint_all(boxes_of(objects)),
    decreases objects.len(),
{
    broadcast use vstd::seq_lib::lemma_multiset_commutative;

    let bvh = Bvh::planted(objects);
    if objects.len() == 1 {
        assert(bvh.shapes() == objects);
    } else {
        let axis = joint_all(boxes_of(objects)).widest();
        let sorted = sorted_on(objects, axis);
        let half = (objects.len() / 2) as int;
        lemma_sorted_by_key(objects, key_along::<H>(axis));
        planted_holds_the_shapes(sorted.take(half));
        planted_holds_the_shapes(sorted.skip(half));
        assert(sorted.take(half) + sorted.skip(half) == sorted);
        let left = Bvh::planted(sorted.take(half));
        let right = Bvh::planted(sorted.skip(half));
        assert(bvh.shapes() == left.shapes() + right.shapes());
        assert(bvh.shapes().to_multiset() =~= objects.to_multiset());
    }
    root_box_is_the_join(bvh);
    lemma_joint_all_of_permutation(bvh.shapes(), objects);
}

/// The descent finds a nearest hit: in a well-formed hierarchy of shapes
/// that obey the laws of a surface for the ray at hand, what
/// [`Hittable::hit`] reports is a nearest hit among all the shapes, as a
/// scan over them would find it.
pub proof fn descent_finds_the_nearest<H: Hittable>(bvh: Bvh<H>, r: Ray, t_min: i64, t_max: i64)
    requires
        bvh.wf(),
        all_obey_at(bvh.shapes(), r, t_min),
    ensures
        is_nearest(r, bvh.shapes(), t_min, t_max, bvh.struck(r, t_min, t_max)),
    decreases bvh,
{
    let shapes = bvh.shapes();
    let found = bvh.struck(r, t_min, t_max);
    if !bvh.bbox.crossed_within(r, t_min, t_max) {
        root_box_is_the_join(bvh);
        assert forall|k: int| 0 <= k < shapes.len() implies (#[trigger] shapes[k]).struck(
            r,
            t_min,
            t_max,
        ) is None by {
            if shapes[k].struck(r, t_min, t_max) is Some {
                assert(obeys_hit_laws_at(shapes[k], r, t_min));
                lemma_joint_all_encloses_each(boxes_of(shapes), k);
                crossing_widens(shapes[k].bounds(), bvh.bbox, r, t_min, t_max, t_min, t_max);
            }
        }
    } else {
        match bvh.tree {
            BvhNode::Leaf(shape) => {
                assert(shapes[0] == shape);
            },
            BvhNode::Branch { left, right } => {
                let ls = left.shapes();
                let rs = right.shapes();
                assert forall|k: int| 0 <= k < ls.len() implies obeys_hit_laws_at(#[trigger] ls[k], r, t_min) by {
                    assert(shapes[k] == ls[k]);
                }
                assert forall|k: int| 0 <= k < rs.len() implies obeys_hit_laws_at(#[trigger] rs[k], r, t_min) by {
                    assert(shapes[ls.len() + k] == rs[k]);
                }
                let on_left = left.struck(r, t_min, t_max);
                let limit = match on_left {
                    Some(h) => h.t,
                    None => t_max,
                };
                let on_right = right.struck(r, t_min, limit);
                descent_finds_the_nearest(*left, r, t_min, t_max);
                descent_finds_the_nearest(*right, r, t_min, limit);
                if on_left is Some {
                    let w = choose|k: int|
                        0 <= k < ls.len() && (#[trigger] ls[k]).struck(r, t_min, t_max) == on_left;
                    assert(obeys_hit_laws_at(ls[w], r, t_min));
                    assert(shapes[w] == ls[w]);
                }
                assert(limit <= t_max);
                // What a shape on the right reports within the narrow range
                // it reports within the wide one, and what it reports only
                // within the wide one lies beyond the narrow one.
                assert forall|k: int| 0 <= k < rs.len() implies ({
                    &&& (#[trigger] rs[k]).struck(r, t_min, limit) matches Some(g) ==> rs[k].struck(
                        r,
                        t_min,
                        t_max,
                    ) == Some(g)
                    &&& rs[k].struck(r, t_min, limit) is None ==> (rs[k].struck(
                        r,
                        t_min,
                        t_max,
                    ) matches Some(g) ==> g.t > limit)
                }) by {
                    assert(obeys_hit_laws_at(rs[k], r, t_min));
                    assert(rs[k].struck(r, t_min, limit) == cut(
                        rs[k].struck(r, t_min, i64::MAX),
                        limit,
                    ));
                    assert(rs[k].struck(r, t_min, t_max) == cut(
                        rs[k].struck(r, t_min, i64::MAX),
                        t_max,
                    ));
                }
                match found {
                    None => {
                        assert forall|k: int| 0 <= k < shapes.len() implies (
                        #[trigger] shapes[k]).struck(r, t_min, t_max) is None by {
                            if k < ls.len() {
                                assert(shapes[k] == ls[k]);
                            } else {
                                assert(shapes[k] == rs[k - ls.len()]);
                                assert(rs[k - ls.len()].struck(r, t_min, limit) is None);
                            }
                        }
                    },
                    Some(h) => {
                        if on_right is Some {
                            let w = choose|k: int|
                                0 <= k < rs.len() && (#[trigger] rs[k]).struck(r, t_min, limit)
                                    == on_right;
                            assert(shapes[ls.len() + w] == rs[w]);
                            assert(obeys_hit_laws_at(rs[w], r, t_min));
                            assert(shapes[ls.len() + w].struck(r, t_min, t_max) == Some(h));
                        } else {
                            let w = choose|k: int|
                                0 <= k < ls.len() && (#[trigger] ls[k]).struck(r, t_min, t_max)
                                    == on_left;
                            assert(shapes[w] == ls[w]);
                            assert(shapes[w].struck(r, t_min, t_max) == Some(h));
                        }
                        assert forall|k: int| 0 <= k < shapes.len() implies ((
                        #[trigger] shapes[k]).struck(r, t_min, t_max) matches Some(g) ==> h.t
                            <= g.t) by {
                            if k < ls.len() {
                                assert(shapes[k] == ls[k]);
                            } else {
                                assert(shapes[k] == rs[k - ls.len()]);
                                assert(obeys_hit_laws_at(rs[k - ls.len()], r, t_min));
                            }
                        }
                    },
                }
            },
        }
    }
}

/// What the laws of a surface ask of the hierarchy for one ray and range:
/// it reports what it reports without an upper limit, cut off at the limit,
/// and a hit that it reports lies within the range, on a ray that passes
/// through the box at the root within the range.
pub proof fn lemma_descent_obeys<H: Hittable>(bvh: Bvh<H>, r: Ray, t_min: i64, t_max: i64)
    requires
        bvh.wf(),
        all_obey_at(bvh.shapes(), r, t_min),
    ensures
        bvh.struck(r, t_min, t_max) == cut(bvh.struck(r, t_min, i64::MAX), t_max),
        bvh.struck(r, t_min, t_max) matches Some(h) ==> {
            &&& t_min < h.t <= t_max
            &&& bvh.bbox.crossed_within(r, t_min, t_max)
        },
    decreases bvh,
{
    let shapes = bvh.shapes();
    let within = bvh.struck(r, t_min, t_max);
    let beyond = bvh.struck(r, t_min, i64::MAX);
    descent_finds_the_nearest(bvh, r, t_min, t_max);
    descent_finds_the_nearest(bvh, r, t_min, i64::MAX);
    if within is Some {
        let k = choose|k: int|
            0 <= k < shapes.len() && (#[trigger] shapes[k]).struck(r, t_min, t_max) == within;
        assert(obeys_hit_laws_at(shapes[k], r, t_min));
    }
    if !bvh.bbox.crossed_within(r, t_min, t_max) {
        // Nothing is reported within the range. A hit without a limit
        // lies beyond the range, or its shape would be hit within the range
        // and the ray pass through the box.
        if beyond is Some {
            let h = beyond->0;
            let k = choose|k: int|
                0 <= k < shapes.len() && (#[trigger] shapes[k]).struck(r, t_min, i64::MAX)
                    == beyond;
            assert(obeys_hit_laws_at(shapes[k], r, t_min));
            assert(shapes[k].struck(r, t_min, t_max) == cut(beyond, t_max));
            if h.t <= t_max {
                root_box_is_the_join(bvh);
                lemma_joint_all_encloses_each(boxes_of(shapes), k);
                crossing_widens(shapes[k].bounds(), bvh.bbox, r, t_min, t_max, t_min, t_max);
            }
        }
    } else {
        crossing_widens(bvh.bbox, bvh.bbox, r, t_min, t_max, t_min, i64::MAX);
        match bvh.tree {
            BvhNode::Leaf(shape) => {
                assert(shapes[0] == shape);
                assert(obeys_hit_laws_at(shape, r, t_min));
            },
            BvhNode::Branch { left, right } => {
                let ls = left.shapes();
                let rs = right.shapes();
                assert forall|k: int| 0 <= k < ls.len() implies obeys_hit_laws_at(#[trigger] ls[k], r, t_min) by {
                    assert(shapes[k] == ls[k]);
                }
                assert forall|k: int| 0 <= k < rs.len() implies obeys_hit_laws_at(#[trigger] rs[k], r, t_min) by {
                    assert(shapes[ls.len() + k] == rs[k]);
                }
                let l_within = left.struck(r, t_min, t_max);
                let l_beyond = left.struck(r, t_min, i64::MAX);
                let limit_within = match l_within {
                    Some(h) => h.t,
                    None => t_max,
                };
                let limit_beyond = match l_beyond {
                    Some(h) => h.t,
                    None => i64::MAX,
                };
                lemma_descent_obeys(*left, r, t_min, t_max);
                lemma_descent_obeys(*left, r, t_min, i64::MAX);
                lemma_descent_obeys(*right, r, t_min, limit_within);
                lemma_descent_obeys(*right, r, t_min, limit_beyond);
                lemma_descent_obeys(*right, r, t_min, i64::MAX);
            },
        }
    }
}

/// A hierarchy is a surface like its shapes: for a ray and a lower limit
/// for which the shapes of a well-formed hierarchy obey the laws of a
/// surface, the hierarchy obeys them itself, and so can be a shape of
/// another hierarchy.
pub proof fn a_hierarchy_obeys_the_laws<H: Hittable>(bvh: Bvh<H>, r: Ray, t_min: i64)
    requires
        bvh.wf(),
        all_obey_at(bvh.shapes(), r, t_min),
    ensures
        obeys_hit_laws_at(bvh, r, t_min),
{
    assert forall|t_max: i64|
        {
            &&& #[trigger] bvh.struck(r, t_min, t_max) == cut(
                bvh.struck(r, t_min, i64::MAX),
                t_max,
            )
            &&& bvh.struck(r, t_min, t_max) matches Some(h) ==> {
                &&& t_min < h.t <= t_max
                &&& bvh.bounds().crossed_within(r, t_min, t_max)
            }
        } by {
        lemma_descent_obeys(bvh, r, t_min, t_max);
    }
}

/// A well-formed hierarchy of shapes that obey the laws of a surface for
/// every ray obeys them for every ray.
pub proof fn a_hierarchy_obeys_the_laws_everywhere<H: Hittable>(bvh: Bvh<H>)
    requires
        bvh.wf(),
        forall|k: int| 0 <= k < bvh.shapes().len() ==> obeys_hit_laws(#[trigger] bvh.shapes()[k]),
    ensures
        obeys_hit_laws(bvh),
{
    assert forall|r: Ray, t_min: i64| #[trigger] obeys_hit_laws_at(bvh, r, t_min) by {
        assert forall|k: int| 0 <= k < bvh.shapes().len() implies obeys_hit_laws_at(
            #[trigger] bvh.shapes()[k],
            r,
            t_min,
        ) by {
            assert(obeys_hit_laws(bvh.shapes()[k]));
        }
        a_hierarchy_obeys_the_laws(bvh, r, t_min);
    }
}

/// The descent lies where a scan lies: in a well-formed hierarchy of shapes
/// that obey the laws of a surface for the ray at hand, what the descent
/// reports and what a scan over all the shapes keeps are both nothing, or
/// hits at one and the same parameter.
pub proof fn descent_agrees_with_scan<H: Hittable>(bvh: Bvh<H>, r: Ray, t_min: i64, t_max: i64)
    requires
        bvh.wf(),
        all_obey_at(bvh.shapes(), r, t_min),
    ensures
        bvh.struck(r, t_min, t_max) is Some <==> nearest(r, bvh.shapes(), t_min, t_max) is Some,
        bvh.struck(r, t_min, t_max) matches Some(h) ==> nearest(
            r,
            bvh.shapes(),
            t_min,
            t_max,
        )->0.t == h.t,
{
    descent_finds_the_nearest(bvh, r, t_min, t_max);
    scan_keeps_the_nearest(r, bvh.shapes(), t_min, t_max);
    nearest_hits_agree(
        r,
        bvh.shapes(),
        t_min,
        t_max,
        bvh.struck(r, t_min, t_max),
        nearest(r, bvh.shapes(), t_min, t_max),
    );
}

} // verus!
