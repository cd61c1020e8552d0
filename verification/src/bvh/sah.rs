//! A hierarchy in a flat array of nodes, split by the surface area heuristic
//! over buckets of centres.

use vstd::prelude::*;

use crate::aabb::AABB;
use crate::axis::Axis;
use crate::bvh::layout::{
    all_below, all_shapes, candidates, fitted, halves, leaves, lemma_candidates_in_range,
    leaves_cover_the_scene, lemma_tree, lemma_tree_len, lemma_tree_threaded, linked, outline_of,
    picked, summed_area, threaded, tree, Line, SplitPolicy,
};
use crate::hittable::{boxes_of, Hittable};
use crate::ray::{referents, Ray};
use crate::util::{
    concatenate_vectors, concatenation, joint, joint_aabb, joint_all, lemma_joint_concat,
};

verus! {

/// The number of buckets into which the centres are sorted for a split.
pub const NUM_BUCKETS: usize = 6;

/// The greatest depth of a node, which is counted in 32 bits: a hierarchy
/// takes one shape more than this.
pub const MAX_SHAPES: usize = 0xFFFF_FFFF;

/// The shapes whose centres fell into one bucket: how many, and the join of
/// their boxes.
#[derive(Copy, Clone, Debug)]
pub struct Bucket {
    pub size: usize,
    pub aabb: AABB,
}

impl Bucket {
    /// The bucket that holds no shape.
    pub fn empty() -> (b: Bucket)
        ensures
            b.size == 0,
            b.aabb == AABB::nothing(),
    {
        Bucket { size: 0, aabb: AABB::empty() }
    }

    /// Adds one shape with the box `aabb` to the bucket.
    pub fn add_aabb(&mut self, aabb: &AABB)
        requires
            old(self).size < usize::MAX,
        ensures
            final(self).size == old(self).size + 1,
            final(self).aabb == old(self).aabb.union(*aabb),
    {
        self.size += 1;
        self.aabb = self.aabb.join(aabb);
    }

    /// The bucket that holds the shapes of both `a` and `b`.
    pub fn join_bucket(a: Bucket, b: &Bucket) -> (both: Bucket)
        requires
            a.size + b.size <= usize::MAX,
        ensures
            both.size == a.size + b.size,
            both.aabb == a.aabb.union(b.aabb),
    {
        Bucket { size: a.size + b.size, aabb: a.aabb.join(&b.aabb) }
    }
}

/// A node of the hierarchy: a leaf with one shape, or an inner node with two
/// children and the boxes around each of them. Children are named by their
/// index in the array of nodes.
#[derive(Clone, Copy, Debug, PartialEq, Eq, Structural)]
pub enum BVHNode {
    Leaf { depth: u32, parent_index: usize, shape_index: usize },
    Node {
        depth: u32,
        parent_index: usize,
        child_l_index: usize,
        child_l_aabb: AABB,
        child_r_index: usize,
        child_r_aabb: AABB,
    },
}

/// The smallest box around the centres of the boxes that `indices` picks.
pub open spec fn centre_bounds(boxes: Seq<AABB>, indices: Seq<usize>) -> AABB
    decreases indices.len(),
{
    if indices.len() == 0 {
        AABB::nothing()
    } else {
        centre_bounds(boxes, indices.drop_last()).with_point(boxes[indices.last() as int].centre())
    }
}

/// The bucket of a centre at `c` on an axis where the centres start at `lo`
/// and spread over `extent`: its relative position, scaled by a hundredth
/// less than the number of buckets and rounded down.
pub open spec fn bucket_of(c: int, lo: int, extent: int) -> int {
    ((c - lo) * (NUM_BUCKETS * 100 - 1)) / (extent * 100)
}

/// The bucket of the shape `idx`.
pub open spec fn bucket_at(boxes: Seq<AABB>, idx: usize, axis: Axis, lo: i32, extent: i64) -> int {
    bucket_of(boxes[idx as int].centre().along(axis) as int, lo as int, extent as int)
}

/// Those of `indices` whose shape falls into bucket `b`, in their order.
pub open spec fn members(
    boxes: Seq<AABB>,
    indices: Seq<usize>,
    axis: Axis,
    lo: i32,
    extent: i64,
    b: int,
) -> Seq<usize>
    decreases indices.len(),
{
    if indices.len() == 0 {
        Seq::empty()
    } else {
        let rest = members(boxes, indices.drop_last(), axis, lo, extent, b);
        if bucket_at(boxes, indices.last(), axis, lo, extent) == b {
            rest.push(indices.last())
        } else {
            rest
        }
    }
}

/// Those of `indices` whose shape falls into one of the buckets from `from`
/// up to, not including, `to`: bucket after bucket, each in the order of
/// `indices`.
pub open spec fn spread(
    boxes: Seq<AABB>,
    indices: Seq<usize>,
    axis: Axis,
    lo: i32,
    extent: i64,
    from: int,
    to: int,
) -> Seq<usize>
    decreases to - from,
{
    if to <= from {
        Seq::empty()
    } else {
        spread(boxes, indices, axis, lo, extent, from, to - 1) + members(
            boxes,
            indices,
            axis,
            lo,
            extent,
            to - 1,
        )
    }
}

/// The cost of splitting after bucket `k`: for each side, the number of its
/// shapes times the surface area of the box around them. All splits of one
/// node share the divisor of the heuristic, the area of the box around all
/// of the node's shapes, so costs are compared without it.
pub open spec fn cost(
    boxes: Seq<AABB>,
    indices: Seq<usize>,
    axis: Axis,
    lo: i32,
    extent: i64,
    k: int,
) -> int {
    let left = spread(boxes, indices, axis, lo, extent, 0, k + 1);
    let right = spread(boxes, indices, axis, lo, extent, k + 1, NUM_BUCKETS as int);
    left.len() * joint(boxes, left).area() + right.len() * joint(boxes, right).area()
}

/// The cheapest of the splits after the buckets 0 to `n`, the first of them
/// where several cost the same.
pub open spec fn cheapest(
    boxes: Seq<AABB>,
    indices: Seq<usize>,
    axis: Axis,
    lo: i32,
    extent: i64,
    n: int,
) -> int
    decreases n,
{
    if n <= 0 {
        0
    } else {
        let best = cheapest(boxes, indices, axis, lo, extent, n - 1);
        if cost(boxes, indices, axis, lo, extent, n) < cost(boxes, indices, axis, lo, extent, best) {
            n
        } else {
            best
        }
    }
}

/// The two halves into which a node over `indices` is split.
///
/// The split axis is the widest axis of the box around the centres. Where
/// the centres do not spread along it, the list is cut in the middle. Else
/// the shapes go into buckets by their centres, and the cheapest split
/// between two buckets divides them.
#[verifier::opaque]
pub open spec fn split(boxes: Seq<AABB>, indices: Seq<usize>) -> (Seq<usize>, Seq<usize>) {
    let around = centre_bounds(boxes, indices);
    let axis = around.widest();
    let lo = around.minimum.along(axis);
    let extent = around.extent(axis) as i64;
    if extent < 1 {
        let half = (indices.len() / 2) as int;
        (indices.take(half), indices.skip(half))
    } else {
        let k = cheapest(boxes, indices, axis, lo, extent, NUM_BUCKETS - 2);
        (
            spread(boxes, indices, axis, lo, extent, 0, k + 1),
            spread(boxes, indices, axis, lo, extent, k + 1, NUM_BUCKETS as int),
        )
    }
}

/// Whether `buckets` holds, for each bucket, the number of its members and
/// the join of their boxes.
pub open spec fn reflects(
    buckets: Seq<Bucket>,
    boxes: Seq<AABB>,
    indices: Seq<usize>,
    axis: Axis,
    lo: i32,
    extent: i64,
) -> bool {
    &&& buckets.len() == NUM_BUCKETS
    &&& forall|b: int|
        0 <= b < NUM_BUCKETS ==> {
            &&& (#[trigger] buckets[b]).size == members(boxes, indices, axis, lo, extent, b).len()
            &&& buckets[b].aabb == joint(boxes, members(boxes, indices, axis, lo, extent, b))
        }
}

/// The box around the centres holds the centre of each shape.
pub proof fn lemma_centre_bounds_holds(boxes: Seq<AABB>, indices: Seq<usize>, k: int)
    requires
        0 <= k < indices.len(),
    ensures
        centre_bounds(boxes, indices).encloses(
            AABB {
                minimum: boxes[indices[k] as int].centre(),
                maximum: boxes[indices[k] as int].centre(),
            },
        ),
    decreases indices.len(),
{
    if k < indices.len() - 1 {
        lemma_centre_bounds_holds(boxes, indices.drop_last(), k);
    }
}

/// Each face of the box around the centres passes through a centre.
pub proof fn lemma_centre_bounds_attained(boxes: Seq<AABB>, indices: Seq<usize>, axis: Axis)
    requires
        indices.len() > 0,
    ensures
        exists|k: int|
            0 <= k < indices.len() && (#[trigger] boxes[indices[k] as int]).centre().along(axis)
                == centre_bounds(boxes, indices).minimum.along(axis),
        exists|k: int|
            0 <= k < indices.len() && (#[trigger] boxes[indices[k] as int]).centre().along(axis)
                == centre_bounds(boxes, indices).maximum.along(axis),
    decreases indices.len(),
{
    let last = indices.len() - 1;
    let rest = indices.drop_last();
    let c = boxes[indices[last] as int].centre().along(axis);
    if rest.len() == 0 {
        assert(centre_bounds(boxes, rest) == AABB::nothing());
        assert(boxes[indices[last] as int].centre().along(axis) == centre_bounds(
            boxes,
            indices,
        ).minimum.along(axis));
        assert(boxes[indices[last] as int].centre().along(axis) == centre_bounds(
            boxes,
            indices,
        ).maximum.along(axis));
    } else {
        lemma_centre_bounds_attained(boxes, rest, axis);
        let k_min = choose|k: int|
            0 <= k < rest.len() && (#[trigger] boxes[rest[k] as int]).centre().along(axis)
                == centre_bounds(boxes, rest).minimum.along(axis);
        let k_max = choose|k: int|
            0 <= k < rest.len() && (#[trigger] boxes[rest[k] as int]).centre().along(axis)
                == centre_bounds(boxes, rest).maximum.along(axis);
        assert(rest[k_min] == indices[k_min]);
        assert(rest[k_max] == indices[k_max]);
        if c <= centre_bounds(boxes, rest).minimum.along(axis) {
            assert(boxes[indices[last] as int].centre().along(axis) == centre_bounds(
                boxes,
                indices,
            ).minimum.along(axis));
        } else {
            assert(boxes[indices[k_min] as int].centre().along(axis) == centre_bounds(
                boxes,
                indices,
            ).minimum.along(axis));
        }
        if c >= centre_bounds(boxes, rest).maximum.along(axis) {
            assert(boxes[indices[last] as int].centre().along(axis) == centre_bounds(
                boxes,
                indices,
            ).maximum.along(axis));
        } else {
            assert(boxes[indices[k_max] as int].centre().along(axis) == centre_bounds(
                boxes,
                indices,
            ).maximum.along(axis));
        }
    }
}

/// A centre within the spread of the centres falls into one of the buckets:
/// the least centre into the first, the greatest into the last.
pub proof fn lemma_bucket_range(c: int, lo: int, extent: int)
    requires
        extent > 0,
        lo <= c <= lo + extent,
    ensures
        0 <= bucket_of(c, lo, extent) < NUM_BUCKETS,
        c == lo ==> bucket_of(c, lo, extent) == 0,
        c == lo + extent ==> bucket_of(c, lo, extent) == NUM_BUCKETS - 1,
{
    let x = (c - lo) * 599;
    let d = extent * 100;
    assert(0 <= x / d < 6 && (c == lo ==> x / d == 0) && (c == lo + extent ==> x / d == 5))
        by (nonlinear_arith)
        requires
            extent > 0,
            0 <= c - lo <= extent,
            x == (c - lo) * 599,
            d == extent * 100,
    {
        assert(0 <= x);
        assert(x <= 599 * extent);
        assert(x < 6 * d);
        assert(d > 0);
        if c == lo + extent {
            assert(x == 599 * extent);
            assert(5 * d <= x);
        }
    }
}

/// A shape of `indices` is a member of its bucket.
pub proof fn lemma_member(
    boxes: Seq<AABB>,
    indices: Seq<usize>,
    axis: Axis,
    lo: i32,
    extent: i64,
    k: int,
)
    requires
        0 <= k < indices.len(),
    ensures
        members(boxes, indices, axis, lo, extent, bucket_at(boxes, indices[k], axis, lo, extent)).len()
            > 0,
    decreases indices.len(),
{
    if k < indices.len() - 1 {
        lemma_member(boxes, indices.drop_last(), axis, lo, extent, k);
    }
}

/// The members of a bucket are shapes of `indices`.
pub proof fn lemma_members_below(
    boxes: Seq<AABB>,
    indices: Seq<usize>,
    axis: Axis,
    lo: i32,
    extent: i64,
    b: int,
    shapes: nat,
)
    requires
        all_below(indices, shapes),
    ensures
        all_below(members(boxes, indices, axis, lo, extent, b), shapes),
        members(boxes, indices, axis, lo, extent, b).len() <= indices.len(),
    decreases indices.len(),
{
    if indices.len() > 0 {
        lemma_members_below(boxes, indices.drop_last(), axis, lo, extent, b, shapes);
    }
}

/// The shapes in a run of buckets are shapes of `indices`.
pub proof fn lemma_spread_below(
    boxes: Seq<AABB>,
    indices: Seq<usize>,
    axis: Axis,
    lo: i32,
    extent: i64,
    from: int,
    to: int,
    shapes: nat,
)
    requires
        all_below(indices, shapes),
    ensures
        all_below(spread(boxes, indices, axis, lo, extent, from, to), shapes),
    decreases to - from,
{
    if from < to {
        lemma_spread_below(boxes, indices, axis, lo, extent, from, to - 1, shapes);
        lemma_members_below(boxes, indices, axis, lo, extent, to - 1, shapes);
        let head = spread(boxes, indices, axis, lo, extent, from, to - 1);
        let last = members(boxes, indices, axis, lo, extent, to - 1);
        assert forall|k: int| 0 <= k < (head + last).len() implies (#[trigger] (head + last)[k])
            < shapes by {
            if k < head.len() {
                assert((head + last)[k] == head[k]);
            } else {
                assert((head + last)[k] == last[k - head.len()]);
            }
        }
    }
}

/// A run of buckets can be cut anywhere into two runs.
pub proof fn lemma_spread_cut(
    boxes: Seq<AABB>,
    indices: Seq<usize>,
    axis: Axis,
    lo: i32,
    extent: i64,
    from: int,
    mid: int,
    to: int,
)
    requires
        from <= mid <= to,
    ensures
        spread(boxes, indices, axis, lo, extent, from, to) == spread(
            boxes,
            indices,
            axis,
            lo,
            extent,
            from,
            mid,
        ) + spread(boxes, indices, axis, lo, extent, mid, to),
    decreases to - mid,
{
    let whole = spread(boxes, indices, axis, lo, extent, from, to);
    let head = spread(boxes, indices, axis, lo, extent, from, mid);
    let tail = spread(boxes, indices, axis, lo, extent, mid, to);
    if mid == to {
        assert(tail == Seq::<usize>::empty());
        assert(head + tail == head);
    } else {
        lemma_spread_cut(boxes, indices, axis, lo, extent, from, mid, to - 1);
        let last = members(boxes, indices, axis, lo, extent, to - 1);
        let shorter = spread(boxes, indices, axis, lo, extent, from, to - 1);
        let shorter_tail = spread(boxes, indices, axis, lo, extent, mid, to - 1);
        assert(whole == shorter + last);
        assert(tail == shorter_tail + last);
        assert((head + shorter_tail) + last == head + (shorter_tail + last));
    }
}

/// Where every shape falls into one of the buckets, the buckets together
/// hold as many shapes as there are.
pub proof fn lemma_spread_counts(
    boxes: Seq<AABB>,
    indices: Seq<usize>,
    axis: Axis,
    lo: i32,
    extent: i64,
)
    requires
        forall|k: int|
            0 <= k < indices.len() ==> 0 <= #[trigger] bucket_at(
                boxes,
                indices[k],
                axis,
                lo,
                extent,
            ) < NUM_BUCKETS,
    ensures
        spread(boxes, indices, axis, lo, extent, 0, NUM_BUCKETS as int).len() == indices.len(),
    decreases indices.len(),
{
    reveal_with_fuel(spread, 7);
    if indices.len() > 0 {
        let rest = indices.drop_last();
        assert forall|k: int| 0 <= k < rest.len() implies 0 <= #[trigger] bucket_at(
            boxes,
            rest[k],
            axis,
            lo,
            extent,
        ) < NUM_BUCKETS by {
            assert(rest[k] == indices[k]);
        }
        lemma_spread_counts(boxes, rest, axis, lo, extent);
        let b = bucket_at(boxes, indices.last(), axis, lo, extent);
        assert(b == bucket_at(boxes, indices[indices.len() - 1], axis, lo, extent));
        assert(0 <= b < 6);
    }
}

/// A run of buckets is no longer than the list of all shapes.
pub proof fn lemma_spread_bounded(
    boxes: Seq<AABB>,
    indices: Seq<usize>,
    axis: Axis,
    lo: i32,
    extent: i64,
    from: int,
    to: int,
)
    requires
        0 <= from <= to <= NUM_BUCKETS,
        spread(boxes, indices, axis, lo, extent, 0, NUM_BUCKETS as int).len() == indices.len(),
    ensures
        spread(boxes, indices, axis, lo, extent, from, to).len() <= indices.len(),
{
    lemma_spread_cut(boxes, indices, axis, lo, extent, 0, from, NUM_BUCKETS as int);
    lemma_spread_cut(boxes, indices, axis, lo, extent, from, to, NUM_BUCKETS as int);
}

/// One more shape adds itself to the run of buckets that holds its bucket,
/// and changes no other run.
pub proof fn lemma_spread_grows(
    boxes: Seq<AABB>,
    indices: Seq<usize>,
    axis: Axis,
    lo: i32,
    extent: i64,
    from: int,
    to: int,
)
    requires
        indices.len() > 0,
        from <= to,
    ensures
        spread(boxes, indices, axis, lo, extent, from, to).to_multiset() == if from <= bucket_at(
            boxes,
            indices.last(),
            axis,
            lo,
            extent,
        ) < to {
            spread(boxes, indices.drop_last(), axis, lo, extent, from, to).to_multiset().insert(
                indices.last(),
            )
        } else {
            spread(boxes, indices.drop_last(), axis, lo, extent, from, to).to_multiset()
        },
    decreases to - from,
{
    broadcast use {vstd::seq_lib::lemma_multiset_commutative, vstd::seq_lib::to_multiset_build};

    if from < to {
        lemma_spread_grows(boxes, indices, axis, lo, extent, from, to - 1);
        let rest = indices.drop_last();
        let x = indices.last();
        let b = bucket_at(boxes, x, axis, lo, extent);
        let head = spread(boxes, indices, axis, lo, extent, from, to - 1);
        let last = members(boxes, indices, axis, lo, extent, to - 1);
        let old_head = spread(boxes, rest, axis, lo, extent, from, to - 1);
        let old_last = members(boxes, rest, axis, lo, extent, to - 1);
        assert((head + last).to_multiset() =~= head.to_multiset().add(last.to_multiset()));
        assert((old_head + old_last).to_multiset() =~= old_head.to_multiset().add(
            old_last.to_multiset(),
        ));
        if b == to - 1 {
            assert(last == old_last.push(x));
            assert(last.to_multiset() =~= old_last.to_multiset().insert(x));
            assert(head.to_multiset() == old_head.to_multiset());
            assert((head + last).to_multiset() =~= (old_head + old_last).to_multiset().insert(x));
        } else {
            assert(last == old_last);
            if from <= b < to - 1 {
                assert((head + last).to_multiset() =~= (old_head + old_last).to_multiset().insert(
                    x,
                ));
            } else {
                assert((head + last).to_multiset() =~= (old_head + old_last).to_multiset());
            }
        }
    } else {
        assert(spread(boxes, indices, axis, lo, extent, from, to) == Seq::<usize>::empty());
        assert(spread(boxes, indices.drop_last(), axis, lo, extent, from, to) == Seq::<
            usize,
        >::empty());
    }
}

/// Where every shape falls into one of the buckets, the buckets together
/// hold the shapes of `indices`, each as often as `indices` does.
pub proof fn lemma_spread_permutes(
    boxes: Seq<AABB>,
    indices: Seq<usize>,
    axis: Axis,
    lo: i32,
    extent: i64,
)
    requires
        forall|k: int|
            0 <= k < indices.len() ==> 0 <= #[trigger] bucket_at(
                boxes,
                indices[k],
                axis,
                lo,
                extent,
            ) < NUM_BUCKETS,
    ensures
        spread(boxes, indices, axis, lo, extent, 0, NUM_BUCKETS as int).to_multiset()
            == indices.to_multiset(),
    decreases indices.len(),
{
    broadcast use vstd::seq_lib::to_multiset_build;

    if indices.len() == 0 {
        reveal_with_fuel(spread, 7);
        assert(spread(boxes, indices, axis, lo, extent, 0, NUM_BUCKETS as int) =~= indices);
    } else {
        let rest = indices.drop_last();
        assert forall|k: int| 0 <= k < rest.len() implies 0 <= #[trigger] bucket_at(
            boxes,
            rest[k],
            axis,
            lo,
            extent,
        ) < NUM_BUCKETS by {
            assert(rest[k] == indices[k]);
        }
        lemma_spread_permutes(boxes, rest, axis, lo, extent);
        lemma_spread_grows(boxes, indices, axis, lo, extent, 0, NUM_BUCKETS as int);
        assert(indices.last() == indices[indices.len() - 1]);
        assert(rest.push(indices.last()) == indices);
    }
}

/// Lists that hold the members of consecutive buckets, put end to end, are
/// the run of those buckets.
pub proof fn lemma_concatenation_is_spread(
    parts: Seq<Vec<usize>>,
    boxes: Seq<AABB>,
    indices: Seq<usize>,
    axis: Axis,
    lo: i32,
    extent: i64,
    from: int,
)
    requires
        forall|j: int|
            0 <= j < parts.len() ==> (#[trigger] parts[j])@ == members(
                boxes,
                indices,
                axis,
                lo,
                extent,
                from + j,
            ),
    ensures
        concatenation(parts) == spread(
            boxes,
            indices,
            axis,
            lo,
            extent,
            from,
            from + parts.len(),
        ),
    decreases parts.len(),
{
    if parts.len() > 0 {
        let rest = parts.drop_last();
        assert forall|j: int| 0 <= j < rest.len() implies (#[trigger] rest[j])@ == members(
            boxes,
            indices,
            axis,
            lo,
            extent,
            from + j,
        ) by {
            assert(rest[j] == parts[j]);
        }
        lemma_concatenation_is_spread(rest, boxes, indices, axis, lo, extent, from);
        assert(parts.last() == parts[parts.len() - 1]);
    }
}

/// Where the centres spread along the split axis, both sides of every split
/// between two buckets hold a shape, and together they hold all of them.
pub proof fn lemma_sides_nonempty(
    boxes: Seq<AABB>,
    indices: Seq<usize>,
    axis: Axis,
    lo: i32,
    extent: i64,
    k: int,
)
    requires
        indices.len() > 0,
        0 <= k < NUM_BUCKETS - 1,
        extent > 0,
        lo == centre_bounds(boxes, indices).minimum.along(axis),
        extent == centre_bounds(boxes, indices).extent(axis),
    ensures
        spread(boxes, indices, axis, lo, extent, 0, k + 1).len() > 0,
        spread(boxes, indices, axis, lo, extent, k + 1, NUM_BUCKETS as int).len() > 0,
        spread(boxes, indices, axis, lo, extent, 0, k + 1).len() + spread(
            boxes,
            indices,
            axis,
            lo,
            extent,
            k + 1,
            NUM_BUCKETS as int,
        ).len() == indices.len(),
{
    assert forall|j: int| 0 <= j < indices.len() implies 0 <= #[trigger] bucket_at(
        boxes,
        indices[j],
        axis,
        lo,
        extent,
    ) < NUM_BUCKETS by {
        lemma_centre_bounds_holds(boxes, indices, j);
        lemma_bucket_range(
            boxes[indices[j] as int].centre().along(axis) as int,
            lo as int,
            extent as int,
        );
    }
    lemma_spread_counts(boxes, indices, axis, lo, extent);
    lemma_spread_cut(boxes, indices, axis, lo, extent, 0, k + 1, NUM_BUCKETS as int);
    lemma_centre_bounds_attained(boxes, indices, axis);
    let k_min = choose|j: int|
        0 <= j < indices.len() && (#[trigger] boxes[indices[j] as int]).centre().along(axis)
            == centre_bounds(boxes, indices).minimum.along(axis);
    let k_max = choose|j: int|
        0 <= j < indices.len() && (#[trigger] boxes[indices[j] as int]).centre().along(axis)
            == centre_bounds(boxes, indices).maximum.along(axis);
    lemma_bucket_range(
        boxes[indices[k_min] as int].centre().along(axis) as int,
        lo as int,
        extent as int,
    );
    lemma_bucket_range(
        boxes[indices[k_max] as int].centre().along(axis) as int,
        lo as int,
        extent as int,
    );
    lemma_member(boxes, indices, axis, lo, extent, k_min);
    lemma_member(boxes, indices, axis, lo, extent, k_max);
    assert(bucket_at(boxes, indices[k_min], axis, lo, extent) == 0);
    assert(bucket_at(boxes, indices[k_max], axis, lo, extent) == NUM_BUCKETS - 1);
    lemma_spread_cut(boxes, indices, axis, lo, extent, 0, 1, k + 1);
    reveal_with_fuel(spread, 2);
    assert(spread(boxes, indices, axis, lo, extent, 0, 1).len() == members(
        boxes,
        indices,
        axis,
        lo,
        extent,
        0,
    ).len());
}

/// The cheapest split lies among those it was chosen from.
pub proof fn lemma_cheapest_range(
    boxes: Seq<AABB>,
    indices: Seq<usize>,
    axis: Axis,
    lo: i32,
    extent: i64,
    n: int,
)
    requires
        0 <= n,
    ensures
        0 <= cheapest(boxes, indices, axis, lo, extent, n) <= n,
    decreases n,
{
    if n > 0 {
        lemma_cheapest_range(boxes, indices, axis, lo, extent, n - 1);
    }
}

/// The cheapest split costs no more than any split it was chosen from, and
/// less than every one before it.
pub proof fn cheapest_is_the_first_minimum(
    boxes: Seq<AABB>,
    indices: Seq<usize>,
    axis: Axis,
    lo: i32,
    extent: i64,
    n: int,
    k: int,
)
    requires
        0 <= k <= n,
    ensures
        cost(boxes, indices, axis, lo, extent, cheapest(boxes, indices, axis, lo, extent, n))
            <= cost(boxes, indices, axis, lo, extent, k),
        k < cheapest(boxes, indices, axis, lo, extent, n) ==> cost(
            boxes,
            indices,
            axis,
            lo,
            extent,
            cheapest(boxes, indices, axis, lo, extent, n),
        ) < cost(boxes, indices, axis, lo, extent, k),
    decreases n,
{
    if n > 0 {
        lemma_cheapest_range(boxes, indices, axis, lo, extent, n - 1);
        if k < n {
            cheapest_is_the_first_minimum(boxes, indices, axis, lo, extent, n - 1, k);
        } else {
            cheapest_is_the_first_minimum(
                boxes,
                indices,
                axis,
                lo,
                extent,
                n - 1,
                cheapest(boxes, indices, axis, lo, extent, n - 1),
            );
        }
    }
}

/// Both halves of a split hold a shape, and together they hold the shapes
/// of the node, each as often as the node does.
pub proof fn lemma_split(boxes: Seq<AABB>, indices: Seq<usize>, shapes: nat)
    requires
        indices.len() >= 2,
        all_below(indices, shapes),
    ensures
        0 < split(boxes, indices).0.len() < indices.len(),
        0 < split(boxes, indices).1.len() < indices.len(),
        split(boxes, indices).0.len() + split(boxes, indices).1.len() == indices.len(),
        all_below(split(boxes, indices).0, shapes),
        all_below(split(boxes, indices).1, shapes),
        (split(boxes, indices).0 + split(boxes, indices).1).to_multiset() == indices.to_multiset(),
{
    reveal(split);
    let around = centre_bounds(boxes, indices);
    let axis = around.widest();
    let lo = around.minimum.along(axis);
    let extent = around.extent(axis) as i64;
    let (l, r) = split(boxes, indices);
    if extent < 1 {
        let half = (indices.len() / 2) as int;
        assert(l + r == indices);
        assert forall|k: int| 0 <= k < l.len() implies (#[trigger] l[k]) < shapes by {
            assert(l[k] == indices[k]);
        }
        assert forall|k: int| 0 <= k < r.len() implies (#[trigger] r[k]) < shapes by {
            assert(r[k] == indices[k + half]);
        }
    } else {
        let k = cheapest(boxes, indices, axis, lo, extent, NUM_BUCKETS - 2);
        lemma_cheapest_range(boxes, indices, axis, lo, extent, NUM_BUCKETS - 2);
        lemma_sides_nonempty(boxes, indices, axis, lo, extent, k);
        lemma_spread_below(boxes, indices, axis, lo, extent, 0, k + 1, shapes);
        lemma_spread_below(boxes, indices, axis, lo, extent, k + 1, NUM_BUCKETS as int, shapes);
        lemma_spread_cut(boxes, indices, axis, lo, extent, 0, k + 1, NUM_BUCKETS as int);
        assert forall|j: int| 0 <= j < indices.len() implies 0 <= #[trigger] bucket_at(
            boxes,
            indices[j],
            axis,
            lo,
            extent,
        ) < NUM_BUCKETS by {
            lemma_centre_bounds_holds(boxes, indices, j);
            lemma_bucket_range(
                boxes[indices[j] as int].centre().along(axis) as int,
                lo as int,
                extent as int,
            );
        }
        lemma_spread_permutes(boxes, indices, axis, lo, extent);
    }
}

/// A count of shapes times a surface area stays inside the 128-bit range.
proof fn lemma_weighted_area_fits(n: int, a: int)
    requires
        0 <= n <= 0x1_0000_0000,
        -0x8_0000_0000_0000_0000 < a < 0x8_0000_0000_0000_0000,
    ensures
        -0x8_0000_0000_0000_0000_0000_0000 < n * a < 0x8_0000_0000_0000_0000_0000_0000,
{
    assert(-0x8_0000_0000_0000_0000_0000_0000 < n * a < 0x8_0000_0000_0000_0000_0000_0000)
        by (nonlinear_arith)
        requires
            0 <= n <= 0x1_0000_0000,
            -0x8_0000_0000_0000_0000 < a < 0x8_0000_0000_0000_0000,
    {
        assert(n * a <= n * 0x8_0000_0000_0000_0000);
        assert(n * a >= n * (-0x8_0000_0000_0000_0000));
    }
}

/// The box around the centres of the shapes that `indices` names.
fn centroid_bounds<H: Hittable>(shapes: &Vec<H>, indices: &[usize]) -> (around: AABB)
    requires
        all_below(indices@, shapes@.len()),
    ensures
        around == centre_bounds(boxes_of(shapes@), indices@),
{
    let mut around = AABB::empty();
    let mut k: usize = 0;
    while k < indices.len()
        invariant
            k <= indices@.len(),
            all_below(indices@, shapes@.len()),
            around == centre_bounds(boxes_of(shapes@), indices@.take(k as int)),
        decreases indices@.len() - k,
    {
        let center = shapes[indices[k]].bounding_box().center();
        around.grow_mut(&center);
        proof {
            assert(indices@.take(k + 1).drop_last() == indices@.take(k as int));
        }
        k += 1;
    }
    proof {
        assert(indices@.take(k as int) == indices@);
    }
    around
}

/// The bucket of a centre at `c`.
fn bucket_number(c: i32, lo: i32, extent: i64) -> (b: usize)
    requires
        0 < extent <= 0xFFFF_FFFF,
        lo <= c <= lo + extent,
    ensures
        b == bucket_of(c as int, lo as int, extent as int),
        b < NUM_BUCKETS,
{
    proof {
        lemma_bucket_range(c as int, lo as int, extent as int);
    }
    let offset: i64 = c as i64 - lo as i64;
    ((offset * 599) / (extent * 100)) as usize
}

/// Sorts the shapes into the buckets: for each bucket its count and box,
/// and the list of its shapes.
fn fill_buckets<H: Hittable>(
    shapes: &Vec<H>,
    indices: &[usize],
    axis: Axis,
    lo: i32,
    extent: i64,
) -> (filled: (Vec<Bucket>, Vec<Vec<usize>>))
    requires
        all_below(indices@, shapes@.len()),
        extent > 0,
        lo == centre_bounds(boxes_of(shapes@), indices@).minimum.along(axis),
        extent == centre_bounds(boxes_of(shapes@), indices@).extent(axis),
    ensures
        reflects(filled.0@, boxes_of(shapes@), indices@, axis, lo, extent),
        filled.1@.len() == NUM_BUCKETS,
        forall|b: int|
            0 <= b < NUM_BUCKETS ==> (#[trigger] filled.1@[b])@ == members(
                boxes_of(shapes@),
                indices@,
                axis,
                lo,
                extent,
                b,
            ),
        forall|k: int|
            0 <= k < indices@.len() ==> 0 <= #[trigger] bucket_at(
                boxes_of(shapes@),
                indices@[k],
                axis,
                lo,
                extent,
            ) < NUM_BUCKETS,
{
    let ghost boxes = boxes_of(shapes@);
    let mut buckets: Vec<Bucket> = Vec::new();
    let mut bucket_assignments: Vec<Vec<usize>> = Vec::new();
    let mut b: usize = 0;
    while b < NUM_BUCKETS
        invariant
            b <= NUM_BUCKETS,
            buckets@.len() == b,
            bucket_assignments@.len() == b,
            forall|j: int| 0 <= j < b ==> (#[trigger] buckets@[j]).size == 0,
            forall|j: int| 0 <= j < b ==> (#[trigger] buckets@[j]).aabb == AABB::nothing(),
            forall|j: int| 0 <= j < b ==> (#[trigger] bucket_assignments@[j])@.len() == 0,
        decreases NUM_BUCKETS - b,
    {
        buckets.push(Bucket::empty());
        bucket_assignments.push(Vec::new());
        b += 1;
    }
    let mut k: usize = 0;
    assert(indices@.take(0).len() == 0);
    assert forall|j: int| 0 <= j < NUM_BUCKETS implies (#[trigger] bucket_assignments@[j])@
        == members(boxes, indices@.take(0), axis, lo, extent, j) by {
        assert(bucket_assignments@[j]@.len() == 0);
        assert(bucket_assignments@[j]@ == Seq::<usize>::empty());
    }
    while k < indices.len()
        invariant
            k <= indices@.len(),
            boxes == boxes_of(shapes@),
            all_below(indices@, shapes@.len()),
            extent > 0,
            lo == centre_bounds(boxes, indices@).minimum.along(axis),
            extent == centre_bounds(boxes, indices@).extent(axis),
            reflects(buckets@, boxes, indices@.take(k as int), axis, lo, extent),
            bucket_assignments@.len() == NUM_BUCKETS,
            forall|j: int|
                0 <= j < NUM_BUCKETS ==> (#[trigger] bucket_assignments@[j])@ == members(
                    boxes,
                    indices@.take(k as int),
                    axis,
                    lo,
                    extent,
                    j,
                ),
            forall|j: int|
                0 <= j < k ==> 0 <= #[trigger] bucket_at(boxes, indices@[j], axis, lo, extent)
                    < NUM_BUCKETS,
        decreases indices@.len() - k,
    {
        let idx = indices[k];
        let shape_aabb = shapes[idx].bounding_box();
        let shape_center = shape_aabb.center();
        proof {
            lemma_centre_bounds_holds(boxes, indices@, k as int);
            assert(boxes[idx as int] == shape_aabb);
        }
        let bucket_num = bucket_number(shape_center.index(axis), lo, extent);
        proof {
            let before = indices@.take(k as int);
            let after = indices@.take(k + 1);
            assert(after.drop_last() == before);
            assert(after.last() == idx);
            lemma_members_below(boxes, before, axis, lo, extent, bucket_num as int, shapes@.len());
            assert(bucket_at(boxes, idx, axis, lo, extent) == bucket_num);
            assert forall|j: int| 0 <= j < NUM_BUCKETS implies members(
                boxes,
                after,
                axis,
                lo,
                extent,
                j,
            ) == if j == bucket_num {
                members(boxes, before, axis, lo, extent, j).push(idx)
            } else {
                members(boxes, before, axis, lo, extent, j)
            } by {}
            assert(members(boxes, before, axis, lo, extent, bucket_num as int).push(
                idx,
            ).drop_last() == members(boxes, before, axis, lo, extent, bucket_num as int));
        }
        let mut bucket = buckets[bucket_num];
        bucket.add_aabb(&shape_aabb);
        buckets.set(bucket_num, bucket);
        bucket_assignments[bucket_num].push(idx);
        k += 1;
    }
    proof {
        assert(indices@.take(k as int) == indices@);
    }
    (buckets, bucket_assignments)
}

/// The buckets from `from` up to, not including, `to`, taken together.
fn fold_buckets(
    buckets: &Vec<Bucket>,
    from: usize,
    to: usize,
    Ghost(boxes): Ghost<Seq<AABB>>,
    Ghost(indices): Ghost<Seq<usize>>,
    Ghost(axis): Ghost<Axis>,
    Ghost(lo): Ghost<i32>,
    Ghost(extent): Ghost<i64>,
) -> (sum: Bucket)
    requires
        from <= to <= NUM_BUCKETS,
        reflects(buckets@, boxes, indices, axis, lo, extent),
        spread(boxes, indices, axis, lo, extent, 0, NUM_BUCKETS as int).len() == indices.len(),
        indices.len() <= usize::MAX,
    ensures
        sum.size == spread(boxes, indices, axis, lo, extent, from as int, to as int).len(),
        sum.aabb == joint(boxes, spread(boxes, indices, axis, lo, extent, from as int, to as int)),
{
    let mut sum = Bucket::empty();
    let mut b: usize = from;
    while b < to
        invariant
            from <= b <= to <= NUM_BUCKETS,
            reflects(buckets@, boxes, indices, axis, lo, extent),
            spread(boxes, indices, axis, lo, extent, 0, NUM_BUCKETS as int).len() == indices.len(),
            indices.len() <= usize::MAX,
            sum.size == spread(boxes, indices, axis, lo, extent, from as int, b as int).len(),
            sum.aabb == joint(boxes, spread(boxes, indices, axis, lo, extent, from as int, b as int)),
        decreases to - b,
    {
        proof {
            lemma_spread_bounded(boxes, indices, axis, lo, extent, from as int, b + 1);
            lemma_joint_concat(
                boxes,
                spread(boxes, indices, axis, lo, extent, from as int, b as int),
                members(boxes, indices, axis, lo, extent, b as int),
            );
        }
        sum = Bucket::join_bucket(sum, &buckets[b]);
        b += 1;
    }
    sum
}

/// The cost of a split into the two sides `l` and `r`.
fn price(l: &Bucket, r: &Bucket) -> (p: i128)
    requires
        l.size <= MAX_SHAPES + 1,
        r.size <= MAX_SHAPES + 1,
    ensures
        p == l.size * l.aabb.area() + r.size * r.aabb.area(),
{
    let l_area = l.aabb.surface_area();
    let r_area = r.aabb.surface_area();
    proof {
        lemma_weighted_area_fits(l.size as int, l_area as int);
        lemma_weighted_area_fits(r.size as int, r_area as int);
    }
    (l.size as i128) * l_area + (r.size as i128) * r_area
}

/// The cheapest split between two buckets, with the boxes around its two
/// sides.
fn choose_split(
    buckets: &Vec<Bucket>,
    Ghost(boxes): Ghost<Seq<AABB>>,
    Ghost(indices): Ghost<Seq<usize>>,
    Ghost(axis): Ghost<Axis>,
    Ghost(lo): Ghost<i32>,
    Ghost(extent): Ghost<i64>,
) -> (chosen: (usize, AABB, AABB))
    requires
        reflects(buckets@, boxes, indices, axis, lo, extent),
        spread(boxes, indices, axis, lo, extent, 0, NUM_BUCKETS as int).len() == indices.len(),
        indices.len() <= MAX_SHAPES + 1,
        indices.len() <= usize::MAX,
    ensures
        chosen.0 < NUM_BUCKETS - 1,
        chosen.0 == cheapest(boxes, indices, axis, lo, extent, NUM_BUCKETS - 2),
        chosen.1 == joint(boxes, spread(boxes, indices, axis, lo, extent, 0, chosen.0 + 1)),
        chosen.2 == joint(
            boxes,
            spread(boxes, indices, axis, lo, extent, chosen.0 + 1, NUM_BUCKETS as int),
        ),
{
    let mut min_bucket: usize = 0;
    let mut min_cost: i128 = 0;
    let mut child_l_aabb = AABB::empty();
    let mut child_r_aabb = AABB::empty();
    let mut i: usize = 0;
    while i < NUM_BUCKETS - 1
        invariant
            i <= NUM_BUCKETS - 1,
            min_bucket < NUM_BUCKETS - 1,
            reflects(buckets@, boxes, indices, axis, lo, extent),
            spread(boxes, indices, axis, lo, extent, 0, NUM_BUCKETS as int).len() == indices.len(),
            indices.len() <= MAX_SHAPES + 1,
            indices.len() <= usize::MAX,
            i > 0 ==> {
                &&& min_bucket == cheapest(boxes, indices, axis, lo, extent, i - 1)
                &&& min_cost == cost(boxes, indices, axis, lo, extent, min_bucket as int)
                &&& child_l_aabb == joint(
                    boxes,
                    spread(boxes, indices, axis, lo, extent, 0, min_bucket + 1),
                )
                &&& child_r_aabb == joint(
                    boxes,
                    spread(boxes, indices, axis, lo, extent, min_bucket + 1, NUM_BUCKETS as int),
                )
            },
        decreases NUM_BUCKETS - 1 - i,
    {
        let child_l = fold_buckets(
            buckets,
            0,
            i + 1,
            Ghost(boxes),
            Ghost(indices),
            Ghost(axis),
            Ghost(lo),
            Ghost(extent),
        );
        let child_r = fold_buckets(
            buckets,
            i + 1,
            NUM_BUCKETS,
            Ghost(boxes),
            Ghost(indices),
            Ghost(axis),
            Ghost(lo),
            Ghost(extent),
        );
        proof {
            lemma_spread_bounded(boxes, indices, axis, lo, extent, 0, i + 1);
            lemma_spread_bounded(boxes, indices, axis, lo, extent, i + 1, NUM_BUCKETS as int);
        }
        let cost = price(&child_l, &child_r);
        if i == 0 || cost < min_cost {
            min_bucket = i;
            min_cost = cost;
            child_l_aabb = child_l.aabb;
            child_r_aabb = child_r.aabb;
        }
        i += 1;
    }
    (min_bucket, child_l_aabb, child_r_aabb)
}

/// Splits the shapes of a node between two buckets at the least cost: the
/// shapes of the two sides and the boxes around them.
fn bucket_split<H: Hittable>(
    shapes: &Vec<H>,
    indices: &[usize],
    axis: Axis,
    lo: i32,
    extent: i64,
) -> (halves: (Vec<usize>, AABB, Vec<usize>, AABB))
    requires
        0 < indices@.len() <= MAX_SHAPES + 1,
        all_below(indices@, shapes@.len()),
        extent > 0,
        lo == centre_bounds(boxes_of(shapes@), indices@).minimum.along(axis),
        extent == centre_bounds(boxes_of(shapes@), indices@).extent(axis),
    ensures
        ({
            let boxes = boxes_of(shapes@);
            let k = cheapest(boxes, indices@, axis, lo, extent, NUM_BUCKETS - 2);
            &&& halves.0@ == spread(boxes, indices@, axis, lo, extent, 0, k + 1)
            &&& halves.2@ == spread(boxes, indices@, axis, lo, extent, k + 1, NUM_BUCKETS as int)
            &&& halves.1 == joint(boxes, halves.0@)
            &&& halves.3 == joint(boxes, halves.2@)
        }),
        0 < halves.0@.len() < indices@.len(),
        0 < halves.2@.len() < indices@.len(),
        all_below(halves.0@, shapes@.len()),
        all_below(halves.2@, shapes@.len()),
{
    let ghost boxes = boxes_of(shapes@);
    let (buckets, mut bucket_assignments) = fill_buckets(shapes, indices, axis, lo, extent);
    proof {
        lemma_spread_counts(boxes, indices@, axis, lo, extent);
    }
    assert(indices@.len() == indices.len());
    let (min_bucket, l_aabb, r_aabb) = choose_split(
        &buckets,
        Ghost(boxes),
        Ghost(indices@),
        Ghost(axis),
        Ghost(lo),
        Ghost(extent),
    );
    let ghost parts = bucket_assignments@;
    let (l_assignments, r_assignments) = bucket_assignments.as_mut_slice().split_at_mut(
        min_bucket + 1,
    );
    let child_l_indices = concatenate_vectors(l_assignments);
    let child_r_indices = concatenate_vectors(r_assignments);
    proof {
        let l_parts = parts.subrange(0, min_bucket + 1);
        let r_parts = parts.subrange(min_bucket + 1, NUM_BUCKETS as int);
        assert forall|j: int| 0 <= j < l_parts.len() implies (#[trigger] l_parts[j])@ == members(
            boxes,
            indices@,
            axis,
            lo,
            extent,
            0 + j,
        ) by {
            assert(l_parts[j] == parts[j]);
        }
        assert forall|j: int| 0 <= j < r_parts.len() implies (#[trigger] r_parts[j])@ == members(
            boxes,
            indices@,
            axis,
            lo,
            extent,
            min_bucket + 1 + j,
        ) by {
            assert(r_parts[j] == parts[min_bucket + 1 + j]);
        }
        lemma_concatenation_is_spread(l_parts, boxes, indices@, axis, lo, extent, 0);
        lemma_concatenation_is_spread(r_parts, boxes, indices@, axis, lo, extent, min_bucket + 1);
        lemma_sides_nonempty(boxes, indices@, axis, lo, extent, min_bucket as int);
        lemma_spread_below(boxes, indices@, axis, lo, extent, 0, min_bucket + 1, shapes@.len());
        lemma_spread_below(
            boxes,
            indices@,
            axis,
            lo,
            extent,
            min_bucket + 1,
            NUM_BUCKETS as int,
            shapes@.len(),
        );
    }
    (child_l_indices, l_aabb, child_r_indices, r_aabb)
}

/// A vector with the elements of `items`.
fn copy_of(items: &[usize]) -> (copy: Vec<usize>)
    ensures
        copy@ == items@,
{
    let mut copy: Vec<usize> = Vec::new();
    let mut k: usize = 0;
    while k < items.len()
        invariant
            k <= items@.len(),
            copy@ == items@.take(k as int),
        decreases items@.len() - k,
    {
        copy.push(items[k]);
        assert(items@.take(k + 1) == items@.take(k as int).push(items@[k as int]));
        k += 1;
    }
    assert(items@.take(k as int) == items@);
    copy
}

/// Splits the shapes of a node into its two halves, as [`split`] says: the
/// shapes of each half and the box around them.
pub(crate) fn divide<H: Hittable>(shapes: &Vec<H>, indices: &[usize]) -> (halves: (
    Vec<usize>,
    AABB,
    Vec<usize>,
    AABB,
))
    requires
        2 <= indices@.len() <= MAX_SHAPES + 1,
        all_below(indices@, shapes@.len()),
    ensures
        (halves.0@, halves.2@) == split(boxes_of(shapes@), indices@),
        halves.1 == joint(boxes_of(shapes@), halves.0@),
        halves.3 == joint(boxes_of(shapes@), halves.2@),
        0 < halves.0@.len() < indices@.len(),
        0 < halves.2@.len() < indices@.len(),
        all_below(halves.0@, shapes@.len()),
        all_below(halves.2@, shapes@.len()),
{
    let ghost boxes = boxes_of(shapes@);
    proof {
        reveal(split);
    }
    let centroid_bounds = centroid_bounds(shapes, indices);
    let split_axis = centroid_bounds.largest_axis();
    let lo = centroid_bounds.minimum.index(split_axis);
    let split_axis_size: i64 = centroid_bounds.maximum.index(split_axis) as i64 - lo as i64;

    if split_axis_size < 1 {
        let (child_l_indices, child_r_indices) = indices.split_at(indices.len() / 2);
        proof {
            let l = child_l_indices@;
            let r = child_r_indices@;
            assert forall|k: int| 0 <= k < l.len() implies (#[trigger] l[k]) < shapes@.len() by {
                assert(l[k] == indices@[k]);
            }
            assert forall|k: int| 0 <= k < r.len() implies (#[trigger] r[k]) < shapes@.len() by {
                assert(r[k] == indices@[k + indices@.len() / 2]);
            }
        }
        let child_l_aabb = joint_aabb(child_l_indices, shapes.as_slice());
        let child_r_aabb = joint_aabb(child_r_indices, shapes.as_slice());
        (copy_of(child_l_indices), child_l_aabb, copy_of(child_r_indices), child_r_aabb)
    } else {
        bucket_split(shapes, indices, split_axis, lo, split_axis_size)
    }
}

impl BVHNode {
    /// Builds the hierarchy over the shapes that `indices` names at the end
    /// of `nodes`, and returns the index of its root.
    ///
    /// An inner node is put down before its children and filled in once
    /// they are built.
    pub fn build<H: Hittable>(
        shapes: &Vec<H>,
        indices: &[usize],
        nodes: &mut Vec<BVHNode>,
        parent_index: usize,
        depth: u32,
    ) -> (node_index: usize)
        requires
            indices@.len() > 0,
            all_below(indices@, shapes@.len()),
            depth + indices@.len() <= u32::MAX + 1,
        ensures
            node_index == old(nodes)@.len(),
            final(nodes)@ == old(nodes)@ + tree(
                SplitPolicy::Sah,
                boxes_of(shapes@),
                indices@,
                parent_index,
                depth,
                old(nodes)@.len(),
            ),
        decreases indices@.len(),
    {
        let ghost boxes = boxes_of(shapes@);
        let ghost base = nodes@.len();
        let len = indices.len();

        if len == 1 {
            let shape_index = indices[0];
            let node_index = nodes.len();
            nodes.push(BVHNode::Leaf { depth, shape_index, parent_index });
            return node_index;
        }
        let node_index = nodes.len();
        nodes.push(BVHNode::Leaf { depth, parent_index: 0, shape_index: 0 });

        let (child_l_indices, child_l_aabb, child_r_indices, child_r_aabb) = divide(shapes, indices);

        let child_l_index = BVHNode::build(
            shapes,
            child_l_indices.as_slice(),
            nodes,
            node_index,
            depth + 1,
        );
        let child_r_index = BVHNode::build(
            shapes,
            child_r_indices.as_slice(),
            nodes,
            node_index,
            depth + 1,
        );

        let node = BVHNode::Node {
            depth,
            child_l_aabb,
            child_l_index,
            child_r_aabb,
            child_r_index,
            parent_index,
        };
        nodes.set(node_index, node);
        proof {
            let l = child_l_indices@;
            let r = child_r_indices@;
            let policy = SplitPolicy::Sah;
            assert(halves(policy, boxes, indices@) == (l, r));
            let left = tree(policy, boxes, l, node_index, (depth + 1) as u32, base + 1);
            let right = tree(
                policy,
                boxes,
                r,
                node_index,
                (depth + 1) as u32,
                base + 1 + left.len(),
            );
            assert(tree(policy, boxes, indices@, parent_index, depth, base) == seq![node] + left
                + right);
            assert(nodes@ == old(nodes)@ + (seq![node] + left + right));
        }
        node_index
    }

    /// Whether the subtree at `node_index` is well linked over `shapes` many
    /// shapes.
    pub fn linked_from(nodes: &[BVHNode], node_index: usize, shapes: usize) -> (ok: bool)
        ensures
            ok == linked(nodes@, node_index as int, shapes as nat),
        decreases nodes@.len() - node_index,
    {
        if node_index >= nodes.len() {
            return false;
        }
        match nodes[node_index] {
            BVHNode::Leaf { shape_index, .. } => shape_index < shapes,
            BVHNode::Node { child_l_index, child_r_index, .. } => {
                node_index < child_l_index && child_l_index < nodes.len() && node_index
                    < child_r_index && child_r_index < nodes.len() && BVHNode::linked_from(
                    nodes,
                    child_l_index,
                    shapes,
                ) && BVHNode::linked_from(nodes, child_r_index, shapes)
            },
        }
    }

    /// Appends to `lines` the outline of the subtree at `node_index`.
    pub fn outline(nodes: &[BVHNode], node_index: usize, lines: &mut Vec<Line>)
        requires
            exists|shapes: nat| linked(nodes@, node_index as int, shapes),
        ensures
            final(lines)@ == old(lines)@ + outline_of(nodes@, node_index as int),
        decreases nodes@.len() - node_index,
    {
        let ghost shapes = choose|shapes: nat| linked(nodes@, node_index as int, shapes);
        match nodes[node_index] {
            BVHNode::Node { child_l_index, child_r_index, depth, child_l_aabb, child_r_aabb, .. } => {
                assert(linked(nodes@, child_l_index as int, shapes));
                assert(linked(nodes@, child_r_index as int, shapes));
                lines.push(Line::Left { depth, aabb: child_l_aabb });
                BVHNode::outline(nodes, child_l_index, lines);
                lines.push(Line::Right { depth, aabb: child_r_aabb });
                BVHNode::outline(nodes, child_r_index, lines);
                assert(lines@ == old(lines)@ + (seq![Line::Left { depth, aabb: child_l_aabb }]
                    + outline_of(nodes@, child_l_index as int) + seq![
                    Line::Right { depth, aabb: child_r_aabb },
                ] + outline_of(nodes@, child_r_index as int)));
            },
            BVHNode::Leaf { shape_index, depth, .. } => {
                lines.push(Line::Shape { depth, shape_index });
                assert(lines@ == old(lines)@ + seq![Line::Shape { depth, shape_index }]);
            },
        }
    }

    /// Appends to `indices` the shapes that a walk from the node at
    /// `node_index` reaches for the ray `r`.
    pub fn traverse(r: &Ray, nodes: &[BVHNode], node_index: usize, indices: &mut Vec<usize>)
        requires
            exists|shapes: nat| linked(nodes@, node_index as int, shapes),
        ensures
            final(indices)@ == old(indices)@ + candidates(nodes@, *r, node_index as int),
        decreases nodes@.len() - node_index,
    {
        let ghost shapes = choose|shapes: nat| linked(nodes@, node_index as int, shapes);
        match nodes[node_index] {
            BVHNode::Node { child_l_index, child_l_aabb, child_r_index, child_r_aabb, .. } => {
                assert(linked(nodes@, child_l_index as int, shapes));
                assert(linked(nodes@, child_r_index as int, shapes));
                if r.aabb_intersect(child_l_aabb) {
                    BVHNode::traverse(r, nodes, child_l_index, indices);
                }
                if r.aabb_intersect(child_r_aabb) {
                    BVHNode::traverse(r, nodes, child_r_index, indices);
                }
                proof {
                    let left = if child_l_aabb.crossed(*r) {
                        candidates(nodes@, *r, child_l_index as int)
                    } else {
                        Seq::empty()
                    };
                    let right = if child_r_aabb.crossed(*r) {
                        candidates(nodes@, *r, child_r_index as int)
                    } else {
                        Seq::empty()
                    };
                    assert(indices@ == old(indices)@ + (left + right));
                }
            },
            BVHNode::Leaf { shape_index, .. } => {
                indices.push(shape_index);
                assert(indices@ == old(indices)@ + seq![shape_index]);
            },
        }
    }
}

/// A hierarchy over the shapes of a scene: its nodes in one array, the root
/// first.
#[derive(Debug)]
pub struct BVH {
    pub nodes: Vec<BVHNode>,
}

impl BVH {
    /// Whether the hierarchy is well linked from its root, over `shapes`
    /// many shapes.
    pub open spec fn wf(&self, shapes: nat) -> bool {
        linked(self.nodes@, 0, shapes)
    }

    /// Builds the hierarchy over all of `shapes`.
    pub fn build<H: Hittable>(shapes: &Vec<H>) -> (bvh: BVH)
        requires
            0 < shapes@.len() <= u32::MAX + 1,
        ensures
            bvh.nodes@ == tree(
                SplitPolicy::Sah,
                boxes_of(shapes@),
                all_shapes(shapes@.len()),
                0,
                0,
                0,
            ),
            bvh.nodes@.len() == 2 * shapes@.len() - 1,
            bvh.wf(shapes@.len()),
            threaded(bvh.nodes@, 0, 0, 0),
            fitted(bvh.nodes@, 0, boxes_of(shapes@)),
            leaves(bvh.nodes@, 0).to_multiset() == all_shapes(shapes@.len()).to_multiset(),
            joint(boxes_of(shapes@), leaves(bvh.nodes@, 0)) == joint_all(boxes_of(shapes@)),
    {
        let mut indices: Vec<usize> = Vec::new();
        let mut i: usize = 0;
        while i < shapes.len()
            invariant
                i <= shapes@.len(),
                indices@ == all_shapes(i as nat),
            decreases shapes@.len() - i,
        {
            indices.push(i);
            assert(indices@ == all_shapes((i + 1) as nat));
            i += 1;
        }
        let mut nodes: Vec<BVHNode> = Vec::new();
        BVHNode::build(shapes, indices.as_slice(), &mut nodes, 0, 0);
        proof {
            let laid = tree(SplitPolicy::Sah, boxes_of(shapes@), indices@, 0, 0, 0);
            assert(Seq::<BVHNode>::empty() + laid == laid);
            assert(nodes@.len() == nodes.len());
            lemma_tree_len(SplitPolicy::Sah, boxes_of(shapes@), indices@, 0, 0, 0);
            lemma_tree(SplitPolicy::Sah, Seq::empty(), boxes_of(shapes@), indices@, 0, 0);
            lemma_tree_threaded(SplitPolicy::Sah, Seq::empty(), boxes_of(shapes@), indices@, 0, 0);
            leaves_cover_the_scene(SplitPolicy::Sah, boxes_of(shapes@));
        }
        BVH { nodes }
    }

    /// Whether the hierarchy is well linked from its root, over `shapes`
    /// many shapes, as walking it requires.
    pub fn is_linked(&self, shapes: usize) -> (ok: bool)
        ensures
            ok == self.wf(shapes as nat),
    {
        BVHNode::linked_from(self.nodes.as_slice(), 0, shapes)
    }

    /// The surface areas of the boxes around the two children of every
    /// inner node, added up.
    pub fn total_surface_area(&self) -> (total: i128)
        requires
            self.nodes@.len() <= 2 * MAX_SHAPES + 1,
        ensures
            total == summed_area(self.nodes@),
    {
        let mut total: i128 = 0;
        let mut k: usize = 0;
        while k < self.nodes.len()
            invariant
                k <= self.nodes@.len() <= 2 * MAX_SHAPES + 1,
                total == summed_area(self.nodes@.take(k as int)),
                -0x8_0000_0000_0000_0000 * k <= total <= 0x8_0000_0000_0000_0000 * k,
            decreases self.nodes@.len() - k,
        {
            proof {
                assert(self.nodes@.take(k + 1).drop_last() == self.nodes@.take(k as int));
            }
            match self.nodes[k] {
                BVHNode::Node { child_l_aabb, child_r_aabb, .. } => {
                    let aabb = AABB::join(&child_l_aabb, &child_r_aabb);
                    total = total + aabb.surface_area();
                },
                _ => {},
            }
            k += 1;
        }
        proof {
            assert(self.nodes@.take(k as int) == self.nodes@);
        }
        total
    }

    /// The outline of the hierarchy from its root, line by line.
    pub fn outline(&self) -> (lines: Vec<Line>)
        requires
            exists|shapes: nat| self.wf(shapes),
        ensures
            lines@ == outline_of(self.nodes@, 0),
    {
        let mut lines: Vec<Line> = Vec::new();
        BVHNode::outline(self.nodes.as_slice(), 0, &mut lines);
        lines
    }

    /// The shapes that `r` may hit, in the order of the walk: those at the
    /// leaves that the walk of [`candidates`] reaches from the root.
    pub fn traverse<'a, H: Hittable>(&'a self, r: &Ray, shapes: &'a [H]) -> (found: Vec<&'a H>)
        requires
            self.wf(shapes@.len()),
        ensures
            referents(found@) == picked(shapes@, candidates(self.nodes@, *r, 0)),
    {
        let mut indices: Vec<usize> = Vec::new();
        BVHNode::traverse(r, self.nodes.as_slice(), 0, &mut indices);
        proof {
            lemma_candidates_in_range(self.nodes@, *r, 0, shapes@.len());
            assert(indices@ == candidates(self.nodes@, *r, 0));
        }
        let mut found: Vec<&'a H> = Vec::new();
        let mut k: usize = 0;
        while k < indices.len()
            invariant
                k <= indices@.len(),
                found@.len() == k,
                all_below(indices@, shapes@.len()),
                forall|j: int| 0 <= j < k ==> *(#[trigger] found@[j]) == shapes@[indices@[j] as int],
            decreases indices@.len() - k,
        {
            found.push(&shapes[indices[k]]);
            k += 1;
        }
        proof {
            assert(referents(found@) =~= picked(shapes@, indices@));
        }
        found
    }
}

} // verus!
