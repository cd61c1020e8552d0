//! The layout that the flat hierarchies share: which nodes a builder puts
//! down for a list of shapes, what a walk through them reaches, and what
//! holds of both.

use vstd::prelude::*;

use crate::aabb::{crossing_widens, line_crossing_widens, AABB};
use crate::bvh::sah::{lemma_split, split, BVHNode};
use crate::bvh::{lemma_median_split, median_split};
use crate::hittable::{boxes_of, obeys_hit_laws_at, Hittable};
use crate::ray::{all_obey_at, is_nearest, nearest, nearest_hits_agree, scan_keeps_the_nearest, Ray};
use crate::util::{
    joint, joint_all, lemma_joint_encloses_each, lemma_joint_in_order, lemma_joint_of_permutation,
};

verus! {

/// The rule by which a node's shapes are divided between its children.
#[derive(Clone, Copy, Debug, PartialEq, Eq, Structural)]
pub enum SplitPolicy {
    /// Sort along the widest axis and cut the sorted list in the middle.
    Median,
    /// Sort into buckets along the widest axis of the centres and cut where
    /// the surface area heuristic costs least.
    Sah,
}

/// The two halves into which `policy` divides a node over `indices`.
pub open spec fn halves(policy: SplitPolicy, boxes: Seq<AABB>, indices: Seq<usize>) -> (
    Seq<usize>,
    Seq<usize>,
) {
    match policy {
        SplitPolicy::Median => median_split(boxes, indices),
        SplitPolicy::Sah => split(boxes, indices),
    }
}

/// The root that the builder puts over the two halves `l` and `r` of a node
/// whose subtree starts at `base` and whose left subtree has `left_len`
/// nodes.
pub open spec fn root_over(
    boxes: Seq<AABB>,
    l: Seq<usize>,
    r: Seq<usize>,
    parent: usize,
    depth: u32,
    base: nat,
    left_len: nat,
) -> BVHNode {
    BVHNode::Node {
        depth,
        parent_index: parent,
        child_l_index: (base + 1) as usize,
        child_l_aabb: joint(boxes, l),
        child_r_index: (base + 1 + left_len) as usize,
        child_r_aabb: joint(boxes, r),
    }
}

/// The nodes of the hierarchy over `indices`, as they stand in the array
/// from position `base` on: the root of the subtree first, then the subtree
/// of its left half, then that of its right half. A single shape makes a
/// leaf.
pub open spec fn tree(
    policy: SplitPolicy,
    boxes: Seq<AABB>,
    indices: Seq<usize>,
    parent: usize,
    depth: u32,
    base: nat,
) -> Seq<BVHNode>
    decreases indices.len(),
{
    if indices.len() == 0 {
        Seq::empty()
    } else if indices.len() == 1 {
        seq![BVHNode::Leaf { depth, parent_index: parent, shape_index: indices[0] }]
    } else {
        let (l, r) = halves(policy, boxes, indices);
        if 0 < l.len() < indices.len() && 0 < r.len() < indices.len() {
            let left = tree(policy, boxes, l, base as usize, (depth + 1) as u32, base + 1);
            let right = tree(
                policy,
                boxes,
                r,
                base as usize,
                (depth + 1) as u32,
                base + 1 + left.len(),
            );
            seq![root_over(boxes, l, r, parent, depth, base, left.len())] + left + right
        } else {
            Seq::empty()
        }
    }
}

/// Whether every index in `s` names one of `shapes` many shapes.
pub open spec fn all_below(s: Seq<usize>, shapes: nat) -> bool {
    forall|k: int| 0 <= k < s.len() ==> (#[trigger] s[k]) < shapes
}

/// The list of all of `n` shapes, in order.
pub open spec fn all_shapes(n: nat) -> Seq<usize> {
    Seq::new(n, |i: int| i as usize)
}

/// The shapes that the indices of `picks` name, in the order of `picks`.
pub open spec fn picked<H>(shapes: Seq<H>, picks: Seq<usize>) -> Seq<H> {
    Seq::new(picks.len(), |k: int| shapes[picks[k] as int])
}

/// Whether the subtree at `i` is well linked: every index that it follows
/// names a node further back in the array, and every shape that it names is
/// one of `shapes` many.
pub open spec fn linked(nodes: Seq<BVHNode>, i: int, shapes: nat) -> bool
    decreases nodes.len() - i,
{
    if 0 <= i < nodes.len() {
        match nodes[i] {
            BVHNode::Leaf { shape_index, .. } => shape_index < shapes,
            BVHNode::Node { child_l_index, child_r_index, .. } => {
                &&& i < child_l_index < nodes.len()
                &&& i < child_r_index < nodes.len()
                &&& linked(nodes, child_l_index as int, shapes)
                &&& linked(nodes, child_r_index as int, shapes)
            },
        }
    } else {
        false
    }
}

/// Whether the subtree at `i` is threaded from a node at `parent` and at
/// `depth`: its root carries that parent and that depth, and every node
/// below carries the index of the node above it and a depth one greater.
pub open spec fn threaded(nodes: Seq<BVHNode>, i: int, parent: usize, depth: u32) -> bool
    decreases nodes.len() - i,
{
    if 0 <= i < nodes.len() {
        match nodes[i] {
            BVHNode::Leaf { depth: d, parent_index, .. } => d == depth && parent_index == parent,
            BVHNode::Node { depth: d, parent_index, child_l_index, child_r_index, .. } => {
                &&& d == depth
                &&& parent_index == parent
                &&& depth < u32::MAX
                &&& i < child_l_index < nodes.len()
                &&& i < child_r_index < nodes.len()
                &&& threaded(nodes, child_l_index as int, i as usize, (depth + 1) as u32)
                &&& threaded(nodes, child_r_index as int, i as usize, (depth + 1) as u32)
            },
        }
    } else {
        false
    }
}

/// The shapes at the leaves of the subtree at `i`, from left to right.
pub open spec fn leaves(nodes: Seq<BVHNode>, i: int) -> Seq<usize>
    decreases nodes.len() - i,
{
    if 0 <= i < nodes.len() {
        match nodes[i] {
            BVHNode::Leaf { shape_index, .. } => seq![shape_index],
            BVHNode::Node { child_l_index, child_r_index, .. } => {
                if i < child_l_index < nodes.len() && i < child_r_index < nodes.len() {
                    leaves(nodes, child_l_index as int) + leaves(nodes, child_r_index as int)
                } else {
                    Seq::empty()
                }
            },
        }
    } else {
        Seq::empty()
    }
}

/// Whether every inner node of the subtree at `i` holds, for each child, the
/// join of the boxes of the shapes at the leaves below that child.
pub open spec fn fitted(nodes: Seq<BVHNode>, i: int, boxes: Seq<AABB>) -> bool
    decreases nodes.len() - i,
{
    if 0 <= i < nodes.len() {
        match nodes[i] {
            BVHNode::Leaf { .. } => true,
            BVHNode::Node { child_l_index, child_l_aabb, child_r_index, child_r_aabb, .. } => {
                &&& i < child_l_index < nodes.len()
                &&& i < child_r_index < nodes.len()
                &&& child_l_aabb == joint(boxes, leaves(nodes, child_l_index as int))
                &&& child_r_aabb == joint(boxes, leaves(nodes, child_r_index as int))
                &&& fitted(nodes, child_l_index as int, boxes)
                &&& fitted(nodes, child_r_index as int, boxes)
            },
        }
    } else {
        false
    }
}

/// The shapes that a walk from the node at `i` reaches for the ray `r`, from
/// left to right: the walk enters a child exactly when the line of `r`
/// passes through the child's box, and a leaf gives its shape.
pub open spec fn candidates(nodes: Seq<BVHNode>, r: Ray, i: int) -> Seq<usize>
    decreases nodes.len() - i,
{
    if 0 <= i < nodes.len() {
        match nodes[i] {
            BVHNode::Leaf { shape_index, .. } => seq![shape_index],
            BVHNode::Node { child_l_index, child_l_aabb, child_r_index, child_r_aabb, .. } => {
                if i < child_l_index < nodes.len() && i < child_r_index < nodes.len() {
                    let left = if child_l_aabb.crossed(r) {
                        candidates(nodes, r, child_l_index as int)
                    } else {
                        Seq::empty()
                    };
                    let right = if child_r_aabb.crossed(r) {
                        candidates(nodes, r, child_r_index as int)
                    } else {
                        Seq::empty()
                    };
                    left + right
                } else {
                    Seq::empty()
                }
            },
        }
    } else {
        Seq::empty()
    }
}

/// A line of the outline of a hierarchy: the step into the left or the right
/// child of a node, with the box around that child, or a shape at a leaf.
/// Each line carries the depth of its node.
#[derive(Clone, Copy, Debug, PartialEq, Eq, Structural)]
pub enum Line {
    Left { depth: u32, aabb: AABB },
    Right { depth: u32, aabb: AABB },
    Shape { depth: u32, shape_index: usize },
}

/// The outline of the subtree at `i`: for an inner node the step to the
/// left, the outline of the left child, the step to the right and the
/// outline of the right child; for a leaf its shape.
pub open spec fn outline_of(nodes: Seq<BVHNode>, i: int) -> Seq<Line>
    decreases nodes.len() - i,
{
    if 0 <= i < nodes.len() {
        match nodes[i] {
            BVHNode::Leaf { depth, shape_index, .. } => seq![Line::Shape { depth, shape_index }],
            BVHNode::Node { depth, child_l_index, child_l_aabb, child_r_index, child_r_aabb, .. } => {
                if i < child_l_index < nodes.len() && i < child_r_index < nodes.len() {
                    seq![Line::Left { depth, aabb: child_l_aabb }] + outline_of(
                        nodes,
                        child_l_index as int,
                    ) + seq![Line::Right { depth, aabb: child_r_aabb }] + outline_of(
                        nodes,
                        child_r_index as int,
                    )
                } else {
                    Seq::empty()
                }
            },
        }
    } else {
        Seq::empty()
    }
}

/// The surface areas of the boxes around the two children of every inner
/// node among `nodes`, added up.
pub open spec fn summed_area(nodes: Seq<BVHNode>) -> int
    decreases nodes.len(),
{
    if nodes.len() == 0 {
        0
    } else {
        summed_area(nodes.drop_last()) + match nodes.last() {
            BVHNode::Node { child_l_aabb, child_r_aabb, .. } => child_l_aabb.union(
                child_r_aabb,
            ).area(),
            BVHNode::Leaf { .. } => 0,
        }
    }
}

/// Every candidate of a well linked subtree names one of the shapes.
pub proof fn lemma_candidates_in_range(nodes: Seq<BVHNode>, r: Ray, i: int, shapes: nat)
    requires
        linked(nodes, i, shapes),
    ensures
        all_below(candidates(nodes, r, i), shapes),
    decreases nodes.len() - i,
{
    match nodes[i] {
        BVHNode::Leaf { .. } => {},
        BVHNode::Node { child_l_index, child_l_aabb, child_r_index, child_r_aabb, .. } => {
            lemma_candidates_in_range(nodes, r, child_l_index as int, shapes);
            lemma_candidates_in_range(nodes, r, child_r_index as int, shapes);
            let left = if child_l_aabb.crossed(r) {
                candidates(nodes, r, child_l_index as int)
            } else {
                Seq::empty()
            };
            let right = if child_r_aabb.crossed(r) {
                candidates(nodes, r, child_r_index as int)
            } else {
                Seq::empty()
            };
            assert(candidates(nodes, r, i) == left + right);
            assert forall|k: int| 0 <= k < (left + right).len() implies (#[trigger] (left + right)[k])
                < shapes by {
                if k < left.len() {
                    assert((left + right)[k] == left[k]);
                } else {
                    assert((left + right)[k] == right[k - left.len()]);
                }
            }
        },
    }
}

/// Under either policy both halves of a node hold a shape, and together
/// they hold the shapes of the node, each as often as the node does.
pub proof fn lemma_halves(policy: SplitPolicy, boxes: Seq<AABB>, indices: Seq<usize>, shapes: nat)
    requires
        indices.len() >= 2,
        all_below(indices, shapes),
    ensures
        0 < halves(policy, boxes, indices).0.len() < indices.len(),
        0 < halves(policy, boxes, indices).1.len() < indices.len(),
        halves(policy, boxes, indices).0.len() + halves(policy, boxes, indices).1.len()
            == indices.len(),
        all_below(halves(policy, boxes, indices).0, shapes),
        all_below(halves(policy, boxes, indices).1, shapes),
        (halves(policy, boxes, indices).0 + halves(policy, boxes, indices).1).to_multiset()
            == indices.to_multiset(),
{
    match policy {
        SplitPolicy::Median => lemma_median_split(boxes, indices, shapes),
        SplitPolicy::Sah => lemma_split(boxes, indices, shapes),
    }
}

/// Nodes put behind an array leave a well linked subtree as it is.
pub proof fn lemma_stable(
    nodes: Seq<BVHNode>,
    more: Seq<BVHNode>,
    i: int,
    shapes: nat,
    boxes: Seq<AABB>,
)
    requires
        linked(nodes, i, shapes),
    ensures
        linked(nodes + more, i, shapes),
        leaves(nodes + more, i) == leaves(nodes, i),
        fitted(nodes + more, i, boxes) == fitted(nodes, i, boxes),
        forall|r: Ray| #[trigger] candidates(nodes + more, r, i) == candidates(nodes, r, i),
    decreases nodes.len() - i,
{
    assert((nodes + more)[i] == nodes[i]);
    match nodes[i] {
        BVHNode::Leaf { .. } => {},
        BVHNode::Node { child_l_index, child_r_index, .. } => {
            lemma_stable(nodes, more, child_l_index as int, shapes, boxes);
            lemma_stable(nodes, more, child_r_index as int, shapes, boxes);
        },
    }
    assert forall|r: Ray| #[trigger]
        candidates(nodes + more, r, i) == candidates(nodes, r, i) by {
        match nodes[i] {
            BVHNode::Leaf { .. } => {},
            BVHNode::Node { child_l_index, child_r_index, .. } => {
                assert(candidates(nodes + more, r, child_l_index as int) == candidates(
                    nodes,
                    r,
                    child_l_index as int,
                ));
                assert(candidates(nodes + more, r, child_r_index as int) == candidates(
                    nodes,
                    r,
                    child_r_index as int,
                ));
            },
        }
    }
}

/// A hierarchy has two nodes for each of its shapes but the last.
pub proof fn lemma_tree_len(
    policy: SplitPolicy,
    boxes: Seq<AABB>,
    indices: Seq<usize>,
    parent: usize,
    depth: u32,
    base: nat,
)
    requires
        indices.len() > 0,
        all_below(indices, boxes.len()),
    ensures
        tree(policy, boxes, indices, parent, depth, base).len() == 2 * indices.len() - 1,
    decreases indices.len(),
{
    if indices.len() > 1 {
        lemma_halves(policy, boxes, indices, boxes.len());
        let (l, r) = halves(policy, boxes, indices);
        let left = tree(policy, boxes, l, base as usize, (depth + 1) as u32, base + 1);
        lemma_tree_len(policy, boxes, l, base as usize, (depth + 1) as u32, base + 1);
        lemma_tree_len(policy, boxes, r, base as usize, (depth + 1) as u32, base + 1 + left.len());
    }
}

/// The layout of a hierarchy over two shapes or more: its root, then the
/// hierarchy of the left half, then that of the right half.
pub proof fn lemma_tree_unfolds(
    policy: SplitPolicy,
    before: Seq<BVHNode>,
    boxes: Seq<AABB>,
    indices: Seq<usize>,
    parent: usize,
    depth: u32,
)
    requires
        indices.len() >= 2,
        all_below(indices, boxes.len()),
    ensures
        ({
            let base = before.len();
            let (l, r) = halves(policy, boxes, indices);
            let left = tree(policy, boxes, l, base as usize, (depth + 1) as u32, base + 1);
            let right = tree(
                policy,
                boxes,
                r,
                base as usize,
                (depth + 1) as u32,
                base + 1 + left.len(),
            );
            let node = root_over(boxes, l, r, parent, depth, base, left.len());
            before + tree(policy, boxes, indices, parent, depth, base) == before.push(node) + left
                + right
        }),
{
    let base = before.len();
    lemma_halves(policy, boxes, indices, boxes.len());
    let (l, r) = halves(policy, boxes, indices);
    let left = tree(policy, boxes, l, base as usize, (depth + 1) as u32, base + 1);
    let right = tree(policy, boxes, r, base as usize, (depth + 1) as u32, base + 1 + left.len());
    let node = root_over(boxes, l, r, parent, depth, base, left.len());
    assert(tree(policy, boxes, indices, parent, depth, base) == seq![node] + left + right);
    assert(before + (seq![node] + left + right) =~= before.push(node) + left + right);
}

/// A node whose two children head well linked and fitted subtrees further
/// back, and whose boxes are the joins over the leaves of those subtrees,
/// heads such a subtree itself; its leaves are those of the left child, then
/// those of the right.
pub proof fn lemma_node_heads_subtree(nodes: Seq<BVHNode>, i: int, boxes: Seq<AABB>)
    requires
        0 <= i < nodes.len(),
        nodes[i] is Node,
        i < nodes[i]->child_l_index < nodes.len(),
        i < nodes[i]->child_r_index < nodes.len(),
        linked(nodes, nodes[i]->child_l_index as int, boxes.len()),
        linked(nodes, nodes[i]->child_r_index as int, boxes.len()),
        fitted(nodes, nodes[i]->child_l_index as int, boxes),
        fitted(nodes, nodes[i]->child_r_index as int, boxes),
        nodes[i]->child_l_aabb == joint(boxes, leaves(nodes, nodes[i]->child_l_index as int)),
        nodes[i]->child_r_aabb == joint(boxes, leaves(nodes, nodes[i]->child_r_index as int)),
    ensures
        linked(nodes, i, boxes.len()),
        fitted(nodes, i, boxes),
        leaves(nodes, i) == leaves(nodes, nodes[i]->child_l_index as int) + leaves(
            nodes,
            nodes[i]->child_r_index as int,
        ),
{
}

/// What holds of every hierarchy that the builder lays out behind the nodes
/// `before`: it has two nodes for each shape but the last, it is well
/// linked, its leaves hold the shapes of `indices`, each as often as
/// `indices` does, and the boxes of its inner nodes fit the leaves below
/// them.
pub proof fn lemma_tree(
    policy: SplitPolicy,
    before: Seq<BVHNode>,
    boxes: Seq<AABB>,
    indices: Seq<usize>,
    parent: usize,
    depth: u32,
)
    requires
        indices.len() > 0,
        all_below(indices, boxes.len()),
        before.len() + 2 * indices.len() - 1 <= usize::MAX,
    ensures
        tree(policy, boxes, indices, parent, depth, before.len()).len() == 2 * indices.len() - 1,
        linked(
            before + tree(policy, boxes, indices, parent, depth, before.len()),
            before.len() as int,
            boxes.len(),
        ),
        leaves(
            before + tree(policy, boxes, indices, parent, depth, before.len()),
            before.len() as int,
        ).to_multiset() == indices.to_multiset(),
        fitted(
            before + tree(policy, boxes, indices, parent, depth, before.len()),
            before.len() as int,
            boxes,
        ),
    decreases indices.len(),
{
    let base = before.len();
    let whole = before + tree(policy, boxes, indices, parent, depth, base);
    lemma_tree_len(policy, boxes, indices, parent, depth, base);
    if indices.len() == 1 {
        assert(whole[base as int] == BVHNode::Leaf {
            depth,
            parent_index: parent,
            shape_index: indices[0],
        });
        assert(leaves(whole, base as int) == seq![indices[0]]);
        assert(leaves(whole, base as int) == indices);
    } else {
        lemma_halves(policy, boxes, indices, boxes.len());
        let (l, r) = halves(policy, boxes, indices);
        let left = tree(policy, boxes, l, base as usize, (depth + 1) as u32, base + 1);
        let right = tree(
            policy,
            boxes,
            r,
            base as usize,
            (depth + 1) as u32,
            base + 1 + left.len(),
        );
        lemma_tree_len(policy, boxes, l, base as usize, (depth + 1) as u32, base + 1);
        lemma_tree_len(policy, boxes, r, base as usize, (depth + 1) as u32, base + 1 + left.len());
        let node = root_over(boxes, l, r, parent, depth, base, left.len());
        let with_node = before.push(node);
        let with_left = with_node + left;
        lemma_tree_unfolds(policy, before, boxes, indices, parent, depth);
        assert(whole == with_left + right);
        let l_at = (base + 1) as int;
        let r_at = (base + 1 + left.len()) as int;
        assert(with_node.len() == base + 1);
        assert(with_left.len() == base + 1 + left.len());

        lemma_tree(policy, with_node, boxes, l, base as usize, (depth + 1) as u32);
        lemma_stable(with_left, right, l_at, boxes.len(), boxes);
        lemma_tree(policy, with_left, boxes, r, base as usize, (depth + 1) as u32);

        let l_leaves = leaves(whole, l_at);
        let r_leaves = leaves(whole, r_at);
        assert(l_leaves.to_multiset() == l.to_multiset());
        assert(r_leaves.to_multiset() == r.to_multiset());
        lemma_joint_of_permutation(boxes, l_leaves, l);
        lemma_joint_of_permutation(boxes, r_leaves, r);

        assert(whole[base as int] == node);
        assert(node->child_l_index == l_at);
        assert(node->child_r_index == r_at);
        lemma_node_heads_subtree(whole, base as int, boxes);

        vstd::seq_lib::lemma_multiset_commutative(l_leaves, r_leaves);
        vstd::seq_lib::lemma_multiset_commutative(l, r);
    }
}

/// Nodes put behind an array leave the threading of a subtree as it is.
pub proof fn lemma_threaded_stays(
    nodes: Seq<BVHNode>,
    more: Seq<BVHNode>,
    i: int,
    parent: usize,
    depth: u32,
)
    requires
        threaded(nodes, i, parent, depth),
    ensures
        threaded(nodes + more, i, parent, depth),
    decreases nodes.len() - i,
{
    assert((nodes + more)[i] == nodes[i]);
    match nodes[i] {
        BVHNode::Leaf { .. } => {},
        BVHNode::Node { child_l_index, child_r_index, .. } => {
            lemma_threaded_stays(nodes, more, child_l_index as int, i as usize, (depth + 1) as u32);
            lemma_threaded_stays(nodes, more, child_r_index as int, i as usize, (depth + 1) as u32);
        },
    }
}

/// Every node that the builder lays out carries its depth below the root of
/// the subtree and the index of the node above it.
pub proof fn lemma_tree_threaded(
    policy: SplitPolicy,
    before: Seq<BVHNode>,
    boxes: Seq<AABB>,
    indices: Seq<usize>,
    parent: usize,
    depth: u32,
)
    requires
        indices.len() > 0,
        all_below(indices, boxes.len()),
        before.len() + 2 * indices.len() - 1 <= usize::MAX,
        depth + indices.len() <= u32::MAX + 1,
    ensures
        threaded(
            before + tree(policy, boxes, indices, parent, depth, before.len()),
            before.len() as int,
            parent,
            depth,
        ),
    decreases indices.len(),
{
    let base = before.len();
    let whole = before + tree(policy, boxes, indices, parent, depth, base);
    lemma_tree_len(policy, boxes, indices, parent, depth, base);
    if indices.len() == 1 {
        assert(whole[base as int] == BVHNode::Leaf {
            depth,
            parent_index: parent,
            shape_index: indices[0],
        });
    } else {
        lemma_halves(policy, boxes, indices, boxes.len());
        let (l, r) = halves(policy, boxes, indices);
        let left = tree(policy, boxes, l, base as usize, (depth + 1) as u32, base + 1);
        let right = tree(
            policy,
            boxes,
            r,
            base as usize,
            (depth + 1) as u32,
            base + 1 + left.len(),
        );
        lemma_tree_len(policy, boxes, l, base as usize, (depth + 1) as u32, base + 1);
        lemma_tree_len(policy, boxes, r, base as usize, (depth + 1) as u32, base + 1 + left.len());
        let node = root_over(boxes, l, r, parent, depth, base, left.len());
        let with_node = before.push(node);
        let with_left = with_node + left;
        lemma_tree_unfolds(policy, before, boxes, indices, parent, depth);
        assert(whole == with_left + right);
        assert(with_node.len() == base + 1);
        assert(with_left.len() == base + 1 + left.len());
        lemma_tree_threaded(policy, with_node, boxes, l, base as usize, (depth + 1) as u32);
        lemma_threaded_stays(
            with_left,
            right,
            (base + 1) as int,
            base as usize,
            (depth + 1) as u32,
        );
        lemma_tree_threaded(policy, with_left, boxes, r, base as usize, (depth + 1) as u32);
        assert(whole[base as int] == node);
    }
}

/// In the hierarchy built over all the shapes, the leaves hold every shape
/// exactly once, and the join of the boxes at the leaves is the join of the
/// boxes of all the shapes: no shape is left out and no box is cut short.
pub proof fn leaves_cover_the_scene(policy: SplitPolicy, boxes: Seq<AABB>)
    requires
        0 < boxes.len(),
        2 * boxes.len() - 1 <= usize::MAX,
    ensures
        leaves(tree(policy, boxes, all_shapes(boxes.len()), 0, 0, 0), 0).to_multiset() == all_shapes(
            boxes.len(),
        ).to_multiset(),
        joint(boxes, leaves(tree(policy, boxes, all_shapes(boxes.len()), 0, 0, 0), 0)) == joint_all(boxes),
{
    let indices = all_shapes(boxes.len());
    let nodes = tree(policy, boxes, indices, 0, 0, 0);
    assert(Seq::<BVHNode>::empty() + nodes == nodes);
    lemma_tree(policy, Seq::empty(), boxes, indices, 0, 0);
    lemma_joint_of_permutation(boxes, leaves(nodes, 0), indices);
    lemma_joint_in_order(boxes, boxes.len());
    assert(boxes.take(boxes.len() as int) == boxes);
}

/// Every candidate of a walk is a shape at a leaf of the subtree.
pub proof fn candidates_are_leaves(nodes: Seq<BVHNode>, r: Ray, i: int, shapes: nat, k: int)
    requires
        linked(nodes, i, shapes),
        0 <= k < candidates(nodes, r, i).len(),
    ensures
        leaves(nodes, i).contains(candidates(nodes, r, i)[k]),
    decreases nodes.len() - i,
{
    match nodes[i] {
        BVHNode::Leaf { shape_index, .. } => {
            assert(leaves(nodes, i)[0] == shape_index);
        },
        BVHNode::Node { child_l_index, child_l_aabb, child_r_index, child_r_aabb, .. } => {
            let left = if child_l_aabb.crossed(r) {
                candidates(nodes, r, child_l_index as int)
            } else {
                Seq::empty()
            };
            let right = if child_r_aabb.crossed(r) {
                candidates(nodes, r, child_r_index as int)
            } else {
                Seq::empty()
            };
            let l_leaves = leaves(nodes, child_l_index as int);
            let r_leaves = leaves(nodes, child_r_index as int);
            if k < left.len() {
                candidates_are_leaves(nodes, r, child_l_index as int, shapes, k);
                let j = choose|j: int| 0 <= j < l_leaves.len() && l_leaves[j] == left[k];
                assert((l_leaves + r_leaves)[j] == left[k]);
            } else {
                candidates_are_leaves(nodes, r, child_r_index as int, shapes, k - left.len());
                let j = choose|j: int|
                    0 <= j < r_leaves.len() && r_leaves[j] == right[k - left.len()];
                assert((l_leaves + r_leaves)[l_leaves.len() + j] == right[k - left.len()]);
            }
        },
    }
}

/// A walk leaves out no shape that the ray could hit: in a subtree whose
/// boxes fit its leaves, every leaf shape whose box the line of the ray
/// passes through is among the candidates.
pub proof fn crossed_leaves_are_candidates(
    nodes: Seq<BVHNode>,
    boxes: Seq<AABB>,
    r: Ray,
    i: int,
    shapes: nat,
    k: int,
)
    requires
        linked(nodes, i, shapes),
        fitted(nodes, i, boxes),
        0 <= k < leaves(nodes, i).len(),
        boxes[leaves(nodes, i)[k] as int].crossed(r),
    ensures
        candidates(nodes, r, i).contains(leaves(nodes, i)[k]),
    decreases nodes.len() - i,
{
    match nodes[i] {
        BVHNode::Leaf { shape_index, .. } => {
            assert(candidates(nodes, r, i)[0] == shape_index);
        },
        BVHNode::Node { child_l_index, child_l_aabb, child_r_index, child_r_aabb, .. } => {
            let left = if child_l_aabb.crossed(r) {
                candidates(nodes, r, child_l_index as int)
            } else {
                Seq::empty()
            };
            let right = if child_r_aabb.crossed(r) {
                candidates(nodes, r, child_r_index as int)
            } else {
                Seq::empty()
            };
            let l_leaves = leaves(nodes, child_l_index as int);
            let r_leaves = leaves(nodes, child_r_index as int);
            let shape = leaves(nodes, i)[k];
            if k < l_leaves.len() {
                assert(shape == l_leaves[k]);
                lemma_joint_encloses_each(boxes, l_leaves, k);
                line_crossing_widens(boxes[shape as int], child_l_aabb, r);
                crossed_leaves_are_candidates(nodes, boxes, r, child_l_index as int, shapes, k);
                let j = choose|j: int| 0 <= j < left.len() && left[j] == shape;
                assert((left + right)[j] == shape);
            } else {
                let kr = k - l_leaves.len();
                assert(shape == r_leaves[kr]);
                lemma_joint_encloses_each(boxes, r_leaves, kr);
                line_crossing_widens(boxes[shape as int], child_r_aabb, r);
                crossed_leaves_are_candidates(nodes, boxes, r, child_r_index as int, shapes, kr);
                let j = choose|j: int| 0 <= j < right.len() && right[j] == shape;
                assert((left + right)[left.len() + j] == shape);
            }
        },
    }
}

/// A shape that the ray hits is among the candidates of the walk from the
/// root, where the hierarchy holds every shape, its boxes fit and the
/// shape obeys the laws of a surface for that ray.
pub proof fn hit_shapes_are_candidates<H: Hittable>(
    nodes: Seq<BVHNode>,
    shapes: Seq<H>,
    r: Ray,
    t_min: i64,
    t_max: i64,
    j: int,
)
    requires
        shapes.len() <= usize::MAX,
        linked(nodes, 0, shapes.len()),
        fitted(nodes, 0, boxes_of(shapes)),
        leaves(nodes, 0).to_multiset() == all_shapes(shapes.len()).to_multiset(),
        0 <= j < shapes.len(),
        obeys_hit_laws_at(shapes[j], r, t_min),
        shapes[j].struck(r, t_min, t_max) is Some,
    ensures
        candidates(nodes, r, 0).contains(j as usize),
{
    broadcast use vstd::seq_lib::to_multiset_contains;

    let boxes = boxes_of(shapes);
    crossing_widens(boxes[j], boxes[j], r, t_min, t_max, t_min, t_max);
    assert(all_shapes(shapes.len())[j] == j as usize);
    assert(all_shapes(shapes.len()).contains(j as usize));
    assert(leaves(nodes, 0).to_multiset().count(j as usize) > 0);
    assert(leaves(nodes, 0).contains(j as usize));
    let k = choose|k: int| 0 <= k < leaves(nodes, 0).len() && leaves(nodes, 0)[k] == j as usize;
    crossed_leaves_are_candidates(nodes, boxes, r, 0, shapes.len(), k);
}

/// Pruning changes no result: for a ray for which the shapes obey the laws
/// of a surface, a nearest hit among the candidates of the walk is a nearest
/// hit among all the shapes.
pub proof fn pruning_keeps_the_nearest<H: Hittable>(
    nodes: Seq<BVHNode>,
    shapes: Seq<H>,
    r: Ray,
    t_min: i64,
    t_max: i64,
)
    requires
        shapes.len() <= usize::MAX,
        linked(nodes, 0, shapes.len()),
        fitted(nodes, 0, boxes_of(shapes)),
        leaves(nodes, 0).to_multiset() == all_shapes(shapes.len()).to_multiset(),
        all_obey_at(shapes, r, t_min),
    ensures
        is_nearest(
            r,
            shapes,
            t_min,
            t_max,
            nearest(r, picked(shapes, candidates(nodes, r, 0)), t_min, t_max),
        ),
{
    let picks = candidates(nodes, r, 0);
    let chosen = picked(shapes, picks);
    lemma_candidates_in_range(nodes, r, 0, shapes.len());
    assert forall|k: int| 0 <= k < chosen.len() implies obeys_hit_laws_at(#[trigger] chosen[k], r, t_min) by {
        assert(chosen[k] == shapes[picks[k] as int]);
    }
    scan_keeps_the_nearest(r, chosen, t_min, t_max);
    let found = nearest(r, chosen, t_min, t_max);
    assert forall|j: int|
        0 <= j < shapes.len() && (#[trigger] shapes[j]).struck(r, t_min, t_max) is Some implies exists|
        m: int,
    |
        0 <= m < chosen.len() && chosen[m] == shapes[j] by {
        hit_shapes_are_candidates(nodes, shapes, r, t_min, t_max, j);
        let m = choose|m: int| 0 <= m < picks.len() && picks[m] == j as usize;
        assert(chosen[m] == shapes[j]);
    }
    match found {
        None => {
            assert forall|j: int| 0 <= j < shapes.len() implies (#[trigger] shapes[j]).struck(
                r,
                t_min,
                t_max,
            ) is None by {
                if shapes[j].struck(r, t_min, t_max) is Some {
                    let m = choose|m: int| 0 <= m < chosen.len() && chosen[m] == shapes[j];
                    assert(chosen[m].struck(r, t_min, t_max) is None);
                }
            }
        },
        Some(h) => {
            let k = choose|k: int|
                0 <= k < chosen.len() && (#[trigger] chosen[k]).struck(r, t_min, t_max) == Some(h);
            assert(chosen[k] == shapes[picks[k] as int]);
            assert(shapes[picks[k] as int].struck(r, t_min, t_max) == Some(h));
            assert forall|j: int| 0 <= j < shapes.len() implies ((#[trigger] shapes[j]).struck(
                r,
                t_min,
                t_max,
            ) matches Some(g) ==> h.t <= g.t) by {
                if shapes[j].struck(r, t_min, t_max) is Some {
                    let m = choose|m: int| 0 <= m < chosen.len() && chosen[m] == shapes[j];
                    assert(chosen[m].struck(r, t_min, t_max) is Some);
                }
            }
        },
    }
}

/// The nearest hit found through the hierarchy lies where the nearest hit of
/// a scan over all the shapes lies, for every ray for which the shapes obey
/// the laws of a surface: both find nothing, or both find a hit at the same
/// parameter.
pub proof fn hierarchy_agrees_with_scan<H: Hittable>(
    nodes: Seq<BVHNode>,
    shapes: Seq<H>,
    r: Ray,
    t_min: i64,
    t_max: i64,
)
    requires
        shapes.len() <= usize::MAX,
        linked(nodes, 0, shapes.len()),
        fitted(nodes, 0, boxes_of(shapes)),
        leaves(nodes, 0).to_multiset() == all_shapes(shapes.len()).to_multiset(),
        all_obey_at(shapes, r, t_min),
    ensures
        nearest(r, picked(shapes, candidates(nodes, r, 0)), t_min, t_max) is Some <==> nearest(
            r,
            shapes,
            t_min,
            t_max,
        ) is Some,
        nearest(r, shapes, t_min, t_max) matches Some(h) ==> nearest(
            r,
            picked(shapes, candidates(nodes, r, 0)),
            t_min,
            t_max,
        )->0.t == h.t,
{
    pruning_keeps_the_nearest(nodes, shapes, r, t_min, t_max);
    scan_keeps_the_nearest(r, shapes, t_min, t_max);
    nearest_hits_agree(
        r,
        shapes,
        t_min,
        t_max,
        nearest(r, picked(shapes, candidates(nodes, r, 0)), t_min, t_max),
        nearest(r, shapes, t_min, t_max),
    );
}

} // verus!
