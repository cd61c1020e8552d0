//! A hierarchy in a flat array of nodes, split at the median along the widest
//! axis.

use vstd::prelude::*;

use crate::aabb::AABB;
use crate::axis::Axis;
use crate::bvh::layout::{
    all_below, all_shapes, candidates, fitted, halves, leaves, lemma_candidates_in_range,
    leaves_cover_the_scene, lemma_tree, lemma_tree_len, lemma_tree_threaded, linked, outline_of,
    picked, threaded, tree, Line, SplitPolicy,
};
use crate::bvh::sah;
use crate::bvh::{index_key, key_of, median_order, median_split};
use crate::hittable::{boxes_of, Hittable};
use crate::ray::{referents, Ray};
use crate::sorting::{lemma_settled_at, lemma_sorted_by_key, lemma_sorted_single, sorted_by_key};
use crate::util::{joint, joint_aabb, joint_all};

verus! {

/// A node of the hierarchy: a leaf with one shape, or an inner node with two
/// children and the boxes around each of them. Children are named by their
/// index in the array of nodes.
#[derive(Clone, Copy, Debug, PartialEq, Eq, Structural)]
pub enum BVHNode {
    Leaf { depth: u32, parent_index: usize, shape_index: usize },
    Node {
        depth: u32,
        parent_index: usize,
        child_l_index: usize,
        child_l_aabb: AABB,
        child_r_index: usize,
        child_r_aabb: AABB,
    },
}

impl BVHNode {
    /// The node as a node of the layout that both flat hierarchies share.
    pub open spec fn plain(self) -> sah::BVHNode {
        match self {
            BVHNode::Leaf { depth, parent_index, shape_index } => sah::BVHNode::Leaf {
                depth,
                parent_index,
                shape_index,
            },
            BVHNode::Node {
                depth,
                parent_index,
                child_l_index,
                child_l_aabb,
                child_r_index,
                child_r_aabb,
            } => sah::BVHNode::Node {
                depth,
                parent_index,
                child_l_index,
                child_l_aabb,
                child_r_index,
                child_r_aabb,
            },
        }
    }
}

/// The array of nodes in the shared layout.
pub open spec fn flat(nodes: Seq<BVHNode>) -> Seq<sah::BVHNode> {
    Seq::new(nodes.len(), |i: int| nodes[i].plain())
}

/// The order in which building leaves the indices of a node: sorted and
/// halved, each half in the order that building its subtree leaves.
pub open spec fn arranged(boxes: Seq<AABB>, indices: Seq<usize>) -> Seq<usize>
    decreases indices.len(),
{
    if indices.len() <= 1 {
        indices
    } else {
        let (l, r) = median_split(boxes, indices);
        proof {
            lemma_sorted_by_key(indices, index_key(boxes, joint(boxes, indices).widest()));
        }
        arranged(boxes, l) + arranged(boxes, r)
    }
}

/// The order in which [`BVHNode::build_sah`] leaves the indices of a node:
/// divided by the heuristic, each half in the order that building its
/// subtree leaves.
pub open spec fn sah_order(boxes: Seq<AABB>, indices: Seq<usize>) -> Seq<usize>
    decreases indices.len(),
{
    if indices.len() <= 1 {
        indices
    } else {
        let (l, r) = sah::split(boxes, indices);
        if 0 < l.len() < indices.len() && 0 < r.len() < indices.len() {
            sah_order(boxes, l) + sah_order(boxes, r)
        } else {
            indices
        }
    }
}

/// Sorts `indices` by the keys of their shapes along `axis`, keeping the
/// order of indices with equal keys.
fn sort_indices<H: Hittable>(shapes: &Vec<H>, indices: &mut [usize], axis: Axis)
    requires
        all_below(old(indices)@, shapes@.len()),
    ensures
        final(indices)@ == sorted_by_key(old(indices)@, index_key(boxes_of(shapes@), axis)),
{
    let ghost start = indices@;
    let ghost key = index_key(boxes_of(shapes@), axis);
    let len = indices.len();
    let mut i: usize = 0;
    assert(start.take(0) == Seq::<usize>::empty());
    assert(Seq::<usize>::empty() + start.skip(0) == start);
    while i < len
        invariant
            i <= len,
            len == start.len(),
            indices@.len() == len,
            key == index_key(boxes_of(shapes@), axis),
            all_below(start, shapes@.len()),
            indices@ == sorted_by_key(start.take(i as int), key) + start.skip(i as int),
            sorted_by_key(start.take(i as int), key).len() == i,
            all_below(sorted_by_key(start.take(i as int), key), shapes@.len()),
        decreases len - i,
    {
        let ghost done = sorted_by_key(start.take(i as int), key);
        let x = indices[i];
        assert(x == start[i as int]);
        let x_key = key_of(&shapes[x], axis);
        let mut p: usize = i;
        proof {
            if i > 0 {
                assert(indices@[i - 1] == done[i - 1]);
            }
        }
        while p > 0 && key_of(&shapes[indices[p - 1]], axis) > x_key
            invariant
                p <= i < len,
                len == start.len(),
                indices@.len() == len,
                done.len() == i,
                key == index_key(boxes_of(shapes@), axis),
                x < shapes@.len(),
                x_key == key(x),
                all_below(done, shapes@.len()),
                p > 0 ==> indices@[p - 1] < shapes@.len(),
                forall|k: int| 0 <= k < p ==> indices@[k] == done[k],
                forall|k: int| p < k <= i ==> indices@[k] == done[k - 1],
                forall|k: int| i < k < len ==> indices@[k] == start[k],
                forall|k: int| p <= k < i ==> key(#[trigger] done[k]) > x_key,
            decreases p,
        {
            let moved = indices[p - 1];
            assert(moved == done[p - 1]);
            indices[p] = moved;
            p -= 1;
            proof {
                if p > 0 {
                    assert(indices@[p - 1] == done[p - 1]);
                }
            }
        }
        indices[p] = x;
        proof {
            lemma_settled_at(done, x, key, p as int);
            assert(start.take(i + 1).drop_last() == start.take(i as int));
            assert(start.take(i + 1).last() == x);
            lemma_sorted_by_key(start.take(i + 1), key);
            let next = sorted_by_key(start.take(i + 1), key);
            assert(next == done.insert(p as int, x));
            assert(indices@ =~= next + start.skip(i + 1));
            assert forall|k: int| 0 <= k < next.len() implies (#[trigger] next[k]) < shapes@.len() by {
                if k < p {
                    assert(next[k] == done[k]);
                } else if k > p {
                    assert(next[k] == done[k - 1]);
                }
            }
        }
        i += 1;
    }
    proof {
        assert(start.take(len as int) == start);
        assert(start.skip(len as int) == Seq::<usize>::empty());
        assert(sorted_by_key(start, key) + Seq::<usize>::empty() == sorted_by_key(start, key));
    }
}

impl BVHNode {
    /// Builds the hierarchy over the shapes that `indices` names at the end
    /// of `nodes`, and returns the index of its root. The indices are left
    /// in the order of the leaves.
    pub fn build<H: Hittable>(
        shapes: &Vec<H>,
        indices: &mut [usize],
        nodes: &mut Vec<BVHNode>,
        parent_index: usize,
        depth: u32,
    ) -> (node_index: usize)
        requires
            old(indices)@.len() > 0,
            all_below(old(indices)@, shapes@.len()),
            depth + old(indices)@.len() <= u32::MAX + 1,
        ensures
            node_index == old(nodes)@.len(),
            flat(final(nodes)@) == flat(old(nodes)@) + tree(
                SplitPolicy::Median,
                boxes_of(shapes@),
                old(indices)@,
                parent_index,
                depth,
                old(nodes)@.len(),
            ),
            final(indices)@ == arranged(boxes_of(shapes@), old(indices)@),
        decreases old(indices)@.len(),
    {
        let ghost boxes = boxes_of(shapes@);
        let ghost given = indices@;
        let ghost base = nodes@.len();
        let axis = joint_aabb(indices, shapes.as_slice()).largest_axis();
        let len = indices.len();

        sort_indices(shapes, indices, axis);
        proof {
            lemma_sorted_by_key(given, index_key(boxes, axis));
            assert(indices@ == median_order(boxes, given));
        }

        if len == 1 {
            proof {
                lemma_sorted_single(given, index_key(boxes, axis));
            }
            let shape_index = indices[0];
            let node_index = nodes.len();
            let leaf = BVHNode::Leaf { depth, shape_index, parent_index };
            nodes.push(leaf);
            proof {
                assert(flat(nodes@) =~= flat(old(nodes)@) + seq![leaf.plain()]);
            }
            return node_index;
        }
        let node_index = nodes.len();
        let placeholder = BVHNode::Leaf { depth, parent_index: 0, shape_index: 0 };
        nodes.push(placeholder);

        let ghost sorted = indices@;
        proof {
            crate::bvh::lemma_median_split(boxes, given, shapes@.len());
        }
        let (left_indices, right_indices) = indices.split_at_mut(len / 2);
        let ghost l = left_indices@;
        let ghost r = right_indices@;
        assert((l, r) == median_split(boxes, given));
        let child_l_aabb = joint_aabb(left_indices, shapes.as_slice());
        let child_r_aabb = joint_aabb(right_indices, shapes.as_slice());

        let ghost with_placeholder = nodes@;
        let left = BVHNode::build(shapes, left_indices, nodes, node_index, depth + 1);
        let ghost with_left = nodes@;
        assert(flat(with_left).len() == with_left.len());
        let right = BVHNode::build(shapes, right_indices, nodes, node_index, depth + 1);
        let ghost with_right = nodes@;
        assert(flat(with_right).len() == with_right.len());

        let node = BVHNode::Node {
            depth,
            parent_index,
            child_l_index: left,
            child_l_aabb,
            child_r_index: right,
            child_r_aabb,
        };
        nodes.set(node_index, node);
        proof {
            let policy = SplitPolicy::Median;
            let left_nodes = tree(policy, boxes, l, node_index, (depth + 1) as u32, base + 1);
            let right_nodes = tree(
                policy,
                boxes,
                r,
                node_index,
                (depth + 1) as u32,
                base + 1 + left_nodes.len(),
            );
            assert(halves(policy, boxes, given) == (l, r));
            assert(tree(policy, boxes, given, parent_index, depth, base) == seq![node.plain()]
                + left_nodes + right_nodes);
            assert(flat(with_placeholder) =~= flat(old(nodes)@) + seq![placeholder.plain()]);
            assert(flat(with_left) == flat(with_placeholder) + left_nodes);
            assert(flat(with_right) == flat(with_left) + right_nodes);
            let laid = flat(old(nodes)@) + (seq![node.plain()] + left_nodes + right_nodes);
            assert(flat(nodes@).len() == laid.len());
            assert forall|k: int| 0 <= k < laid.len() implies flat(nodes@)[k] == laid[k] by {
                if k != base {
                    assert(nodes@[k] == with_right[k]);
                    assert(flat(with_right)[k] == laid[k]);
                }
            }
            assert(flat(nodes@) =~= laid);
        }
        node_index
    }

    /// Builds the hierarchy over the shapes that `indices` names at the end
    /// of `nodes`, split by the surface area heuristic over buckets of
    /// centres, and returns the index of its root. The indices are left in
    /// the order of the leaves. The exposure from `_time0` to `_time1` does
    /// not enter.
    pub fn build_sah<H: Hittable>(
        shapes: &Vec<H>,
        indices: &mut [usize],
        nodes: &mut Vec<BVHNode>,
        parent_index: usize,
        depth: u32,
        _time0: i32,
        _time1: i32,
    ) -> (node_index: usize)
        requires
            old(indices)@.len() > 0,
            all_below(old(indices)@, shapes@.len()),
            depth + old(indices)@.len() <= u32::MAX + 1,
        ensures
            node_index == old(nodes)@.len(),
            flat(final(nodes)@) == flat(old(nodes)@) + tree(
                SplitPolicy::Sah,
                boxes_of(shapes@),
                old(indices)@,
                parent_index,
                depth,
                old(nodes)@.len(),
            ),
            final(indices)@ == sah_order(boxes_of(shapes@), old(indices)@),
        decreases old(indices)@.len(),
    {
        let ghost boxes = boxes_of(shapes@);
        let ghost given = indices@;
        let ghost base = nodes@.len();
        let len = indices.len();

        if len == 1 {
            let shape_index = indices[0];
            let node_index = nodes.len();
            let leaf = BVHNode::Leaf { depth, shape_index, parent_index };
            nodes.push(leaf);
            proof {
                assert(flat(nodes@) =~= flat(old(nodes)@) + seq![leaf.plain()]);
            }
            return node_index;
        }
        let node_index = nodes.len();
        let placeholder = BVHNode::Leaf { depth, parent_index: 0, shape_index: 0 };
        nodes.push(placeholder);

        let (l_indices, child_l_aabb, r_indices, child_r_aabb) = sah::divide(shapes, indices);
        let ghost l = l_indices@;
        let ghost r = r_indices@;
        proof {
            sah::lemma_split(boxes, given, shapes@.len());
            assert(halves(SplitPolicy::Sah, boxes, given) == (l, r));
        }
        // The two halves go back into the list, the left half first.
        let mut k: usize = 0;
        while k < l_indices.len()
            invariant
                k <= l.len(),
                l == l_indices@,
                indices@.len() == len,
                l.len() + r.len() == len,
                forall|j: int| 0 <= j < k ==> indices@[j] == l[j],
            decreases l.len() - k,
        {
            indices[k] = l_indices[k];
            k += 1;
        }
        let mut k: usize = 0;
        while k < r_indices.len()
            invariant
                k <= r.len(),
                l == l_indices@,
                r == r_indices@,
                indices@.len() == len,
                l.len() + r.len() == len,
                forall|j: int| 0 <= j < l.len() ==> indices@[j] == l[j],
                forall|j: int| 0 <= j < k ==> indices@[l.len() + j] == r[j],
            decreases r.len() - k,
        {
            indices[l_indices.len() + k] = r_indices[k];
            k += 1;
        }
        assert(indices@ =~= l + r);

        let (left_indices, right_indices) = indices.split_at_mut(l_indices.len());
        assert(left_indices@ =~= l);
        assert(right_indices@ =~= r);

        let ghost with_placeholder = nodes@;
        let left = BVHNode::build_sah(
            shapes,
            left_indices,
            nodes,
            node_index,
            depth + 1,
            _time0,
            _time1,
        );
        let ghost with_left = nodes@;
        assert(flat(with_left).len() == with_left.len());
        let right = BVHNode::build_sah(
            shapes,
            right_indices,
            nodes,
            node_index,
            depth + 1,
            _time0,
            _time1,
        );
        let ghost with_right = nodes@;
        assert(flat(with_right).len() == with_right.len());

        let node = BVHNode::Node {
            depth,
            parent_index,
            child_l_index: left,
            child_l_aabb,
            child_r_index: right,
            child_r_aabb,
        };
        nodes.set(node_index, node);
        proof {
            let policy = SplitPolicy::Sah;
            let left_nodes = tree(policy, boxes, l, node_index, (depth + 1) as u32, base + 1);
            let right_nodes = tree(
                policy,
                boxes,
                r,
                node_index,
                (depth + 1) as u32,
                base + 1 + left_nodes.len(),
            );
            assert(tree(policy, boxes, given, parent_index, depth, base) == seq![node.plain()]
                + left_nodes + right_nodes);
            assert(flat(with_placeholder) =~= flat(old(nodes)@) + seq![placeholder.plain()]);
            assert(flat(with_left) == flat(with_placeholder) + left_nodes);
            assert(flat(with_right) == flat(with_left) + right_nodes);
            let laid = flat(old(nodes)@) + (seq![node.plain()] + left_nodes + right_nodes);
            assert(flat(nodes@).len() == laid.len());
            assert forall|k: int| 0 <= k < laid.len() implies flat(nodes@)[k] == laid[k] by {
                if k != base {
                    assert(nodes@[k] == with_right[k]);
                    assert(flat(with_right)[k] == laid[k]);
                }
            }
            assert(flat(nodes@) =~= laid);
        }
        node_index
    }

    /// Whether the subtree at `node_index` is well linked over `shapes` many
    /// shapes.
    pub fn linked_from(nodes: &[BVHNode], node_index: usize, shapes: usize) -> (ok: bool)
        ensures
            ok == linked(flat(nodes@), node_index as int, shapes as nat),
        decreases nodes@.len() - node_index,
    {
        if node_index >= nodes.len() {
            return false;
        }
        assert(flat(nodes@)[node_index as int] == nodes@[node_index as int].plain());
        match nodes[node_index] {
            BVHNode::Leaf { shape_index, .. } => shape_index < shapes,
            BVHNode::Node { child_l_index, child_r_index, .. } => {
                node_index < child_l_index && child_l_index < nodes.len() && node_index
                    < child_r_index && child_r_index < nodes.len() && BVHNode::linked_from(
                    nodes,
                    child_l_index,
                    shapes,
                ) && BVHNode::linked_from(nodes, child_r_index, shapes)
            },
        }
    }

    /// Appends to `lines` the outline of the subtree at `node_index`.
    pub fn outline(nodes: &[BVHNode], node_index: usize, lines: &mut Vec<Line>)
        requires
            exists|shapes: nat| linked(flat(nodes@), node_index as int, shapes),
        ensures
            final(lines)@ == old(lines)@ + outline_of(flat(nodes@), node_index as int),
        decreases nodes@.len() - node_index,
    {
        let ghost shapes = choose|shapes: nat| linked(flat(nodes@), node_index as int, shapes);
        assert(flat(nodes@)[node_index as int] == nodes@[node_index as int].plain());
        match nodes[node_index] {
            BVHNode::Node { child_l_index, child_r_index, depth, child_l_aabb, child_r_aabb, .. } => {
                assert(linked(flat(nodes@), child_l_index as int, shapes));
                assert(linked(flat(nodes@), child_r_index as int, shapes));
                lines.push(Line::Left { depth, aabb: child_l_aabb });
                BVHNode::outline(nodes, child_l_index, lines);
                lines.push(Line::Right { depth, aabb: child_r_aabb });
                BVHNode::outline(nodes, child_r_index, lines);
                assert(lines@ == old(lines)@ + (seq![Line::Left { depth, aabb: child_l_aabb }]
                    + outline_of(flat(nodes@), child_l_index as int) + seq![
                    Line::Right { depth, aabb: child_r_aabb },
                ] + outline_of(flat(nodes@), child_r_index as int)));
            },
            BVHNode::Leaf { shape_index, depth, .. } => {
                lines.push(Line::Shape { depth, shape_index });
                assert(lines@ == old(lines)@ + seq![Line::Shape { depth, shape_index }]);
            },
        }
    }

    /// Appends to `indices` the shapes that a walk from the node at
    /// `node_index` reaches for the ray `r`.
    pub fn traverse(r: &Ray, nodes: &[BVHNode], node_index: usize, indices: &mut Vec<usize>)
        requires
            exists|shapes: nat| linked(flat(nodes@), node_index as int, shapes),
        ensures
            final(indices)@ == old(indices)@ + candidates(flat(nodes@), *r, node_index as int),
        decreases nodes@.len() - node_index,
    {
        let ghost shapes = choose|shapes: nat| linked(flat(nodes@), node_index as int, shapes);
        assert(flat(nodes@)[node_index as int] == nodes@[node_index as int].plain());
        match nodes[node_index] {
            BVHNode::Node { child_l_index, child_l_aabb, child_r_index, child_r_aabb, .. } => {
                assert(linked(flat(nodes@), child_l_index as int, shapes));
                assert(linked(flat(nodes@), child_r_index as int, shapes));
                if r.aabb_intersect(child_l_aabb) {
                    BVHNode::traverse(r, nodes, child_l_index, indices);
                }
                if r.aabb_intersect(child_r_aabb) {
                    BVHNode::traverse(r, nodes, child_r_index, indices);
                }
                proof {
                    let left = if child_l_aabb.crossed(*r) {
                        candidates(flat(nodes@), *r, child_l_index as int)
                    } else {
                        Seq::empty()
                    };
                    let right = if child_r_aabb.crossed(*r) {
                        candidates(flat(nodes@), *r, child_r_index as int)
                    } else {
                        Seq::empty()
                    };
                    assert(indices@ == old(indices)@ + (left + right));
                }
            },
            BVHNode::Leaf { shape_index, .. } => {
                indices.push(shape_index);
                assert(indices@ == old(indices)@ + seq![shape_index]);
            },
        }
    }
}

/// A hierarchy over the shapes of a scene: its nodes in one array, the root
/// first.
#[derive(Debug)]
pub struct BVH {
    pub nodes: Vec<BVHNode>,
}

impl BVH {
    /// Whether the hierarchy is well linked from its root, over `shapes`
    /// many shapes.
    pub open spec fn wf(&self, shapes: nat) -> bool {
        linked(flat(self.nodes@), 0, shapes)
    }

    /// Builds the hierarchy over all of `shapes`.
    pub fn build<H: Hittable>(shapes: &mut Vec<H>) -> (bvh: BVH)
        requires
            0 < old(shapes)@.len() <= u32::MAX + 1,
        ensures
            final(shapes)@ == old(shapes)@,
            flat(bvh.nodes@) == tree(
                SplitPolicy::Median,
                boxes_of(old(shapes)@),
                all_shapes(old(shapes)@.len()),
                0,
                0,
                0,
            ),
            bvh.nodes@.len() == 2 * old(shapes)@.len() - 1,
            bvh.wf(old(shapes)@.len()),
            threaded(flat(bvh.nodes@), 0, 0, 0),
            fitted(flat(bvh.nodes@), 0, boxes_of(old(shapes)@)),
            leaves(flat(bvh.nodes@), 0).to_multiset() == all_shapes(
                old(shapes)@.len(),
            ).to_multiset(),
            joint(boxes_of(old(shapes)@), leaves(flat(bvh.nodes@), 0)) == joint_all(
                boxes_of(old(shapes)@),
            ),
    {
        let mut indices: Vec<usize> = Vec::new();
        let mut i: usize = 0;
        while i < shapes.len()
            invariant
                shapes@ == old(shapes)@,
                i <= shapes@.len(),
                indices@ == all_shapes(i as nat),
            decreases shapes@.len() - i,
        {
            indices.push(i);
            assert(indices@ == all_shapes((i + 1) as nat));
            i += 1;
        }
        let mut nodes: Vec<BVHNode> = Vec::new();
        let ghost given = indices@;
        BVHNode::build(shapes, indices.as_mut_slice(), &mut nodes, 0, 0);
        proof {
            let policy = SplitPolicy::Median;
            let laid = tree(policy, boxes_of(shapes@), given, 0, 0, 0);
            assert(flat(Seq::<BVHNode>::empty()) + laid =~= laid);
            assert(flat(nodes@) == laid);
            assert(flat(nodes@).len() == nodes@.len());
            assert(nodes@.len() == nodes.len());
            lemma_tree_len(policy, boxes_of(shapes@), given, 0, 0, 0);
            lemma_tree(policy, Seq::empty(), boxes_of(shapes@), given, 0, 0);
            lemma_tree_threaded(policy, Seq::empty(), boxes_of(shapes@), given, 0, 0);
            leaves_cover_the_scene(policy, boxes_of(shapes@));
            assert(Seq::<sah::BVHNode>::empty() + laid == laid);
        }
        BVH { nodes }
    }

    /// Whether the hierarchy is well linked from its root, over `shapes`
    /// many shapes, as walking it requires.
    pub fn is_linked(&self, shapes: usize) -> (ok: bool)
        ensures
            ok == self.wf(shapes as nat),
    {
        BVHNode::linked_from(self.nodes.as_slice(), 0, shapes)
    }

    /// The outline of the hierarchy from its root, line by line.
    pub fn outline(&self) -> (lines: Vec<Line>)
        requires
            exists|shapes: nat| self.wf(shapes),
        ensures
            lines@ == outline_of(flat(self.nodes@), 0),
    {
        let mut lines: Vec<Line> = Vec::new();
        BVHNode::outline(self.nodes.as_slice(), 0, &mut lines);
        lines
    }

    /// The shapes that `r` may hit, in the order of the walk: those at the
    /// leaves that the walk of [`candidates`] reaches from the root.
    pub fn traverse<'a, H: Hittable>(&'a self, r: &Ray, shapes: &'a Vec<H>) -> (found: Vec<&'a H>)
        requires
            self.wf(shapes@.len()),
        ensures
            referents(found@) == picked(shapes@, candidates(flat(self.nodes@), *r, 0)),
    {
        let mut indices: Vec<usize> = Vec::new();
        BVHNode::traverse(r, self.nodes.as_slice(), 0, &mut indices);
        proof {
            lemma_candidates_in_range(flat(self.nodes@), *r, 0, shapes@.len());
            assert(indices@ == candidates(flat(self.nodes@), *r, 0));
        }
        let mut found: Vec<&'a H> = Vec::new();
        let mut k: usize = 0;
        while k < indices.len()
            invariant
                k <= indices@.len(),
                found@.len() == k,
                all_below(indices@, shapes@.len()),
                forall|j: int| 0 <= j < k ==> *(#[trigger] found@[j]) == shapes@[indices@[j] as int],
            decreases indices@.len() - k,
        {
            found.push(&shapes[indices[k]]);
            k += 1;
        }
        proof {
            assert(referents(found@) =~= picked(shapes@, indices@));
        }
        found
    }
}

} // verus!
