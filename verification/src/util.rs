//! Joins over index lists and concatenation of vectors.

use vstd::prelude::*;

use crate::aabb::AABB;
use crate::hittable::{boxes_of, Hittable};

verus! {

/// The join of the boxes that `indices` picks out of `boxes`, taken from the
/// left; the empty box for no indices.
pub open spec fn joint(boxes: Seq<AABB>, indices: Seq<usize>) -> AABB
    decreases indices.len(),
{
    if indices.len() == 0 {
        AABB::nothing()
    } else {
        joint(boxes, indices.drop_last()).union(boxes[indices.last() as int])
    }
}

/// The join of all of `boxes`, taken from the left.
pub open spec fn joint_all(boxes: Seq<AABB>) -> AABB
    decreases boxes.len(),
{
    if boxes.len() == 0 {
        AABB::nothing()
    } else {
        joint_all(boxes.drop_last()).union(boxes.last())
    }
}

/// The elements of the vectors of `parts`, one vector after the other.
pub open spec fn concatenation<T>(parts: Seq<Vec<T>>) -> Seq<T>
    decreases parts.len(),
{
    if parts.len() == 0 {
        Seq::empty()
    } else {
        concatenation(parts.drop_last()) + parts.last()@
    }
}

/// The join over a list made of two parts is the join of the joins over
/// the parts.
pub proof fn lemma_joint_concat(boxes: Seq<AABB>, a: Seq<usize>, b: Seq<usize>)
    ensures
        joint(boxes, a + b) == joint(boxes, a).union(joint(boxes, b)),
    decreases b.len(),
{
    if b.len() == 0 {
        assert(a + b == a);
    } else {
        assert((a + b).drop_last() == a + b.drop_last());
        lemma_joint_concat(boxes, a, b.drop_last());
    }
}

/// The join over a list encloses the box of each index in the list.
pub proof fn lemma_joint_encloses_each(boxes: Seq<AABB>, indices: Seq<usize>, k: int)
    requires
        0 <= k < indices.len(),
    ensures
        joint(boxes, indices).encloses(boxes[indices[k] as int]),
    decreases indices.len(),
{
    if k < indices.len() - 1 {
        lemma_joint_encloses_each(boxes, indices.drop_last(), k);
    }
}

/// The join over a list is the least box around the boxes of the list:
/// whatever encloses each of them encloses the join.
pub proof fn lemma_joint_least(boxes: Seq<AABB>, indices: Seq<usize>, outer: AABB)
    requires
        forall|k: int| 0 <= k < indices.len() ==> outer.encloses(#[trigger] boxes[indices[k] as int]),
    ensures
        outer.encloses(joint(boxes, indices)),
    decreases indices.len(),
{
    if indices.len() > 0 {
        let rest = indices.drop_last();
        assert forall|k: int| 0 <= k < rest.len() implies outer.encloses(
            #[trigger] boxes[rest[k] as int],
        ) by {
            assert(rest[k] == indices[k]);
        }
        lemma_joint_least(boxes, rest, outer);
        assert(outer.encloses(boxes[indices[indices.len() - 1] as int]));
    }
}

/// The join over a list depends only on which indices the list holds: two
/// lists with the same elements, in any order, have the same join.
pub proof fn lemma_joint_of_permutation(boxes: Seq<AABB>, a: Seq<usize>, b: Seq<usize>)
    requires
        a.to_multiset() == b.to_multiset(),
    ensures
        joint(boxes, a) == joint(boxes, b),
{
    broadcast use vstd::seq_lib::to_multiset_contains;

    assert forall|k: int| 0 <= k < a.len() implies joint(boxes, b).encloses(
        #[trigger] boxes[a[k] as int],
    ) by {
        assert(a.contains(a[k]));
        assert(b.to_multiset().count(a[k]) > 0);
        assert(b.contains(a[k]));
        let j = choose|j: int| 0 <= j < b.len() && b[j] == a[k];
        lemma_joint_encloses_each(boxes, b, j);
    }
    assert forall|k: int| 0 <= k < b.len() implies joint(boxes, a).encloses(
        #[trigger] boxes[b[k] as int],
    ) by {
        assert(b.contains(b[k]));
        assert(a.to_multiset().count(b[k]) > 0);
        assert(a.contains(b[k]));
        let j = choose|j: int| 0 <= j < a.len() && a[j] == b[k];
        lemma_joint_encloses_each(boxes, a, j);
    }
    lemma_joint_least(boxes, a, joint(boxes, b));
    lemma_joint_least(boxes, b, joint(boxes, a));
}

/// The join over the first `n` indices in order is the join of the first
/// `n` boxes.
pub proof fn lemma_joint_in_order(boxes: Seq<AABB>, n: nat)
    requires
        n <= boxes.len(),
        n <= usize::MAX,
    ensures
        joint(boxes, Seq::new(n, |i: int| i as usize)) == joint_all(boxes.take(n as int)),
    decreases n,
{
    if n > 0 {
        let indices = Seq::new(n, |i: int| i as usize);
        let fewer = Seq::new((n - 1) as nat, |i: int| i as usize);
        assert(indices.drop_last() == fewer);
        assert(boxes.take(n as int).drop_last() == boxes.take(n - 1));
        lemma_joint_in_order(boxes, (n - 1) as nat);
    }
}

/// The join of all of `boxes` encloses each of them.
pub proof fn lemma_joint_all_encloses_each(boxes: Seq<AABB>, k: int)
    requires
        0 <= k < boxes.len(),
    ensures
        joint_all(boxes).encloses(boxes[k]),
    decreases boxes.len(),
{
    if k < boxes.len() - 1 {
        lemma_joint_all_encloses_each(boxes.drop_last(), k);
    }
}

/// The join of all of `boxes` is the least box around them.
pub proof fn lemma_joint_all_least(boxes: Seq<AABB>, outer: AABB)
    requires
        forall|k: int| 0 <= k < boxes.len() ==> outer.encloses(#[trigger] boxes[k]),
    ensures
        outer.encloses(joint_all(boxes)),
    decreases boxes.len(),
{
    if boxes.len() > 0 {
        let rest = boxes.drop_last();
        assert forall|k: int| 0 <= k < rest.len() implies outer.encloses(#[trigger] rest[k]) by {
            assert(rest[k] == boxes[k]);
        }
        lemma_joint_all_least(rest, outer);
        assert(outer.encloses(boxes[boxes.len() - 1]));
    }
}

/// The join of the boxes of a list of shapes made of two parts is the join
/// of the joins of the parts.
pub proof fn lemma_joint_all_concat<H: Hittable>(a: Seq<H>, b: Seq<H>)
    ensures
        joint_all(boxes_of(a + b)) == joint_all(boxes_of(a)).union(joint_all(boxes_of(b))),
    decreases b.len(),
{
    if b.len() == 0 {
        assert(a + b == a);
    } else {
        assert(boxes_of(a + b).drop_last() == boxes_of(a + b.drop_last()));
        assert(boxes_of(b).drop_last() == boxes_of(b.drop_last()));
        assert(boxes_of(a + b).last() == boxes_of(b).last());
        lemma_joint_all_concat(a, b.drop_last());
    }
}

/// Two lists that hold the same shapes, in any order, have the same join of
/// boxes.
pub proof fn lemma_joint_all_of_permutation<H: Hittable>(a: Seq<H>, b: Seq<H>)
    requires
        a.to_multiset() == b.to_multiset(),
    ensures
        joint_all(boxes_of(a)) == joint_all(boxes_of(b)),
{
    broadcast use vstd::seq_lib::to_multiset_contains;

    assert forall|k: int| 0 <= k < boxes_of(a).len() implies joint_all(boxes_of(b)).encloses(
        #[trigger] boxes_of(a)[k],
    ) by {
        assert(a.contains(a[k]));
        assert(b.to_multiset().count(a[k]) > 0);
        assert(b.contains(a[k]));
        let j = choose|j: int| 0 <= j < b.len() && b[j] == a[k];
        lemma_joint_all_encloses_each(boxes_of(b), j);
    }
    assert forall|k: int| 0 <= k < boxes_of(b).len() implies joint_all(boxes_of(a)).encloses(
        #[trigger] boxes_of(b)[k],
    ) by {
        assert(b.contains(b[k]));
        assert(a.to_multiset().count(b[k]) > 0);
        assert(a.contains(b[k]));
        let j = choose|j: int| 0 <= j < a.len() && a[j] == b[k];
        lemma_joint_all_encloses_each(boxes_of(a), j);
    }
    lemma_joint_all_least(boxes_of(a), joint_all(boxes_of(b)));
    lemma_joint_all_least(boxes_of(b), joint_all(boxes_of(a)));
}

/// The join of the boxes of the shapes that `indices` names.
pub fn joint_aabb<H: Hittable>(indices: &[usize], shapes: &[H]) -> (aabb: AABB)
    requires
        forall|k: int| 0 <= k < indices@.len() ==> indices@[k] < shapes@.len(),
    ensures
        aabb == joint(boxes_of(shapes@), indices@),
{
    let mut aabb = AABB::empty();
    let mut k: usize = 0;
    while k < indices.len()
        invariant
            k <= indices@.len(),
            forall|k: int| 0 <= k < indices@.len() ==> indices@[k] < shapes@.len(),
            aabb == joint(boxes_of(shapes@), indices@.take(k as int)),
        decreases indices@.len() - k,
    {
        let shape_box = shapes[indices[k]].bounding_box();
        aabb.join_mut(&shape_box);
        proof {
            assert(indices@.take(k + 1).drop_last() == indices@.take(k as int));
        }
        k += 1;
    }
    proof {
        assert(indices@.take(k as int) == indices@);
    }
    aabb
}

/// The join of the boxes of all of `shapes`.
pub fn joint_aabb_from_shapes<H: Hittable>(shapes: &[H]) -> (aabb: AABB)
    ensures
        aabb == joint_all(boxes_of(shapes@)),
{
    let mut aabb = AABB::empty();
    let mut k: usize = 0;
    while k < shapes.len()
        invariant
            k <= shapes@.len(),
            aabb == joint_all(boxes_of(shapes@).take(k as int)),
        decreases shapes@.len() - k,
    {
        let shape_box = shapes[k].bounding_box();
        aabb.join_mut(&shape_box);
        proof {
            assert(boxes_of(shapes@).take(k + 1).drop_last() == boxes_of(shapes@).take(k as int));
        }
        k += 1;
    }
    proof {
        assert(boxes_of(shapes@).take(k as int) == boxes_of(shapes@));
    }
    aabb
}

/// Moves the elements of all the vectors into one, in order, and leaves each
/// of the vectors empty.
pub fn concatenate_vectors<T: Sized>(vectors: &mut [Vec<T>]) -> (vec: Vec<T>)
    ensures
        vec@ == concatenation(old(vectors)@),
        final(vectors)@.len() == old(vectors)@.len(),
        forall|k: int| 0 <= k < final(vectors)@.len() ==> (#[trigger] final(vectors)@[k])@.len() == 0,
{
    let mut vec = Vec::new();
    let mut k: usize = 0;
    while k < vectors.len()
        invariant
            k <= vectors@.len(),
            vectors@.len() == old(vectors)@.len(),
            vec@ == concatenation(old(vectors)@.take(k as int)),
            forall|j: int| 0 <= j < k ==> (#[trigger] vectors@[j])@.len() == 0,
            forall|j: int| k <= j < vectors@.len() ==> vectors@[j] == old(vectors)@[j],
        decreases vectors@.len() - k,
    {
        proof {
            assert(old(vectors)@.take(k + 1).drop_last() == old(vectors)@.take(k as int));
        }
        vec.append(&mut vectors[k]);
        k += 1;
    }
    proof {
        assert(old(vectors)@.take(k as int) == old(vectors)@);
    }
    vec
}

} // verus!
