//! Stable sorting by an integer key, stated as insertion into a sorted list.

use vstd::prelude::*;

verus! {

/// The sorted list `s` with `x` put in behind every element whose key is not
/// above its own.
pub open spec fn settled<T>(s: Seq<T>, x: T, key: spec_fn(T) -> int) -> Seq<T>
    decreases s.len(),
{
    if s.len() == 0 || key(s.last()) <= key(x) {
        s.push(x)
    } else {
        settled(s.drop_last(), x, key).push(s.last())
    }
}

/// The elements of `s` sorted by their keys, elements with equal keys in the
/// order in which they stand in `s`.
pub open spec fn sorted_by_key<T>(s: Seq<T>, key: spec_fn(T) -> int) -> Seq<T>
    decreases s.len(),
{
    if s.len() == 0 {
        s
    } else {
        settled(sorted_by_key(s.drop_last(), key), s.last(), key)
    }
}

/// Whether the keys never fall from one element of `s` to the next.
pub open spec fn ascending<T>(s: Seq<T>, key: spec_fn(T) -> int) -> bool {
    forall|i: int, j: int| 0 <= i <= j < s.len() ==> key(#[trigger] s[i]) <= key(#[trigger] s[j])
}

/// Putting an element into a list adds it to the elements of the list.
pub proof fn lemma_settled<T>(s: Seq<T>, x: T, key: spec_fn(T) -> int)
    ensures
        settled(s, x, key).len() == s.len() + 1,
        settled(s, x, key).to_multiset() == s.to_multiset().insert(x),
    decreases s.len(),
{
    broadcast use vstd::seq_lib::to_multiset_build;

    if s.len() == 0 || key(s.last()) <= key(x) {
    } else {
        lemma_settled(s.drop_last(), x, key);
        assert(s.drop_last().push(s.last()) == s);
        assert(settled(s, x, key).to_multiset() =~= s.to_multiset().insert(x));
    }
}

/// Where `x` belongs at position `p` of the list `s`, behind an element
/// whose key is not above its own and before elements whose keys all are,
/// putting it in places it there.
pub proof fn lemma_settled_at<T>(s: Seq<T>, x: T, key: spec_fn(T) -> int, p: int)
    requires
        0 <= p <= s.len(),
        p > 0 ==> key(s[p - 1]) <= key(x),
        forall|k: int| p <= k < s.len() ==> key(#[trigger] s[k]) > key(x),
    ensures
        settled(s, x, key) == s.insert(p, x),
    decreases s.len(),
{
    if p == s.len() {
        assert(s.insert(p, x) == s.push(x));
    } else {
        assert(key(s[s.len() - 1]) > key(x));
        let rest = s.drop_last();
        assert forall|k: int| p <= k < rest.len() implies key(#[trigger] rest[k]) > key(x) by {
            assert(rest[k] == s[k]);
        }
        if p > 0 {
            assert(rest[p - 1] == s[p - 1]);
        }
        lemma_settled_at(rest, x, key, p);
        assert(rest.insert(p, x).push(s.last()) == s.insert(p, x));
    }
}

/// The position at which `x` is put into `s`: behind the last element whose
/// key is not above its own.
pub open spec fn place<T>(s: Seq<T>, x: T, key: spec_fn(T) -> int) -> int
    decreases s.len(),
{
    if s.len() == 0 || key(s.last()) <= key(x) {
        s.len() as int
    } else {
        place(s.drop_last(), x, key)
    }
}

/// In an ascending list the place of `x` lies behind an element not above
/// `x` and before elements that all are.
pub proof fn lemma_place<T>(s: Seq<T>, x: T, key: spec_fn(T) -> int)
    requires
        ascending(s, key),
    ensures
        0 <= place(s, x, key) <= s.len(),
        place(s, x, key) > 0 ==> key(s[place(s, x, key) - 1]) <= key(x),
        forall|k: int| place(s, x, key) <= k < s.len() ==> key(#[trigger] s[k]) > key(x),
    decreases s.len(),
{
    if s.len() == 0 || key(s.last()) <= key(x) {
    } else {
        let rest = s.drop_last();
        assert forall|i: int, j: int| 0 <= i <= j < rest.len() implies key(#[trigger] rest[i])
            <= key(#[trigger] rest[j]) by {
            assert(rest[i] == s[i] && rest[j] == s[j]);
        }
        lemma_place(rest, x, key);
        let p = place(rest, x, key);
        assert forall|k: int| p <= k < s.len() implies key(#[trigger] s[k]) > key(x) by {
            if k < rest.len() {
                assert(rest[k] == s[k]);
            }
        }
        if p > 0 {
            assert(rest[p - 1] == s[p - 1]);
        }
    }
}

/// Putting an element into an ascending list leaves it ascending.
pub proof fn lemma_settled_ascends<T>(s: Seq<T>, x: T, key: spec_fn(T) -> int)
    requires
        ascending(s, key),
    ensures
        ascending(settled(s, x, key), key),
{
    let out = settled(s, x, key);
    let p = place(s, x, key);
    lemma_place(s, x, key);
    lemma_settled_at(s, x, key, p);
    assert forall|i: int, j: int| 0 <= i <= j < out.len() implies key(#[trigger] out[i]) <= key(
        #[trigger] out[j],
    ) by {
        if i < p {
            assert(out[i] == s[i]);
            assert(key(s[i]) <= key(s[p - 1]));
        } else if i > p {
            assert(out[i] == s[i - 1]);
        }
        if j < p {
            assert(out[j] == s[j]);
        } else if j > p {
            assert(out[j] == s[j - 1]);
        }
    }
}

/// Sorting keeps the elements, each as often as before, and puts them in
/// ascending order.
pub proof fn lemma_sorted_by_key<T>(s: Seq<T>, key: spec_fn(T) -> int)
    ensures
        sorted_by_key(s, key).len() == s.len(),
        sorted_by_key(s, key).to_multiset() == s.to_multiset(),
        ascending(sorted_by_key(s, key), key),
    decreases s.len(),
{
    broadcast use vstd::seq_lib::to_multiset_build;

    if s.len() > 0 {
        lemma_sorted_by_key(s.drop_last(), key);
        lemma_settled(sorted_by_key(s.drop_last(), key), s.last(), key);
        lemma_settled_ascends(sorted_by_key(s.drop_last(), key), s.last(), key);
        assert(s.drop_last().push(s.last()) == s);
    }
}

/// A list of one element is sorted as it stands.
pub proof fn lemma_sorted_single<T>(s: Seq<T>, key: spec_fn(T) -> int)
    requires
        s.len() <= 1,
    ensures
        sorted_by_key(s, key) == s,
{
    if s.len() == 1 {
        assert(s.drop_last() == Seq::<T>::empty());
        assert(sorted_by_key(s.drop_last(), key) == Seq::<T>::empty());
        assert(settled(Seq::<T>::empty(), s.last(), key) == Seq::<T>::empty().push(s.last()));
        assert(Seq::<T>::empty().push(s.last()) == s);
    }
}

} // verus!
