//! Laws of the set operations and their sizes.
use vstd::prelude::*;
use vstd::set_lib::*;

use crate::model;

verus! {

/// The sizes of a union and of an intersection add up to the sizes of the two sets.
pub proof fn law_union_len(a: Set<u16>, b: Set<u16>)
    ensures
        a.union(b).len() + a.intersect(b).len() == a.len() + b.len(),
{
    broadcast use model::lemma_finite;

    assert(a.union(b) =~= a + b);
    lemma_set_intersect_union_lens(a, b);
}

/// A difference is smaller by the size of the intersection.
pub proof fn law_difference_len(a: Set<u16>, b: Set<u16>)
    ensures
        a.difference(b).len() + a.intersect(b).len() == a.len(),
{
    broadcast use model::lemma_finite;

    assert(a.difference(b).disjoint(a.intersect(b)));
    assert(a =~= a.difference(b) + a.intersect(b));
    lemma_set_disjoint_lens(a.difference(b), a.intersect(b));
}

/// A symmetric difference leaves out the intersection on both sides.
pub proof fn law_symmetric_difference_len(a: Set<u16>, b: Set<u16>)
    ensures
        model::symmetric_difference(a, b).len() + 2 * a.intersect(b).len() == a.len() + b.len(),
{
    broadcast use model::lemma_finite;

    law_difference_len(a, b);
    law_difference_len(b, a);
    assert(b.intersect(a) =~= a.intersect(b));
    assert(a.difference(b).disjoint(b.difference(a)));
    assert(model::symmetric_difference(a, b) =~= a.difference(b) + b.difference(a));
    lemma_set_disjoint_lens(a.difference(b), b.difference(a));
}

/// Taking the symmetric difference with the same set twice changes nothing.
pub proof fn law_symmetric_difference_twice(a: Set<u16>, b: Set<u16>)
    ensures
        model::symmetric_difference(model::symmetric_difference(a, b), b) == a,
{
    assert(model::symmetric_difference(model::symmetric_difference(a, b), b) =~= a);
}

/// A symmetric difference is the union without the intersection.
pub proof fn law_symmetric_difference_is_union_without_intersection(a: Set<u16>, b: Set<u16>)
    ensures
        model::symmetric_difference(a, b) == a.union(b).difference(a.intersect(b)),
{
    assert(model::symmetric_difference(a, b) =~= a.union(b).difference(a.intersect(b)));
}

/// A set is a subset of another exactly when intersecting with the other keeps it whole, which the
/// size of the intersection tells.
pub proof fn law_subset_by_intersection(a: Set<u16>, b: Set<u16>)
    ensures
        a.subset_of(b) <==> a.intersect(b) == a,
        a.subset_of(b) <==> a.intersect(b).len() == a.len(),
{
    broadcast use model::lemma_finite;

    if a.subset_of(b) {
        assert(a.intersect(b) =~= a);
    }
    if a.intersect(b).len() == a.len() {
        lemma_subset_equality(a.intersect(b), a);
    }
    if a.intersect(b) == a {
        assert forall|x: u16| a.contains(x) implies b.contains(x) by {
            assert(a.intersect(b).contains(x));
        }
    }
}

/// Two sets are disjoint exactly when the size of their intersection is zero.
pub proof fn law_disjoint_by_intersection(a: Set<u16>, b: Set<u16>)
    ensures
        a.disjoint(b) <==> a.intersect(b).len() == 0,
{
    broadcast use model::lemma_finite;

    if a.disjoint(b) {
        assert(a.intersect(b) =~= Set::empty());
    }
    if a.intersect(b).len() == 0 {
        a.intersect(b).lemma_len0_is_empty();
        assert forall|x: u16| a.contains(x) implies !b.contains(x) by {
            assert(!a.intersect(b).contains(x));
        }
    }
}

/// A range is contained exactly when as many members fall into it as it has values.
pub proof fn law_range_contained_by_count(s: Set<u16>, start: u16, end: u16)
    requires
        start <= end,
    ensures
        model::range_set(start, end).subset_of(s) <==> s.intersect(
            model::range_set(start, end),
        ).len() == end - start + 1,
{
    let r = model::range_set(start, end);
    model::lemma_range_len(start, end);
    law_subset_by_intersection(r, s);
    assert(r.intersect(s) =~= s.intersect(r));
}

/// All members fall into the interval of all values.
pub proof fn law_full_interval(s: Set<u16>)
    ensures
        s.intersect(model::range_set(0, u16::MAX)) == s,
{
    assert(s.intersect(model::range_set(0, u16::MAX)) =~= s);
}

/// Inserting and removing undo each other.
pub proof fn law_insert_remove(s: Set<u16>, x: u16)
    ensures
        !s.contains(x) ==> s.insert(x).remove(x) == s,
        s.contains(x) ==> s.remove(x).insert(x) == s,
{
    if !s.contains(x) {
        assert(s.insert(x).remove(x) =~= s);
    } else {
        assert(s.remove(x).insert(x) =~= s);
    }
}

/// Removing a range after adding it leaves what was outside of it, and removes every value of it.
pub proof fn law_insert_range_remove_range(s: Set<u16>, start: u16, end: u16)
    ensures
        s.union(model::range_set(start, end)).difference(model::range_set(start, end))
            == s.difference(model::range_set(start, end)),
        s.union(model::range_set(start, end)).intersect(model::range_set(start, end))
            == model::range_set(start, end),
{
    let r = model::range_set(start, end);
    assert(s.union(r).difference(r) =~= s.difference(r));
    assert(s.union(r).intersect(r) =~= r);
}

/// A range holds as many values as its ends are apart, plus one; with its ends out of order it
/// holds none.
pub proof fn law_range_len(start: u16, end: u16)
    ensures
        model::range_set(start, end).len() == (if start <= end {
            end - start + 1
        } else {
            0
        }),
        start > end ==> model::range_set(start, end) == Set::<u16>::empty(),
{
    if start <= end {
        model::lemma_range_len(start, end);
    } else {
        assert(model::range_set(start, end) =~= Set::<u16>::empty());
    }
}

/// A range falls into two ranges that share no value.
pub proof fn law_range_splits(start: u16, mid: u16, end: u16)
    requires
        start <= mid < end,
    ensures
        model::range_set(start, end) == model::range_set(start, mid).union(
            model::range_set((mid + 1) as u16, end),
        ),
        model::range_set(start, mid).disjoint(model::range_set((mid + 1) as u16, end)),
{
    assert(model::range_set(start, end) =~= model::range_set(start, mid).union(
        model::range_set((mid + 1) as u16, end),
    ));
}

/// A range of one value acts as that value.
pub proof fn law_range_of_one(s: Set<u16>, x: u16)
    ensures
        s.union(model::range_set(x, x)) == s.insert(x),
        s.difference(model::range_set(x, x)) == s.remove(x),
        model::range_set(x, x).subset_of(s) <==> s.contains(x),
{
    assert(s.union(model::range_set(x, x)) =~= s.insert(x));
    assert(s.difference(model::range_set(x, x)) =~= s.remove(x));
    assert(model::range_set(x, x).contains(x));
}

} // verus!
