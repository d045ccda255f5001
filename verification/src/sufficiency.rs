//! Checking that a collection holds enough of each required item.

use vstd::prelude::*;
use vstd::seq_lib::to_multiset_build;
use vstd::std_specs::cmp::PartialEqSpec;

verus! {

/// How many items of `items` are equal to `item`, by the `==` of the item
/// type.
pub open spec fn count_equal<T: PartialEq>(items: Seq<T>, item: T) -> nat
    decreases items.len(),
{
    if items.len() == 0 {
        0
    } else {
        count_equal(items.drop_last(), item) + if items.last().eq_spec(&item) {
            1nat
        } else {
            0nat
        }
    }
}

/// Every requirement, taken by itself, is met: `items` holds the required
/// item at least as often as the requirement asks. Requirements that name
/// the same item are not added up, and items that no requirement names do
/// not count.
pub open spec fn is_sufficient<T: PartialEq>(requirements: Seq<(T, usize)>, items: Seq<T>) -> bool {
    forall|r: int|
        0 <= r < requirements.len() ==> count_equal(items, (#[trigger] requirements[r]).0)
            >= requirements[r].1
}

/// Where `==` on the item type is equality of values, the count is the
/// multiplicity of the item in the collection taken as a multiset, so the
/// order of the collection does not matter.
pub proof fn lemma_count_equal_is_multiplicity<T: PartialEq>(items: Seq<T>, item: T)
    requires
        forall|a: T, b: T| #[trigger] a.eq_spec(&b) <==> a == b,
    ensures
        count_equal(items, item) == items.to_multiset().count(item),
    decreases items.len(),
{
    broadcast use vstd::multiset::group_multiset_axioms;

    if items.len() == 0 {
        items.to_multiset_ensures();
        assert(items =~= Seq::<T>::empty());
    } else {
        lemma_count_equal_is_multiplicity(items.drop_last(), item);
        to_multiset_build(items.drop_last(), items.last());
        assert(items.drop_last().push(items.last()) =~= items);
    }
}

/// Where `==` on the item type is equality of values, two collections that
/// differ only in the order of their items meet the same requirements.
pub proof fn lemma_sufficiency_ignores_order<T: PartialEq>(
    requirements: Seq<(T, usize)>,
    items: Seq<T>,
    reordered: Seq<T>,
)
    requires
        forall|a: T, b: T| #[trigger] a.eq_spec(&b) <==> a == b,
        items.to_multiset() == reordered.to_multiset(),
    ensures
        is_sufficient(requirements, items) == is_sufficient(requirements, reordered),
{
    assert forall|r: int| 0 <= r < requirements.len() implies count_equal(
        items,
        (#[trigger] requirements[r]).0,
    ) == count_equal(reordered, requirements[r].0) by {
        lemma_count_equal_is_multiplicity(items, requirements[r].0);
        lemma_count_equal_is_multiplicity(reordered, requirements[r].0);
    }
}

/// With nothing required, any collection is sufficient.
pub proof fn lemma_nothing_required<T: PartialEq>(items: Seq<T>)
    ensures
        is_sufficient(Seq::<(T, usize)>::empty(), items),
{
}

/// A requirement of zero is met by any collection, the empty one too.
pub proof fn lemma_zero_required<T: PartialEq>(item: T, items: Seq<T>)
    ensures
        is_sufficient(seq![(item, 0usize)], items),
        is_sufficient(seq![(item, 0usize)], Seq::<T>::empty()),
{
}

/// A single requirement is met exactly when the collection holds the item
/// at least as often as required: with fewer, the answer is no.
pub proof fn lemma_single_requirement<T: PartialEq>(item: T, needed: usize, items: Seq<T>)
    ensures
        is_sufficient(seq![(item, needed)], items) <==> count_equal(items, item) >= needed,
{
    assert(seq![(item, needed)][0] == (item, needed));
}

/// One requirement that the collection falls short of makes the whole list
/// unmet, whatever else the list asks for and wherever in it the
/// requirement stands.
pub proof fn lemma_shortfall<T: PartialEq>(requirements: Seq<(T, usize)>, r: int, items: Seq<T>)
    requires
        0 <= r < requirements.len(),
        count_equal(items, requirements[r].0) < requirements[r].1,
    ensures
        !is_sufficient(requirements, items),
{
}

/// Counts the items of `items` that are equal to `item`.
pub fn count_matching<T: PartialEq>(items: &[T], item: &T) -> (count: usize)
    ensures
        T::obeys_eq_spec() ==> count == count_equal(items@, *item),
        count <= items.len(),
{
    let mut count: usize = 0;
    let mut i: usize = 0;
    while i < items.len()
        invariant
            i <= items.len(),
            count <= i,
            T::obeys_eq_spec() ==> count == count_equal(items@.take(i as int), *item),
        decreases items.len() - i,
    {
        assert(items@.take(i + 1).drop_last() =~= items@.take(i as int));
        if items[i] == *item {
            count = count + 1;
        }
        i = i + 1;
    }
    assert(items@.take(i as int) =~= items@);
    count
}

/// Tells whether `checked_vector` holds every required item at least as
/// often as required. Each pair of `req_items` is an item and the least
/// number of times it must occur.
pub fn check_sufficient_items<T: PartialEq>(req_items: &[(T, usize)], checked_vector: &[T]) -> (sufficient:
    bool)
    ensures
        T::obeys_eq_spec() ==> sufficient == is_sufficient(req_items@, checked_vector@),
        req_items.len() == 0 ==> sufficient,
{
    let mut r: usize = 0;
    while r < req_items.len()
        invariant
            r <= req_items.len(),
            T::obeys_eq_spec() ==> is_sufficient(req_items@.take(r as int), checked_vector@),
        decreases req_items.len() - r,
    {
        let found = count_matching(checked_vector, &req_items[r].0);
        if found < req_items[r].1 {
            return false;
        }
        proof {
            if T::obeys_eq_spec() {
                let met = req_items@.take(r as int);
                let grown = req_items@.take(r + 1);
                assert forall|q: int| 0 <= q < grown.len() implies count_equal(
                    checked_vector@,
                    (#[trigger] grown[q]).0,
                ) >= grown[q].1 by {
                    if q < r {
                        assert(met[q] == grown[q]);
                    }
                }
            }
        }
        r = r + 1;
    }
    assert(req_items@.take(r as int) =~= req_items@);
    true
}

} // verus!
