//! Random partitions: the items are put in a random order, then cut into
//! groups of a fixed size or dealt out to a fixed number of groups.

use crate::partition::{
    chunk_count, chunk_vec, chunks_of, deal_vec, group_views, lemma_chunks_of_flatten,
    lemma_chunks_of_shape, lemma_round_robin_multiset, lemma_round_robin_shape, round_robin, share,
};
use rand::seq::SliceRandom;
use std::collections::HashSet;
use vstd::prelude::*;
use vstd::seq_lib::to_multiset_contains;
use vstd::seq_lib::to_multiset_len;
use vstd::std_specs::hash::obeys_key_model;

verus! {

/// Why a partition was refused.
#[derive(Debug, Clone, Copy, PartialEq, Eq, Structural)]
pub enum SplitError {
    /// The group size, or the number of groups, was zero.
    InvalidConfiguration,
}

/// `order` holds the items of `given`, each as often as `given` does; only
/// their order may differ.
pub open spec fn is_reordering<T>(order: Seq<T>, given: Seq<T>) -> bool {
    order.to_multiset() == given.to_multiset()
}

/// `order` lists the elements of `set`, each exactly once.
pub open spec fn is_listing<T>(order: Seq<T>, set: Set<T>) -> bool {
    order.no_duplicates() && order.to_set() == set
}

/// `groups` is some reordering of `given` cut into consecutive groups of
/// `size` items.
pub open spec fn is_fixed_size_split<T>(given: Seq<T>, size: int, groups: Seq<Seq<T>>) -> bool {
    exists|order: Seq<T>| #[trigger] is_reordering(order, given) && groups == chunks_of(order, size)
}

/// `groups` is some reordering of `given` dealt out to `parts` groups in
/// turn.
pub open spec fn is_fixed_count_split<T>(given: Seq<T>, parts: int, groups: Seq<Seq<T>>) -> bool {
    exists|order: Seq<T>| #[trigger] is_reordering(order, given) && groups == round_robin(order, parts)
}

/// `groups` is some listing of the elements of `set` dealt out to `parts`
/// groups in turn.
pub open spec fn is_set_split<T>(set: Set<T>, parts: int, groups: Seq<Seq<T>>) -> bool {
    exists|order: Seq<T>| #[trigger] is_listing(order, set) && groups == round_robin(order, parts)
}

/// Reordering keeps the number of items, and keeps a sequence free of
/// repetitions free of them, with the same elements.
pub proof fn lemma_reordering<T>(order: Seq<T>, given: Seq<T>)
    requires
        is_reordering(order, given),
    ensures
        order.len() == given.len(),
        forall|item: T| order.contains(item) <==> given.contains(item),
        given.no_duplicates() ==> is_listing(order, given.to_set()),
{
    to_multiset_len(order);
    to_multiset_len(given);
    assert forall|item: T| order.contains(item) <==> given.contains(item) by {
        to_multiset_contains(order, item);
        to_multiset_contains(given, item);
    }
    if given.no_duplicates() {
        given.lemma_multiset_has_no_duplicates();
        order.lemma_multiset_has_no_duplicates_conv();
        assert(order.to_set() =~= given.to_set());
    }
}

/// Whatever order the shuffle chose, a fixed-size split hands back every
/// item of the input as often as the input held it, in as many groups as the
/// items fill: each group but the last has exactly `size` items, the last at
/// least one and at most `size`.
pub proof fn lemma_fixed_size_split<T>(given: Seq<T>, size: int, groups: Seq<Seq<T>>)
    requires
        size >= 1,
        is_fixed_size_split(given, size, groups),
    ensures
        groups.flatten().to_multiset() == given.to_multiset(),
        groups.flatten().len() == given.len(),
        groups.len() == chunk_count(given.len() as int, size),
        forall|g: int| 0 <= g < groups.len() ==> 1 <= (#[trigger] groups[g]).len() <= size,
        forall|g: int| 0 <= g < groups.len() - 1 ==> (#[trigger] groups[g]).len() == size,
{
    let order = choose|order: Seq<T>| #[trigger]
        is_reordering(order, given) && groups == chunks_of(order, size);
    lemma_reordering(order, given);
    lemma_chunks_of_flatten(order, size);
    lemma_chunks_of_shape(order, size);
}

/// Whatever order the shuffle chose, a fixed-count split makes exactly
/// `parts` groups whose sizes differ by at most one and add up to the size
/// of the input, and together they hold every item of the input as often as
/// the input held it.
pub proof fn lemma_fixed_count_split<T>(given: Seq<T>, parts: int, groups: Seq<Seq<T>>)
    requires
        parts >= 1,
        is_fixed_count_split(given, parts, groups),
    ensures
        groups.len() == parts,
        forall|g: int|
            0 <= g < parts ==> (#[trigger] groups[g]).len() == share(given.len() as int, parts, g),
        forall|g: int, h: int|
            0 <= g < parts && 0 <= h < parts ==> (#[trigger] groups[g]).len() <= (
            #[trigger] groups[h]).len() + 1,
        groups.flatten().len() == given.len(),
        groups.flatten().to_multiset() == given.to_multiset(),
{
    let order = choose|order: Seq<T>| #[trigger]
        is_reordering(order, given) && groups == round_robin(order, parts);
    lemma_reordering(order, given);
    lemma_round_robin_multiset(order, parts);
    lemma_round_robin_shape(order, parts);
}

/// A split of a set puts every element of the set in exactly one group,
/// exactly once, and nothing else in any group; the groups are balanced as
/// those of any fixed-count split.
pub proof fn lemma_set_split<T>(set: Set<T>, parts: int, groups: Seq<Seq<T>>)
    requires
        parts >= 1,
        is_set_split(set, parts, groups),
    ensures
        groups.len() == parts,
        forall|g: int, h: int|
            0 <= g < parts && 0 <= h < parts ==> (#[trigger] groups[g]).len() <= (
            #[trigger] groups[h]).len() + 1,
        groups.flatten().no_duplicates(),
        groups.flatten().to_set() == set,
        forall|item: T| groups.flatten().to_multiset().count(item) == if set.contains(item) { 1nat } else { 0nat },
{
    let order = choose|order: Seq<T>| #[trigger]
        is_listing(order, set) && groups == round_robin(order, parts);
    let flat = groups.flatten();
    lemma_round_robin_multiset(order, parts);
    lemma_round_robin_shape(order, parts);
    lemma_reordering(flat, order);
    order.lemma_multiset_has_no_duplicates();
    assert forall|item: T| flat.to_multiset().count(item) == if set.contains(item) { 1nat } else { 0nat } by {
        to_multiset_contains(order, item);
    }
}

/// The handle to a thread's random generator, `rand::rngs::ThreadRng`.
/// Nothing is known of what is inside it.
#[verifier::external_type_specification]
#[verifier::external_body]
pub struct ExThreadRng(rand::rngs::ThreadRng);

/// `rand::rng` hands out the handle to the calling thread's generator.
/// Nothing is claimed of the handle. The generator is seeded from the
/// operating system when a thread first asks for it, and `rand` panics if
/// that fails.
pub assume_specification[ rand::rng ]() -> (rng: rand::rngs::ThreadRng);

/// Puts the items in a random order, in place. This is
/// `rand::seq::SliceRandom::shuffle` on the vector's slice, drawing from
/// `rng`. Believed of it, not proved: it only swaps items, so afterwards the
/// vector holds what it held before, each item as often as before. Which
/// order comes out is left open, and so is that every order is as likely as
/// any other. Drawing from the generator panics only where the operating
/// system fails to supply fresh seed material.
#[verifier::external_body]
fn shuffle_vec<T>(items: &mut Vec<T>, rng: &mut rand::rngs::ThreadRng)
    ensures
        is_reordering(final(items)@, old(items)@),
{
    items.shuffle(rng);
}

/// Moves the elements of a set into a vector. This is `Vec::from_iter` on
/// the set. Believed of it, not proved: the vector has as many items as the
/// set has elements, and for an element type whose equality and hashing
/// behave, it lists each element of the set exactly once. The order of the
/// listing is left open.
#[verifier::external_body]
fn set_into_vec<T>(set: HashSet<T>) -> (listing: Vec<T>)
    ensures
        listing.len() == set.len(),
        obeys_key_model::<T>() ==> is_listing(listing@, set@),
{
    Vec::from_iter(set)
}

/// Puts `vec` in a random order and cuts it into consecutive groups of
/// `chunk_size` items; the last group holds the remainder.
pub fn split_rand_vec<T: Clone>(vec: Vec<T>, chunk_size: usize) -> (groups: Vec<Vec<T>>)
    requires
        chunk_size >= 1,
    ensures
        is_fixed_size_split(vec@, chunk_size as int, group_views(groups@)),
        group_views(groups@).flatten().to_multiset() == vec@.to_multiset(),
        groups.len() == chunk_count(vec.len() as int, chunk_size as int),
        forall|g: int| 0 <= g < groups.len() ==> 1 <= (#[trigger] groups[g]).len() <= chunk_size,
        forall|g: int| 0 <= g < groups.len() - 1 ==> (#[trigger] groups[g]).len() == chunk_size,
{
    let ghost given = vec@;
    let mut rng = rand::rng();
    let mut order = vec;
    shuffle_vec(&mut order, &mut rng);
    let ghost shuffled = order@;
    let groups = chunk_vec(order, chunk_size);
    proof {
        assert(is_reordering(shuffled, given));
        lemma_fixed_size_split(given, chunk_size as int, group_views(groups@));
        assert forall|g: int| 0 <= g < groups.len() implies 1 <= (#[trigger] groups[g]).len()
            <= chunk_size by {
            assert(group_views(groups@)[g] == groups[g]@);
        }
        assert forall|g: int| 0 <= g < groups.len() - 1 implies (#[trigger] groups[g]).len()
            == chunk_size by {
            assert(group_views(groups@)[g] == groups[g]@);
        }
    }
    groups
}

/// Puts `vec` in a random order and deals it out to `parts` groups in turn,
/// so that the groups are as even as can be: the first `vec.len() % parts`
/// groups hold one item more than the others.
pub fn split_rand_vec_eq<T: Clone>(vec: Vec<T>, parts: usize) -> (groups: Vec<Vec<T>>)
    requires
        parts >= 1,
    ensures
        is_fixed_count_split(vec@, parts as int, group_views(groups@)),
        group_views(groups@).flatten().to_multiset() == vec@.to_multiset(),
        group_views(groups@).flatten().len() == vec.len(),
        groups.len() == parts,
        forall|g: int|
            0 <= g < parts ==> (#[trigger] groups[g]).len() == share(vec.len() as int, parts as int, g),
        forall|g: int, h: int|
            0 <= g < parts && 0 <= h < parts ==> (#[trigger] groups[g]).len() <= (
            #[trigger] groups[h]).len() + 1,
{
    let ghost given = vec@;
    let mut rng = rand::rng();
    let mut order = vec;
    shuffle_vec(&mut order, &mut rng);
    let ghost shuffled = order@;
    let groups = deal_vec(order, parts);
    proof {
        assert(is_reordering(shuffled, given));
        lemma_fixed_count_split(given, parts as int, group_views(groups@));
        assert forall|g: int| 0 <= g < parts implies (#[trigger] groups[g]).len() == share(
            given.len() as int,
            parts as int,
            g,
        ) by {
            assert(group_views(groups@)[g] == groups[g]@);
        }
    }
    groups
}

/// What a split of a hash set into `parts` groups owes: the groups, each
/// with its share of the elements, and, for an element type whose equality
/// and hashing behave, every element of the set in exactly one place.
pub open spec fn is_hash_set_split<T>(set: HashSet<T>, parts: int, groups: Seq<Seq<T>>) -> bool {
    &&& groups.len() == parts
    &&& forall|g: int|
        0 <= g < parts ==> (#[trigger] groups[g]).len() == share(set.len() as int, parts, g)
    &&& groups.flatten().len() == set.len()
    &&& obeys_key_model::<T>() ==> is_set_split(set@, parts, groups)
}

/// Lists the elements of `set` in a random order and deals them out to
/// `parts` groups in turn, as `split_rand_vec_eq` does with a vector.
pub fn split_rand_hashset_eq<T: Clone>(set: HashSet<T>, parts: usize) -> (groups: Vec<Vec<T>>)
    requires
        parts >= 1,
    ensures
        is_hash_set_split(set, parts as int, group_views(groups@)),
        forall|g: int, h: int|
            0 <= g < parts && 0 <= h < parts ==> (#[trigger] groups[g]).len() <= (
            #[trigger] groups[h]).len() + 1,
        obeys_key_model::<T>() ==> group_views(groups@).flatten().no_duplicates()
            && group_views(groups@).flatten().to_set() == set@,
{
    let mut rng = rand::rng();
    let mut order = set_into_vec(set);
    let ghost listing = order@;
    shuffle_vec(&mut order, &mut rng);
    let ghost shuffled = order@;
    let groups = deal_vec(order, parts);
    proof {
        let views = group_views(groups@);
        lemma_reordering(shuffled, listing);
        lemma_round_robin_multiset(shuffled, parts as int);
        lemma_round_robin_shape(shuffled, parts as int);
        assert forall|g: int, h: int| 0 <= g < parts && 0 <= h < parts implies (
        #[trigger] groups[g]).len() <= (#[trigger] groups[h]).len() + 1 by {
            assert(views[g] == groups[g]@);
            assert(views[h] == groups[h]@);
        }
        if obeys_key_model::<T>() {
            assert(is_listing(shuffled, set@));
            lemma_set_split(set@, parts as int, views);
        }
    }
    groups
}

/// `split_rand_vec`, with a group size of zero refused.
pub fn try_split_rand_vec<T: Clone>(vec: Vec<T>, chunk_size: usize) -> (result: Result<
    Vec<Vec<T>>,
    SplitError,
>)
    ensures
        match result {
            Ok(groups) => chunk_size >= 1 && is_fixed_size_split(
                vec@,
                chunk_size as int,
                group_views(groups@),
            ),
            Err(error) => chunk_size == 0 && error == SplitError::InvalidConfiguration,
        },
{
    if chunk_size == 0 {
        Err(SplitError::InvalidConfiguration)
    } else {
        Ok(split_rand_vec(vec, chunk_size))
    }
}

/// `split_rand_vec_eq`, with a group count of zero refused.
pub fn try_split_rand_vec_eq<T: Clone>(vec: Vec<T>, parts: usize) -> (result: Result<
    Vec<Vec<T>>,
    SplitError,
>)
    ensures
        match result {
            Ok(groups) => parts >= 1 && is_fixed_count_split(vec@, parts as int, group_views(groups@)),
            Err(error) => parts == 0 && error == SplitError::InvalidConfiguration,
        },
{
    if parts == 0 {
        Err(SplitError::InvalidConfiguration)
    } else {
        Ok(split_rand_vec_eq(vec, parts))
    }
}

/// `split_rand_hashset_eq`, with a group count of zero refused.
pub fn try_split_rand_hashset_eq<T: Clone>(set: HashSet<T>, parts: usize) -> (result: Result<
    Vec<Vec<T>>,
    SplitError,
>)
    ensures
        match result {
            Ok(groups) => parts >= 1 && is_hash_set_split(set, parts as int, group_views(groups@)),
            Err(error) => parts == 0 && error == SplitError::InvalidConfiguration,
        },
{
    if parts == 0 {
        Err(SplitError::InvalidConfiguration)
    } else {
        Ok(split_rand_hashset_eq(set, parts))
    }
}

} // verus!
