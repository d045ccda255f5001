//! Partitioning a sequence into groups: consecutive groups of a fixed size,
//! or a fixed number of groups filled in turn.

use vstd::prelude::*;
use vstd::arithmetic::div_mod::lemma_fundamental_div_mod;
use vstd::arithmetic::div_mod::lemma_fundamental_div_mod_converse;
use vstd::seq_lib::lemma_multiset_commutative;
use vstd::seq_lib::to_multiset_build;
use vstd::seq_lib::to_multiset_len;

verus! {

/// The groups of a partition, each as the sequence of its items.
pub open spec fn group_views<T>(groups: Seq<Vec<T>>) -> Seq<Seq<T>> {
    groups.map_values(|group: Vec<T>| group@)
}

/// The number of groups of `size` items that `n` items fill, the last one
/// perhaps only in part.
pub open spec fn chunk_count(n: int, size: int) -> int {
    (n + size - 1) / size
}

/// `items` cut into consecutive groups of `size` items; the last group holds
/// what is left and may be shorter. No group is empty.
pub open spec fn chunks_of<T>(items: Seq<T>, size: int) -> Seq<Seq<T>>
    decreases items.len(),
{
    if size <= 0 || items.len() == 0 {
        Seq::empty()
    } else if items.len() <= size {
        seq![items]
    } else {
        seq![items.take(size)] + chunks_of(items.skip(size), size)
    }
}

/// How many of the positions `0 .. n` fall to group `group` when positions
/// are handed to `parts` groups in turn: the first `n % parts` groups get one
/// more than the others.
pub open spec fn share(n: int, parts: int, group: int) -> int {
    n / parts + if group < n % parts { 1int } else { 0int }
}

/// `items` handed out to `parts` groups in turn: the item at position `i`
/// goes to group `i % parts`, and each group keeps the order of `items`.
pub open spec fn round_robin<T>(items: Seq<T>, parts: int) -> Seq<Seq<T>> {
    Seq::new(
        parts as nat,
        |group: int|
            Seq::new(share(items.len() as int, parts, group) as nat, |j: int| items[group + j * parts]),
    )
}

/// A full group can be cut off the front of a sequence that holds at least
/// one group's worth of items.
pub proof fn lemma_chunks_of_front<T>(items: Seq<T>, size: int)
    requires
        1 <= size <= items.len(),
    ensures
        chunks_of(items, size) =~= seq![items.take(size)] + chunks_of(items.skip(size), size),
{
    if items.len() == size {
        assert(items.take(size) =~= items);
        assert(items.skip(size).len() == 0);
        assert(chunks_of(items.skip(size), size) =~= Seq::<Seq<T>>::empty());
    }
}

/// Cutting into groups of a fixed size loses nothing and keeps the order:
/// the groups laid end to end are the sequence again.
pub proof fn lemma_chunks_of_flatten<T>(items: Seq<T>, size: int)
    requires
        size >= 1,
    ensures
        chunks_of(items, size).flatten() =~= items,
    decreases items.len(),
{
    let chunks = chunks_of(items, size);
    if items.len() == 0 {
    } else if items.len() <= size {
        assert(chunks.drop_first() =~= Seq::<Seq<T>>::empty());
        assert(chunks.flatten() =~= chunks.first() + chunks.drop_first().flatten());
    } else {
        let rest = chunks_of(items.skip(size), size);
        lemma_chunks_of_flatten(items.skip(size), size);
        assert(chunks.first() == items.take(size));
        assert(chunks.drop_first() =~= rest);
        assert(chunks.flatten() =~= chunks.first() + chunks.drop_first().flatten());
    }
}

/// The shape of a fixed-size cut: as many groups as the items fill, every
/// group but the last of exactly `size` items, the last of at least one and
/// at most `size`.
pub proof fn lemma_chunks_of_shape<T>(items: Seq<T>, size: int)
    requires
        size >= 1,
    ensures
        chunks_of(items, size).len() == chunk_count(items.len() as int, size),
        forall|g: int|
            0 <= g < chunks_of(items, size).len() ==> 1 <= (#[trigger] chunks_of(items, size)[g]).len()
                <= size,
        forall|g: int|
            0 <= g < chunks_of(items, size).len() - 1 ==> (#[trigger] chunks_of(items, size)[g]).len()
                == size,
    decreases items.len(),
{
    let n = items.len() as int;
    if n == 0 {
        lemma_fundamental_div_mod_converse(size - 1, size, 0, size - 1);
    } else if n <= size {
        lemma_fundamental_div_mod_converse(n + size - 1, size, 1, n - 1);
    } else {
        let rest = chunks_of(items.skip(size), size);
        lemma_chunks_of_shape(items.skip(size), size);
        let q = (n - size + size - 1) / size;
        lemma_fundamental_div_mod(n - 1, size);
        assert((q + 1) * size == q * size + size) by (nonlinear_arith);
        assert(q * size == size * q) by (nonlinear_arith);
        lemma_fundamental_div_mod_converse(n + size - 1, size, q + 1, (n - 1) % size);
        assert forall|g: int| 0 <= g < chunks_of(items, size).len() implies 1 <= (
        #[trigger] chunks_of(items, size)[g]).len() <= size by {
            if g > 0 {
                assert(chunks_of(items, size)[g] == rest[g - 1]);
            }
        }
        assert forall|g: int| 0 <= g < chunks_of(items, size).len() - 1 implies (
        #[trigger] chunks_of(items, size)[g]).len() == size by {
            if g > 0 {
                assert(chunks_of(items, size)[g] == rest[g - 1]);
            }
        }
    }
}

/// Where each group of a fixed-size cut lies in the sequence: group `g` is
/// the stretch that starts at position `g * size` and ends `size` items
/// later, or where the sequence ends.
pub proof fn lemma_chunks_of_index<T>(items: Seq<T>, size: int, g: int)
    requires
        size >= 1,
        0 <= g < chunks_of(items, size).len(),
    ensures
        0 <= g * size < items.len(),
        chunks_of(items, size)[g] =~= items.subrange(
            g * size,
            if (g + 1) * size <= items.len() {
                (g + 1) * size
            } else {
                items.len() as int
            },
        ),
    decreases items.len(),
{
    let n = items.len() as int;
    assert((g + 1) * size == g * size + size) by (nonlinear_arith);
    if n <= size {
        assert(g == 0);
        assert(items.subrange(0, n) =~= items);
    } else if g == 0 {
    } else {
        let rest = items.skip(size);
        assert(chunks_of(items, size)[g] == chunks_of(rest, size)[g - 1]);
        lemma_chunks_of_index(rest, size, g - 1);
        assert((g - 1) * size + size == g * size) by (nonlinear_arith);
    }
}

/// Cuts `items` into consecutive groups of `chunk_size` items, in order; the
/// last group holds the remainder. The items are moved, not copied.
pub fn chunk_vec<T>(items: Vec<T>, chunk_size: usize) -> (groups: Vec<Vec<T>>)
    requires
        chunk_size >= 1,
    ensures
        group_views(groups@) == chunks_of(items@, chunk_size as int),
        groups.len() == chunk_count(items.len() as int, chunk_size as int),
{
    let ghost all = items@;
    let ghost size = chunk_size as int;
    let ghost start: int = 0;
    let mut groups: Vec<Vec<T>> = Vec::new();
    let mut current: Vec<T> = Vec::new();
    assert(all.skip(0) =~= all);
    assert(group_views(groups@) + chunks_of(all.skip(start), size) =~= chunks_of(all, size));
    for item in it: items.into_iter()
        invariant
            it.seq() == all,
            size == chunk_size >= 1,
            0 <= start <= it.index(),
            current@ == all.subrange(start, it.index() as int),
            current.len() < chunk_size,
            group_views(groups@) + chunks_of(all.skip(start), size) == chunks_of(all, size),
    {
        current.push(item);
        assert(current@ =~= all.subrange(start, it.index() + 1));
        if current.len() == chunk_size {
            proof {
                let rest = all.skip(start);
                lemma_chunks_of_front(rest, size);
                assert(rest.take(size) =~= current@);
                assert(rest.skip(size) =~= all.skip(start + size));
                assert(group_views(groups@.push(current)) =~= group_views(groups@) + seq![current@]);
                start = start + size;
            }
            groups.push(current);
            current = Vec::new();
            assert(current@ =~= all.subrange(start, it.index() + 1));
        }
    }
    if current.len() > 0 {
        proof {
            assert(all.skip(start) =~= current@);
            assert(group_views(groups@.push(current)) =~= group_views(groups@) + seq![current@]);
        }
        groups.push(current);
    } else {
        assert(all.skip(start).len() == 0);
        assert(group_views(groups@) + Seq::<Seq<T>>::empty() =~= group_views(groups@));
    }
    proof {
        lemma_chunks_of_shape(all, size);
        assert(group_views(groups@).len() == groups.len());
    }
    groups
}

/// Every place in a group of a round-robin deal is filled from a position
/// that exists: place `j` of group `group` holds position `group + j * parts`.
pub proof fn lemma_share_position(n: int, parts: int, group: int, j: int)
    requires
        parts >= 1,
        n >= 0,
        0 <= group < parts,
        0 <= j < share(n, parts, group),
    ensures
        0 <= group + j * parts < n,
        (group + j * parts) % parts == group,
        (group + j * parts) / parts == j,
{
    let q = n / parts;
    let r = n % parts;
    lemma_fundamental_div_mod(n, parts);
    assert(0 <= group + j * parts < n) by (nonlinear_arith)
        requires
            n == parts * q + r,
            0 <= r < parts,
            0 <= group < parts,
            0 <= j,
            j < q + if group < r { 1int } else { 0int },
    ;
    lemma_fundamental_div_mod_converse(group + j * parts, parts, j, group);
}

/// One more position changes the share of exactly one group, the one whose
/// turn it is, and that group held as many items as rounds were completed.
pub proof fn lemma_share_step(n: int, parts: int, group: int)
    requires
        parts >= 1,
        n >= 0,
        0 <= group < parts,
    ensures
        0 <= n % parts < parts,
        share(n + 1, parts, group) == share(n, parts, group) + if group == n % parts { 1int } else { 0int },
        share(n, parts, n % parts) == n / parts,
        0 <= share(n, parts, group),
{
    let q = n / parts;
    let r = n % parts;
    lemma_fundamental_div_mod(n, parts);
    assert(q >= 0) by (nonlinear_arith)
        requires
            n == parts * q + r,
            0 <= r < parts,
            n >= 0,
    ;
    if r + 1 < parts {
        assert(n + 1 == q * parts + (r + 1)) by (nonlinear_arith)
            requires
                n == parts * q + r,
        ;
        lemma_fundamental_div_mod_converse(n + 1, parts, q, r + 1);
    } else {
        assert(n + 1 == (q + 1) * parts + 0) by (nonlinear_arith)
            requires
                n == parts * q + r,
                r + 1 == parts,
        ;
        lemma_fundamental_div_mod_converse(n + 1, parts, q + 1, 0);
    }
}

/// Dealing one more item appends it to the group whose turn it is and
/// leaves every other group as it was.
pub proof fn lemma_round_robin_push<T>(items: Seq<T>, parts: int, item: T)
    requires
        parts >= 1,
    ensures
        0 <= items.len() % (parts as nat) < parts,
        round_robin(items.push(item), parts) =~= round_robin(items, parts).update(
            items.len() as int % parts,
            round_robin(items, parts)[items.len() as int % parts].push(item),
        ),
{
    let n = items.len() as int;
    let turn = n % parts;
    let before = round_robin(items, parts);
    let after = round_robin(items.push(item), parts);
    let expected = before.update(turn, before[turn].push(item));
    lemma_share_step(n, parts, 0);
    assert forall|g: int| 0 <= g < parts implies #[trigger] after[g] =~= expected[g] by {
        lemma_share_step(n, parts, g);
        assert forall|j: int| 0 <= j < after[g].len() implies after[g][j] == expected[g][j] by {
            if j < share(n, parts, g) {
                lemma_share_position(n, parts, g, j);
            } else {
                assert(g == turn && j == n / parts);
                lemma_fundamental_div_mod(n, parts);
                assert(g + j * parts == n) by (nonlinear_arith)
                    requires
                        n == parts * (n / parts) + n % parts,
                        g == n % parts,
                        j == n / parts,
                ;
            }
        }
    }
}

/// Hands `items` out to `parts` groups in turn, in order: the item at
/// position `i` goes to group `i % parts`. The items are moved, not copied.
pub fn deal_vec<T>(items: Vec<T>, parts: usize) -> (groups: Vec<Vec<T>>)
    requires
        parts >= 1,
    ensures
        group_views(groups@) == round_robin(items@, parts as int),
        groups.len() == parts,
{
    let ghost all = items@;
    let mut groups: Vec<Vec<T>> = Vec::new();
    for made in 0..parts
        invariant
            all.len() == items.len(),
            groups.len() == made,
            forall|g: int| 0 <= g < made ==> (#[trigger] groups[g]).len() == 0,
    {
        groups.push(Vec::new());
    }
    proof {
        lemma_fundamental_div_mod_converse(0, parts as int, 0, 0);
        assert(all.take(0).len() == 0);
        assert forall|g: int| 0 <= g < parts implies #[trigger] group_views(groups@)[g] =~= round_robin(
            all.take(0),
            parts as int,
        )[g] by {}
        assert(group_views(groups@) =~= round_robin(all.take(0), parts as int));
    }
    let mut position: usize = 0;
    for item in it: items.into_iter()
        invariant
            it.seq() == all,
            all.len() <= usize::MAX,
            parts >= 1,
            position == it.index(),
            groups.len() == parts,
            group_views(groups@) == round_robin(all.take(position as int), parts as int),
    {
        let turn = position % parts;
        proof {
            lemma_round_robin_push(all.take(position as int), parts as int, item);
            assert(all.take(position as int).push(item) =~= all.take(position + 1));
        }
        let ghost before = groups@;
        groups[turn].push(item);
        assert(group_views(groups@) =~= group_views(before).update(
            turn as int,
            group_views(before)[turn as int].push(item),
        ));
        position = position + 1;
    }
    assert(all.take(position as int) =~= all);
    groups
}

/// Appending an item to one group adds that item, once, to what the groups
/// hold together, and nothing else.
pub proof fn lemma_flatten_grow<T>(groups: Seq<Seq<T>>, group: int, item: T)
    requires
        0 <= group < groups.len(),
    ensures
        groups.update(group, groups[group].push(item)).flatten().to_multiset()
            =~= groups.flatten().to_multiset().insert(item),
    decreases groups.len(),
{
    broadcast use vstd::multiset::group_multiset_axioms;

    let grown = groups.update(group, groups[group].push(item));
    assert(grown.flatten() =~= grown.first() + grown.drop_first().flatten());
    assert(groups.flatten() =~= groups.first() + groups.drop_first().flatten());
    lemma_multiset_commutative(grown.first(), grown.drop_first().flatten());
    lemma_multiset_commutative(groups.first(), groups.drop_first().flatten());
    if group == 0 {
        assert(grown.drop_first() =~= groups.drop_first());
        to_multiset_build(groups[0], item);
    } else {
        let tail = groups.drop_first();
        assert(grown.drop_first() =~= tail.update(group - 1, tail[group - 1].push(item)));
        lemma_flatten_grow(tail, group - 1, item);
    }
}

/// Groups that are all empty hold nothing together.
pub proof fn lemma_flatten_of_empty_groups<T>(groups: Seq<Seq<T>>)
    requires
        forall|g: int| 0 <= g < groups.len() ==> (#[trigger] groups[g]).len() == 0,
    ensures
        groups.flatten() =~= Seq::<T>::empty(),
    decreases groups.len(),
{
    if groups.len() > 0 {
        let tail = groups.drop_first();
        assert forall|g: int| 0 <= g < tail.len() implies (#[trigger] tail[g]).len() == 0 by {
            assert(tail[g] == groups[g + 1]);
        }
        lemma_flatten_of_empty_groups(tail);
        assert(groups.flatten() =~= groups.first() + tail.flatten());
    }
}

/// A round-robin deal loses nothing and invents nothing: together the groups
/// hold each item as often as the dealt sequence does.
pub proof fn lemma_round_robin_multiset<T>(items: Seq<T>, parts: int)
    requires
        parts >= 1,
    ensures
        round_robin(items, parts).flatten().to_multiset() =~= items.to_multiset(),
        round_robin(items, parts).flatten().len() == items.len(),
    decreases items.len(),
{
    let dealt = round_robin(items, parts);
    if items.len() == 0 {
        lemma_fundamental_div_mod_converse(0, parts, 0, 0);
        lemma_flatten_of_empty_groups(dealt);
        assert(items =~= Seq::<T>::empty());
    } else {
        let init = items.drop_last();
        let last = items.last();
        assert(init.push(last) =~= items);
        lemma_round_robin_multiset(init, parts);
        lemma_round_robin_push(init, parts, last);
        lemma_flatten_grow(round_robin(init, parts), init.len() as int % parts, last);
        to_multiset_build(init, last);
    }
    to_multiset_len(dealt.flatten());
    to_multiset_len(items);
}

/// The groups of a round-robin deal: as many as asked for, each holding its
/// share, so that no two differ in size by more than one.
pub proof fn lemma_round_robin_shape<T>(items: Seq<T>, parts: int)
    requires
        parts >= 1,
    ensures
        round_robin(items, parts).len() == parts,
        forall|g: int|
            0 <= g < parts ==> (#[trigger] round_robin(items, parts)[g]).len() == share(
                items.len() as int,
                parts,
                g,
            ),
        forall|g: int, h: int|
            0 <= g < parts && 0 <= h < parts ==> (#[trigger] round_robin(items, parts)[g]).len() <= (
            #[trigger] round_robin(items, parts)[h]).len() + 1,
{
    assert forall|g: int| 0 <= g < parts implies (#[trigger] round_robin(items, parts)[g]).len()
        == share(items.len() as int, parts, g) by {
        lemma_share_step(items.len() as int, parts, g);
    }
}

} // verus!
