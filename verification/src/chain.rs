//! Free lists threaded through an array of links.
//!
//! Every list of the pool is a chain: the list itself stores the index of its
//! first slot, and the shared `next` array stores, for each slot, the index of
//! the slot that follows it. [`NULL`] ends a chain.

use crate::model;
use vstd::prelude::*;

verus! {

/// Null sentinel for free-list links.
pub const NULL: u32 = u32::MAX;

/// The link of the first slot of `items`: the slot itself, or `NULL`.
pub open spec fn first_of(items: Seq<u32>) -> u32 {
    if items.len() == 0 {
        NULL
    } else {
        items[0]
    }
}

/// The last slot of `items`, or `NULL`.
pub open spec fn last_of(items: Seq<u32>) -> u32 {
    if items.len() == 0 {
        NULL
    } else {
        items[items.len() - 1]
    }
}

/// The link that the slot at position `i` of `items` has to carry.
pub open spec fn link_after(items: Seq<u32>, i: int) -> u32 {
    if i + 1 < items.len() {
        items[i + 1]
    } else {
        NULL
    }
}

/// Starting at `head` and following `next`, one meets exactly the slots of
/// `items`, each of them once and in this order, and then `NULL`.
pub open spec fn is_chain(next: Seq<u32>, head: u32, items: Seq<u32>) -> bool {
    &&& head == first_of(items)
    &&& items.no_duplicates()
    &&& forall|i: int| #![trigger items[i]] 0 <= i < items.len() ==> items[i] < next.len() && items[i]
        != NULL
    &&& forall|i: int|
        0 <= i < items.len() ==> #[trigger] next[items[i] as int] == link_after(items, i)
}

/// What stands in `next` outside of a chain does not matter to it.
pub proof fn lemma_chain_frame(next: Seq<u32>, next2: Seq<u32>, head: u32, items: Seq<u32>)
    requires
        is_chain(next, head, items),
        next2.len() == next.len(),
        forall|i: int|
            0 <= i < items.len() ==> #[trigger] next2[items[i] as int] == next[items[i] as int],
    ensures
        is_chain(next2, head, items),
{
    assert forall|i: int| 0 <= i < items.len() implies #[trigger] next2[items[i] as int]
        == link_after(items, i) by {
        assert(next2[items[i] as int] == next[items[i] as int]);
    }
}

/// Linking a slot in front of a chain.
pub proof fn lemma_chain_push(next: Seq<u32>, head: u32, items: Seq<u32>, slot: u32)
    requires
        is_chain(next, head, items),
        slot < next.len(),
        slot != NULL,
        !items.contains(slot),
    ensures
        is_chain(next.update(slot as int, head), slot, seq![slot] + items),
{
    let next2 = next.update(slot as int, head);
    let items2 = seq![slot] + items;
    assert forall|i: int, j: int|
        0 <= i < items2.len() && 0 <= j < items2.len() && i != j implies items2[i] != items2[j] by {
        if i == 0 {
            assert(items.contains(items[j - 1]));
        } else if j == 0 {
            assert(items.contains(items[i - 1]));
        }
    }
    assert forall|i: int| 0 <= i < items2.len() implies #[trigger] next2[items2[i] as int]
        == link_after(items2, i) by {
        if i > 0 {
            assert(items2[i] == items[i - 1]);
            assert(items.contains(items[i - 1]));
            assert(next[items[i - 1] as int] == link_after(items, i - 1));
        }
    }
}

/// Taking the first slot off a chain.
pub proof fn lemma_chain_pop(next: Seq<u32>, head: u32, items: Seq<u32>)
    requires
        is_chain(next, head, items),
        items.len() > 0,
    ensures
        is_chain(next, next[items[0] as int], items.subrange(1, items.len() as int)),
{
    let rest = items.subrange(1, items.len() as int);
    assert(next[items[0] as int] == link_after(items, 0));
    assert forall|i: int| 0 <= i < rest.len() implies #[trigger] next[rest[i] as int]
        == link_after(rest, i) by {
        assert(rest[i] == items[i + 1]);
        assert(next[items[i + 1] as int] == link_after(items, i + 1));
    }
}

/// Taking the first `count` slots off a chain.
pub proof fn lemma_chain_drop(next: Seq<u32>, head: u32, items: Seq<u32>, count: int)
    requires
        is_chain(next, head, items),
        0 <= count <= items.len(),
    ensures
        is_chain(
            next,
            first_of(items.subrange(count, items.len() as int)),
            items.subrange(count, items.len() as int),
        ),
    decreases count,
{
    if count == 0 {
        assert(items.subrange(0, items.len() as int) =~= items);
    } else {
        let rest = items.subrange(1, items.len() as int);
        lemma_chain_pop(next, head, items);
        lemma_chain_drop(next, next[items[0] as int], rest, count - 1);
        assert(rest.subrange(count - 1, rest.len() as int) =~= items.subrange(
            count,
            items.len() as int,
        ));
    }
}

/// Linking a slot behind a chain.
pub proof fn lemma_chain_append(next: Seq<u32>, head: u32, items: Seq<u32>, slot: u32)
    requires
        is_chain(next, head, items),
        slot < next.len(),
        slot != NULL,
        !items.contains(slot),
    ensures
        items.len() == 0 ==> is_chain(next.update(slot as int, NULL), slot, items.push(slot)),
        items.len() > 0 ==> is_chain(
            next.update(slot as int, NULL).update(last_of(items) as int, slot),
            head,
            items.push(slot),
        ),
{
    let items2 = items.push(slot);
    assert forall|i: int, j: int|
        0 <= i < items2.len() && 0 <= j < items2.len() && i != j implies items2[i] != items2[j] by {
        if i == items.len() {
            assert(items.contains(items[j]));
        } else if j == items.len() {
            assert(items.contains(items[i]));
        }
    }
    if items.len() > 0 {
        let last = items[items.len() - 1];
        let next2 = next.update(slot as int, NULL).update(last as int, slot);
        assert(items.contains(last));
        assert forall|i: int| 0 <= i < items2.len() implies #[trigger] next2[items2[i] as int]
            == link_after(items2, i) by {
            if i + 1 < items.len() {
                assert(items.contains(items[i]));
                assert(items[i] != last);
                assert(next[items[i] as int] == link_after(items, i));
            }
        }
    }
}

/// A chain has no more slots than the link array.
pub proof fn lemma_chain_len(next: Seq<u32>, head: u32, items: Seq<u32>)
    requires
        is_chain(next, head, items),
    ensures
        items.len() <= next.len(),
        items.len() <= NULL,
{
    let values = items.map_values(|x: u32| x as int);
    assert(values.no_duplicates()) by {
        assert forall|i: int, j: int|
            0 <= i < values.len() && 0 <= j < values.len() && i != j implies values[i]
            != values[j] by {
            assert(items[i] != items[j]);
        }
    }
    values.unique_seq_to_set();
    let bound = if next.len() <= NULL {
        next.len() as int
    } else {
        NULL as int
    };
    vstd::set_lib::lemma_int_range(0, bound);
    assert(values.to_set().subset_of(vstd::set_lib::set_int_range(0, bound))) by {
        assert forall|x: int| values.to_set().contains(x) implies 0 <= x < bound by {
            let i = choose|i: int| 0 <= i < values.len() && values[i] == x;
            assert(items[i] < next.len());
        }
    }
    vstd::set_lib::lemma_len_subset(values.to_set(), vstd::set_lib::set_int_range(0, bound));
}

/// A chain that lacks one valid slot is shorter than the link array.
pub proof fn lemma_chain_room(next: Seq<u32>, head: u32, items: Seq<u32>, slot: u32)
    requires
        is_chain(next, head, items),
        slot < next.len(),
        slot != NULL,
        !items.contains(slot),
    ensures
        items.len() + 1 <= next.len(),
        items.len() < NULL,
{
    lemma_chain_push(next, head, items, slot);
    lemma_chain_len(next.update(slot as int, head), slot, seq![slot] + items);
}

/// The links alone determine a chain: from one head only one list can be read.
pub proof fn law_chain_is_determined(next: Seq<u32>, head: u32, a: Seq<u32>, b: Seq<u32>)
    requires
        is_chain(next, head, a),
        is_chain(next, head, b),
    ensures
        a == b,
    decreases a.len(),
{
    if a.len() == 0 {
        if b.len() > 0 {
            assert(b[0] != NULL);
        }
        assert(a == b);
    } else {
        assert(a[0] != NULL);
        let ra = a.subrange(1, a.len() as int);
        let rb = b.subrange(1, b.len() as int);
        lemma_chain_pop(next, head, a);
        lemma_chain_pop(next, head, b);
        law_chain_is_determined(next, next[a[0] as int], ra, rb);
        assert(a =~= seq![a[0]] + ra);
        assert(b =~= seq![b[0]] + rb);
    }
}

/// Several lists share the links in `next`, each from its own head.
pub open spec fn threaded(next: Seq<u32>, heads: Seq<u32>, lists: Seq<Seq<u32>>) -> bool {
    &&& heads.len() == lists.len()
    &&& forall|a: int|
        #![trigger lists[a]]
        0 <= a < lists.len() ==> is_chain(next, heads[a], lists[a])
}

/// Linking a slot that is on no list in front of one of the lists.
pub proof fn lemma_threaded_push(
    next: Seq<u32>,
    heads: Seq<u32>,
    lists: Seq<Seq<u32>>,
    a: int,
    slot: u32,
)
    requires
        threaded(next, heads, lists),
        0 <= a < lists.len(),
        slot < next.len(),
        slot != NULL,
        !model::listed(lists, slot),
    ensures
        threaded(
            next.update(slot as int, heads[a]),
            heads.update(a, slot),
            lists.update(a, seq![slot] + lists[a]),
        ),
{
    let next2 = next.update(slot as int, heads[a]);
    let lists2 = lists.update(a, seq![slot] + lists[a]);
    assert forall|b: int| #![trigger lists2[b]] 0 <= b < lists2.len() implies is_chain(
        next2,
        heads.update(a, slot)[b],
        lists2[b],
    ) by {
        let items = lists[b];
        assert forall|i: int| 0 <= i < items.len() implies items[i] != slot by {
            assert(lists[b][i] == items[i]);
        }
        if b == a {
            lemma_chain_push(next, heads[a], items, slot);
        } else {
            lemma_chain_frame(next, next2, heads[b], items);
        }
    }
}

/// Linking a slot that is on no list behind one of the lists.
pub proof fn lemma_threaded_append(
    next: Seq<u32>,
    heads: Seq<u32>,
    lists: Seq<Seq<u32>>,
    a: int,
    slot: u32,
)
    requires
        threaded(next, heads, lists),
        model::unique(lists),
        0 <= a < lists.len(),
        slot < next.len(),
        slot != NULL,
        !model::listed(lists, slot),
    ensures
        lists[a].len() == 0 ==> threaded(
            next.update(slot as int, NULL),
            heads.update(a, slot),
            lists.update(a, lists[a].push(slot)),
        ),
        lists[a].len() > 0 ==> threaded(
            next.update(slot as int, NULL).update(last_of(lists[a]) as int, slot),
            heads,
            lists.update(a, lists[a].push(slot)),
        ),
{
    let empty = lists[a].len() == 0;
    let last = lists[a].len() - 1;
    let next1 = next.update(slot as int, NULL);
    let next2 = if empty {
        next1
    } else {
        next1.update(lists[a][last] as int, slot)
    };
    let heads2 = if empty {
        heads.update(a, slot)
    } else {
        heads
    };
    let lists2 = lists.update(a, lists[a].push(slot));
    assert forall|b: int| #![trigger lists2[b]] 0 <= b < lists2.len() implies is_chain(
        next2,
        heads2[b],
        lists2[b],
    ) by {
        let items = lists[b];
        assert forall|i: int| 0 <= i < items.len() implies items[i] != slot by {
            assert(lists[b][i] == items[i]);
        }
        if b == a {
            lemma_chain_append(next, heads[a], items, slot);
        } else {
            assert forall|i: int| 0 <= i < items.len() implies #[trigger] next2[items[i] as int]
                == next[items[i] as int] by {
                assert(lists[b][i] == items[i]);
                if !empty {
                    assert(lists[b][i] != lists[a][last]);
                }
            }
            lemma_chain_frame(next, next2, heads[b], items);
        }
    }
}

/// Taking the first `count` slots off one of the lists.
pub proof fn lemma_threaded_drop(
    next: Seq<u32>,
    heads: Seq<u32>,
    lists: Seq<Seq<u32>>,
    a: int,
    count: int,
)
    requires
        threaded(next, heads, lists),
        0 <= a < lists.len(),
        0 <= count <= lists[a].len(),
    ensures
        ({
            let rest = lists[a].subrange(count, lists[a].len() as int);
            threaded(next, heads.update(a, first_of(rest)), lists.update(a, rest))
        }),
{
    let rest = lists[a].subrange(count, lists[a].len() as int);
    let lists2 = lists.update(a, rest);
    assert forall|b: int| #![trigger lists2[b]] 0 <= b < lists2.len() implies is_chain(
        next,
        heads.update(a, first_of(rest))[b],
        lists2[b],
    ) by {
        let items = lists[b];
        if b == a {
            lemma_chain_drop(next, heads[a], items, count);
        }
    }
}

/// The null link is the largest `u32`, and no slot has it for an index.
pub proof fn law_null_is_no_slot(next: Seq<u32>, head: u32, items: Seq<u32>, i: int)
    requires
        is_chain(next, head, items),
        0 <= i < items.len(),
    ensures
        NULL == u32::MAX,
        items[i] < u32::MAX,
        items[i] < next.len(),
        head == items[0],
        i + 1 < items.len() ==> next[items[i] as int] == items[i + 1],
        i + 1 == items.len() ==> next[items[i] as int] == u32::MAX,
{
    assert(next[items[i] as int] == link_after(items, i));
}

/// The first and the last slot of a list are its first and its last slot.
pub proof fn law_ends_of_a_list(items: Seq<u32>)
    ensures
        items.len() > 0 ==> first_of(items) == items.first() && last_of(items) == items.last(),
        items.len() == 0 ==> first_of(items) == u32::MAX && last_of(items) == u32::MAX,
{
}

} // verus!
