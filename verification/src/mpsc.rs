//! MPSC (multi-producer, single-consumer) queue of slot indices.
//!
//! ## Design
//!
//! Producers enqueue by swapping `back` and linking the old back to the new
//! element. The consumer walks from `front` using `back` as a bound; it never
//! modifies `back`, so it cannot get in the way of producers.
//!
//! The element at `back` is always kept as a sentinel; it's consumed on the
//! *next* drain when a newer element takes its place as `back`. This means one
//! slot per queue is always "in transit", but no item can be lost.

use crate::chain;
use crate::chain::NULL;
use crate::padded;
use core::ops::ControlFlow;
use crossbeam_utils::CachePadded;
use vstd::prelude::*;

verus! {

/// Where a producer has to record the slot that it has made the new back.
#[derive(Clone, Copy, PartialEq, Eq, Structural)]
pub enum EnqueueLink {
    /// The queue was empty: the slot is the new front too.
    Front,
    /// The previous back has to be linked to the slot.
    After(u32),
}

/// What a producer decides from the `back` that it swapped out.
#[inline]
pub fn enqueue_step(prev: u32) -> (link: EnqueueLink)
    ensures
        link == (if prev == NULL {
            EnqueueLink::Front
        } else {
            EnqueueLink::After(prev)
        }),
{
    if prev != NULL {
        EnqueueLink::After(prev)
    } else {
        EnqueueLink::Front
    }
}

/// The slot to go on with once `curr` is consumed, given the bound of the walk
/// and the link of `curr`. `None` if `curr` has to stay.
pub open spec fn follower(curr: u32, bound: u32, link: u32) -> Option<u32> {
    if curr == bound || link == NULL {
        None
    } else {
        Some(link)
    }
}

/// What the consumer decides at the slot `curr`, given the bound that it read
/// from `back` and the link of `curr`: the slot to go on with once `curr` is
/// consumed, or `None` if `curr` has to stay, because it is the sentinel or
/// because its producer has not finished linking yet.
#[inline]
pub fn drain_step(curr: u32, bound: u32, next_idx: u32) -> (onward: Option<u32>)
    ensures
        onward == follower(curr, bound, next_idx),
{
    if curr == bound || next_idx == NULL {
        None
    } else {
        Some(next_idx)
    }
}

/// Told that `index` is the `count`-th index consumed, `cb` may answer `Break`
/// (where `stop` holds) or `Continue` (where it does not).
pub open spec fn cb_answers<F: Fn(u32, usize) -> ControlFlow<()>>(
    cb: F,
    index: u32,
    count: int,
    stop: bool,
) -> bool {
    exists|cf: ControlFlow<()>|
        #[trigger] cb.ensures((index, count as usize), cf) && (cf is Break <==> stop)
}

/// A drain of a queue that holds `items` may consume exactly the first `count`
/// of them: never the sentinel, and as far as `cb`, which is told each consumed
/// index and how many have been consumed so far, lets it go.
pub open spec fn drain_may_consume<F: Fn(u32, usize) -> ControlFlow<()>>(
    items: Seq<u32>,
    cb: F,
    count: int,
) -> bool {
    if items.len() <= 1 {
        count == 0
    } else {
        &&& 1 <= count < items.len()
        &&& forall|j: int|
            0 <= j < count - 1 ==> #[trigger] cb_answers(cb, items[j], j + 1, false)
        &&& count < items.len() - 1 ==> cb_answers(cb, items[count - 1], count, true)
    }
}

/// An uninterrupted drain takes all but the last slot: what is enqueued behind
/// a queue releases all that was in it.
pub proof fn law_enqueue_releases_the_sentinel<F: Fn(u32, usize) -> ControlFlow<()>>(
    items: Seq<u32>,
    index: u32,
    cb: F,
    count: int,
)
    requires
        items.len() < usize::MAX,
        forall|i: u32, n: usize, cf: ControlFlow<()>| #[trigger]
            cb.ensures((i, n), cf) ==> cf is Continue,
        drain_may_consume(items.push(index), cb, count),
    ensures
        count == items.len(),
        items.push(index).subrange(0, count) == items,
        items.push(index).subrange(count, items.len() + 1int) == seq![index],
{
    let queue = items.push(index);
    if queue.len() > 1 && count < queue.len() - 1 {
        assert(cb_answers(cb, queue[count - 1], count, true));
    }
    assert(queue.subrange(0, count) =~= items);
    assert(queue.subrange(count, items.len() + 1int) =~= seq![index]);
}

/// The last slot of a queue is never drained, and a queue of two or more is
/// never drained in vain.
pub proof fn law_drain_keeps_the_sentinel<F: Fn(u32, usize) -> ControlFlow<()>>(
    items: Seq<u32>,
    cb: F,
    count: int,
)
    requires
        drain_may_consume(items, cb, count),
    ensures
        items.len() > 0 ==> count < items.len(),
        items.len() > 1 ==> count > 0,
        items.len() == 0 ==> count == 0,
{
}

/// A queue of slot indices.
///
/// Each field on its own cache line to avoid false sharing.
///
/// Its view is the sequence of the queued slots, oldest first. The last of
/// them is the sentinel.
pub struct MpscQueue {
    /// Producers swap this to enqueue.
    back: CachePadded<u32>,
    /// Consumer reads from here. Only touched by the owning CPU.
    front: CachePadded<u32>,
    /// Length. Incremented on enqueue, decremented on drain.
    len: CachePadded<u32>,
    items: Ghost<Seq<u32>>,
}

impl View for MpscQueue {
    type V = Seq<u32>;

    closed spec fn view(&self) -> Seq<u32> {
        self.items@
    }
}

impl MpscQueue {
    /// The index at the front, or `NULL`.
    pub closed spec fn front(&self) -> u32 {
        padded::padded_value(self.front)
    }

    /// The index at the back, or `NULL`.
    pub closed spec fn back(&self) -> u32 {
        padded::padded_value(self.back)
    }

    /// The recorded length.
    pub closed spec fn recorded_len(&self) -> u32 {
        padded::padded_value(self.len)
    }

    /// The fields and the links in `next` hold the queue's slots.
    pub open spec fn wf(&self, next: Seq<u32>) -> bool {
        &&& chain::is_chain(next, self.front(), self@)
        &&& self.back() == chain::last_of(self@)
        &&& self.recorded_len() == self@.len()
    }

    /// An empty queue.
    pub fn new() -> (queue: Self)
        ensures
            queue@ == Seq::<u32>::empty(),
            forall|next: Seq<u32>| queue.wf(next),
    {
        MpscQueue {
            back: padded::padded(NULL),
            front: padded::padded(NULL),
            len: padded::padded(0),
            items: Ghost(Seq::empty()),
        }
    }

    /// Number of items in the queue.
    #[inline]
    pub fn approx_len(&self) -> (len: u32)
        ensures
            len == self.recorded_len(),
    {
        padded::read_padded(&self.len)
    }

    /// Enqueue a slot index. Called by any producer.
    #[inline]
    pub fn enqueue(&mut self, next: &mut [u32], index: u32)
        requires
            old(self).wf(old(next)@),
            index < old(next)@.len(),
            index != NULL,
            !old(self)@.contains(index),
        ensures
            final(self).wf(final(next)@),
            final(self)@ == old(self)@.push(index),
            final(next)@ == (if old(self)@.len() == 0 {
                old(next)@.update(index as int, NULL)
            } else {
                old(next)@.update(index as int, NULL).update(
                    chain::last_of(old(self)@) as int,
                    index,
                )
            }),
    {
        proof {
            chain::lemma_chain_append(next@, self.front(), self@, index);
            chain::lemma_chain_room(next@, self.front(), self@, index);
            if self@.len() > 0 {
                assert(self@[self@.len() - 1] != NULL);
            }
        }
        // Null-terminate our node.
        next[index as usize] = NULL;

        // Place ourselves as the new back.
        let prev: u32 = padded::read_padded(&self.back);
        self.back = padded::padded(index);
        self.len = padded::padded(padded::read_padded(&self.len) + 1);

        match enqueue_step(prev) {
            // Link the previous back to us.
            EnqueueLink::After(prev) => {
                next[prev as usize] = index;
            },
            // Queue was empty: we are the new front too.
            EnqueueLink::Front => {
                self.front = padded::padded(index);
            },
        }
        proof {
            self.items@ = self.items@.push(index);
        }
    }

    /// Consume the oldest item, unless it is the sentinel. Called by the owning
    /// CPU only (consumer).
    #[inline]
    pub(crate) fn take_oldest(&mut self, next: &[u32]) -> (taken: Option<u32>)
        requires
            old(self).wf(next@),
        ensures
            final(self).wf(next@),
            if old(self)@.len() > 1 {
                &&& taken == Some(old(self)@[0])
                &&& final(self)@ == old(self)@.subrange(1, old(self)@.len() as int)
            } else {
                taken is None && final(self)@ == old(self)@
            },
    {
        let ghost items = self@;
        let curr: u32 = padded::read_padded(&self.front);
        proof {
            chain::lemma_chain_len(next@, self.front(), items);
            if items.len() > 0 {
                assert(items[0] != NULL);
                assert(next@[items[0] as int] == chain::link_after(items, 0));
            }
            if items.len() > 1 {
                assert(items[1] != NULL);
                assert(items[0] != items[items.len() - 1]);
            }
        }
        if curr == NULL {
            return None;
        }
        let bound: u32 = padded::read_padded(&self.back);
        match drain_step(curr, bound, next[curr as usize]) {
            None => None,
            Some(onward) => {
                proof {
                    chain::lemma_chain_drop(next@, self.front(), items, 1);
                }
                self.front = padded::padded(onward);
                self.len = padded::padded(padded::read_padded(&self.len) - 1);
                proof {
                    self.items@ = items.subrange(1, items.len() as int);
                }
                Some(curr)
            },
        }
    }

    /// Drain items from the queue. Called by the owning CPU only (consumer).
    ///
    /// Walks from `front` toward `back`, using `back` as a bound. The element
    /// at `back` is NOT consumed (it's the sentinel). Calls `cb` for each
    /// consumed index, with the number of indices consumed so far. If `cb`
    /// returns `Break`, stops early (the element was still consumed). Returns
    /// the consumed indices.
    #[inline]
    pub fn drain<F: Fn(u32, usize) -> ControlFlow<()>>(&mut self, next: &[u32], cb: F) -> (consumed:
        Vec<u32>)
        requires
            old(self).wf(next@),
            forall|index: u32, count: usize| cb.requires((index, count)),
        ensures
            final(self).wf(next@),
            drain_may_consume(old(self)@, cb, consumed@.len() as int),
            consumed@ == old(self)@.subrange(0, consumed@.len() as int),
            final(self)@ == old(self)@.subrange(consumed@.len() as int, old(self)@.len() as int),
    {
        let ghost items = self@;
        let mut consumed: Vec<u32> = Vec::new();
        let mut curr: u32 = padded::read_padded(&self.front);
        proof {
            chain::lemma_chain_len(next@, self.front(), items);
            if items.len() > 0 {
                assert(items[0] != NULL);
            }
        }
        if curr == NULL {
            return consumed;
        }
        // Read back as a bound. We won't process past this.
        let bound: u32 = padded::read_padded(&self.back);
        let mut stopped: bool = false;
        let mut count: usize = 0;
        while !stopped && curr != bound
            invariant
                self.wf(next@),
                self@ == items,
                0 < items.len() <= NULL,
                bound == items[items.len() - 1],
                count == consumed@.len(),
                count < items.len(),
                curr == items[count as int],
                consumed@ == items.subrange(0, count as int),
                forall|index: u32, n: usize| cb.requires((index, n)),
                forall|j: int|
                    0 <= j < (if stopped {
                        count - 1
                    } else {
                        count as int
                    }) ==> #[trigger] cb_answers(cb, items[j], j + 1, false),
                stopped ==> count >= 1 && cb_answers(cb, items[count - 1], count as int, true),
            decreases items.len() - count,
        {
            let next_idx: u32 = next[curr as usize];
            proof {
                assert(next@[items[count as int] as int] == chain::link_after(items, count as int));
                assert(items[count as int + 1] != NULL);
            }
            match drain_step(curr, bound, next_idx) {
                None => {
                    assert(false);
                    stopped = true;
                },
                Some(onward) => {
                    // Consume curr. If cb returns Break, stop early.
                    consumed.push(curr);
                    count += 1;
                    let cf = cb(curr, count);
                    assert(cb_answers(cb, items[count - 1], count as int, cf is Break));
                    match cf {
                        ControlFlow::Break(_) => {
                            stopped = true;
                        },
                        ControlFlow::Continue(_) => {},
                    }
                    curr = onward;
                    assert(consumed@ =~= items.subrange(0, count as int));
                },
            }
        }
        proof {
            assert(curr == bound ==> count == items.len() - 1);
            chain::lemma_chain_drop(next@, self.front(), items, count as int);
        }
        // Update front to point at the last unprocessed element (the sentinel).
        self.front = padded::padded(curr);
        if count > 0 {
            let len: u32 = padded::read_padded(&self.len);
            self.len = padded::padded(len - count as u32);
        }
        proof {
            self.items@ = items.subrange(count as int, items.len() as int);
        }
        consumed
    }
}

/// A walk goes on from a slot exactly if the slot is not the bound and is linked,
/// and then to where it is linked.
pub proof fn law_walk_follows_the_links(curr: u32, bound: u32, link: u32)
    ensures
        follower(curr, bound, link) is Some <==> curr != bound && link != u32::MAX,
        follower(curr, bound, link) matches Some(onward) ==> onward == link,
{
}

/// A drain stops where it is told to: if `cb` lets it go on until it has consumed
/// `stop` slots, and then breaks, it consumes `stop` slots, or all but the
/// sentinel if there are fewer.
pub proof fn law_drain_stops_where_it_is_told<F: Fn(u32, usize) -> ControlFlow<()>>(
    items: Seq<u32>,
    cb: F,
    count: int,
    stop: int,
)
    requires
        1 <= stop,
        items.len() <= usize::MAX,
        forall|i: u32, n: usize, cf: ControlFlow<()>| #[trigger]
            cb.ensures((i, n), cf) ==> (cf is Break <==> n >= stop),
        drain_may_consume(items, cb, count),
    ensures
        items.len() <= 1 ==> count == 0,
        1 < items.len() <= stop ==> count == items.len() - 1,
        items.len() > stop ==> count == stop,
{
    if items.len() > 1 {
        if count < items.len() - 1 {
            assert(cb_answers(cb, items[count - 1], count, true));
        }
        if count - 1 >= stop {
            let j = stop - 1;
            assert(cb_answers(cb, items[j], j + 1, false));
        }
    }
}

/// A drain tells `cb` the slots that it consumes, each when it does so: if `cb`
/// breaks at the slot at position `at` and nowhere else, the drain consumes the
/// slots up to that one, or all but the sentinel.
pub proof fn law_drain_stops_at_the_slot_it_is_told<F: Fn(u32, usize) -> ControlFlow<()>>(
    items: Seq<u32>,
    cb: F,
    count: int,
    at: int,
)
    requires
        0 <= at < items.len() <= usize::MAX,
        items.no_duplicates(),
        forall|i: u32, n: usize, cf: ControlFlow<()>| #[trigger]
            cb.ensures((i, n), cf) ==> (cf is Break <==> i == items[at]),
        drain_may_consume(items, cb, count),
    ensures
        at < items.len() - 1 ==> count == at + 1,
        at == items.len() - 1 ==> count == items.len() - 1,
{
    if items.len() > 1 {
        if count < items.len() - 1 {
            assert(cb_answers(cb, items[count - 1], count, true));
        }
        if count - 1 > at {
            let j = at;
            assert(cb_answers(cb, items[j], j + 1, false));
        }
    }
}

impl MpscQueue {
    /// The front and the back name the oldest and the newest slot, following the
    /// links from the front one meets the slots of the queue, and the length is
    /// their number.
    pub proof fn law_words_hold_the_queue(&self, next: Seq<u32>)
        requires
            self.wf(next),
        ensures
            self.recorded_len() == self@.len(),
            self@.len() == 0 ==> self.front() == u32::MAX && self.back() == u32::MAX,
            self@.len() > 0 ==> self.front() == self@[0] && self.back() == self@.last(),
            forall|i: int|
                0 <= i < self@.len() - 1 ==> next[#[trigger] self@[i] as int] == self@[i + 1],
            self@.len() > 0 ==> next[self@.last() as int] == u32::MAX,
            self@.no_duplicates(),
    {
        assert forall|i: int| 0 <= i < self@.len() implies next[#[trigger] self@[i] as int]
            == chain::link_after(self@, i) by {}
    }
}

} // verus!
