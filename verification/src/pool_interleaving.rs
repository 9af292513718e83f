//! A whole pool under any interleaving of threads.
//!
//! Threads that allocate and free touch the shared words of a pool one at a
//! time: they push and pop local lists, enqueue to and drain remote queues, and
//! push and pop the global stack. All these lists share one array of links. Each
//! read or write of a shared word is a step of [`local_interleaving`],
//! [`queue_interleaving`] or [`stack_interleaving`], and steps of different
//! threads may follow each other in any order. A thread may be at work on several
//! lists at once, as it is when it drains a queue to a local list. A slot that a
//! thread has taken off a list is its own, until it starts to put the slot on a
//! list or passes it to another thread.
//!
//! [`local_interleaving`]: crate::local_interleaving
//! [`queue_interleaving`]: crate::queue_interleaving
//! [`stack_interleaving`]: crate::stack_interleaving
//!
//! Steps take effect one after the other: memory is sequentially consistent here.
//! Two things are taken of the threads. No thread commits a stale change to a
//! local list. And no thread stays in the middle of a change of the global stack
//! while the generation of its head goes all the way round.

use crate::chain::NULL;
use crate::local_interleaving::ListStep;
use crate::local_interleaving::SharedList;
use crate::queue_interleaving::QueueStep;
use crate::queue_interleaving::SharedQueue;
use crate::stack_interleaving::SharedStack;
use crate::stack_interleaving::StackStep;
use vstd::prelude::*;

verus! {

/// One of the lists of a pool, and what the threads do with it.
pub enum Part {
    Local(SharedList),
    Remote(SharedQueue),
    Global(SharedStack),
}

/// A step on one of the lists.
pub enum PartStep {
    Local(ListStep),
    Remote(QueueStep),
    Global(StackStep),
}

/// A step on a pool.
pub enum PoolStep {
    /// Thread `t` takes a step on the list at `part`.
    Touch { part: int, t: int, step: PartStep },
    /// A slot is passed to thread `to`.
    Pass { slot: u32, to: int },
}

/// A pool and the threads that share it.
pub struct SharedPool {
    /// The links.
    pub next: Seq<u32>,
    /// The lists.
    pub parts: Seq<Part>,
    /// The slots that are on no list and on their way to none, each with the
    /// thread that holds it.
    pub holders: Map<u32, int>,
}

/// The thread that takes a step on a queue.
pub open spec fn thread_of(step: QueueStep) -> int {
    match step {
        QueueStep::BeginEnqueue { t, .. } => t,
        QueueStep::ClearLink { t } => t,
        QueueStep::SwapBack { t } => t,
        QueueStep::LinkBack { t } => t,
        QueueStep::Claim { t } => t,
        QueueStep::ReadFront { t } => t,
        QueueStep::ReadBack { t } => t,
        QueueStep::Advance { t } => t,
        QueueStep::WriteFront { t } => t,
        QueueStep::Release { t } => t,
    }
}

impl Part {
    /// The links, as this list has them.
    pub open spec fn next(self) -> Seq<u32> {
        match self {
            Part::Local(list) => list.next,
            Part::Remote(queue) => queue.next,
            Part::Global(stack) => stack.next,
        }
    }

    /// `slot` is neither on this list nor on its way to it.
    pub open spec fn spares(self, slot: u32) -> bool {
        match self {
            Part::Local(list) => list.held.contains(slot),
            Part::Remote(queue) => queue.held.contains(slot),
            Part::Global(stack) => stack.held.contains(slot),
        }
    }

    /// The list where the links are `next`.
    pub open spec fn with_links(self, next: Seq<u32>) -> Part {
        match self {
            Part::Local(list) => Part::Local(list.with_links(next)),
            Part::Remote(queue) => Part::Remote(queue.with_links(next)),
            Part::Global(stack) => Part::Global(stack.with_links(next)),
        }
    }

    /// What is true of a list at all times.
    pub open spec fn valid(self) -> bool {
        match self {
            Part::Local(list) => list.valid(),
            Part::Remote(queue) => queue.valid(),
            Part::Global(stack) => stack.valid(),
        }
    }

    /// What a step of thread `t` leads to. `None` if the thread cannot take it.
    pub open spec fn step(self, t: int, step: PartStep) -> Option<Part> {
        match (self, step) {
            (Part::Local(list), PartStep::Local(s)) => if 0 <= t < list.ops.len() {
                match list.step(t, s) {
                    Some(after) => Some(Part::Local(after)),
                    None => None,
                }
            } else {
                None
            },
            (Part::Remote(queue), PartStep::Remote(s)) => if thread_of(s) == t {
                match queue.step(s) {
                    Some(after) => Some(Part::Remote(after)),
                    None => None,
                }
            } else {
                None
            },
            (Part::Global(stack), PartStep::Global(s)) => if 0 <= t < stack.ops.len() {
                match stack.step(t, s) {
                    Some(after) => Some(Part::Global(after)),
                    None => None,
                }
            } else {
                None
            },
            _ => None,
        }
    }

    /// The step is not stale: what thread `t` has read before is still so where
    /// it has to be.
    pub open spec fn in_time(self, t: int, step: PartStep) -> bool {
        match (self, step) {
            (Part::Local(list), PartStep::Local(s)) => !list.is_stale(t, s),
            (Part::Global(stack), PartStep::Global(_)) => stack.in_time(t),
            _ => true,
        }
    }

    /// The slot that a step takes from the threads.
    pub open spec fn taken(self, t: int, step: PartStep) -> Option<u32> {
        match (self, step) {
            (Part::Local(list), PartStep::Local(s)) => list.taken(t, s),
            (Part::Remote(queue), PartStep::Remote(s)) => queue.taken(s),
            (Part::Global(stack), PartStep::Global(s)) => stack.taken(t, s),
            _ => None,
        }
    }

    /// The slot that a step gives to thread `t`.
    pub open spec fn given(self, t: int, step: PartStep) -> Option<u32> {
        match (self, step) {
            (Part::Local(list), PartStep::Local(s)) => list.given(t, s),
            (Part::Remote(queue), PartStep::Remote(s)) => queue.given(s),
            (Part::Global(stack), PartStep::Global(s)) => stack.given(t, s),
            _ => None,
        }
    }

    /// A step keeps a list as it has to be, exchanges one slot with the threads
    /// at most, and writes no link of a slot that has nothing to do with the
    /// list.
    proof fn lemma_step(self, t: int, step: PartStep)
        requires
            self.valid(),
            self.step(t, step) is Some,
            self.in_time(t, step),
        ensures
            ({
                let after = self.step(t, step)->0;
                &&& after.valid()
                &&& after.next().len() == self.next().len()
                &&& forall|slot: u32| #[trigger]
                    self.spares(slot) ==> after.next()[slot as int] == self.next()[slot as int]
                &&& self.taken(t, step) matches Some(slot) ==> self.spares(slot)
                &&& self.given(t, step) matches Some(slot) ==> slot < self.next().len()
                    && !self.spares(slot)
                &&& self.taken(t, step) is None || self.given(t, step) is None
                &&& forall|slot: u32| #[trigger]
                    after.spares(slot) <==> (self.spares(slot) && self.taken(t, step) != Some(slot))
                        || self.given(t, step) == Some(slot)
            }),
    {
        match (self, step) {
            (Part::Local(list), PartStep::Local(s)) => {
                list.law_steps_keep_the_list(t, s);
                list.law_steps_exchange_slots(t, s);
            },
            (Part::Remote(queue), PartStep::Remote(s)) => {
                queue.law_steps_keep_the_queue(s);
                queue.law_steps_exchange_slots(s);
            },
            (Part::Global(stack), PartStep::Global(s)) => {
                stack.law_steps_keep_the_stack(t, s);
                stack.law_steps_exchange_slots(t, s);
            },
            _ => {},
        }
    }

    /// Links of slots that have nothing to do with a list do not matter to it.
    proof fn lemma_with_links(self, next: Seq<u32>)
        requires
            self.valid(),
            next.len() == self.next().len(),
            forall|slot: u32|
                slot < next.len() && !self.spares(slot) ==> #[trigger] next[slot as int]
                    == self.next()[slot as int],
        ensures
            self.with_links(next).valid(),
            self.with_links(next).next() == next,
            forall|slot: u32| #[trigger]
                self.with_links(next).spares(slot) <==> self.spares(slot),
    {
        match self {
            Part::Local(list) => list.law_other_links_do_not_matter(next),
            Part::Remote(queue) => queue.law_other_links_do_not_matter(next),
            Part::Global(stack) => stack.law_other_links_do_not_matter(next),
        }
    }
}

impl SharedPool {
    /// A thread holds `slot`.
    pub open spec fn is_held(self, slot: u32) -> bool {
        self.holders.dom().contains(slot)
    }

    /// `slot` is on the list at `part` or on its way to it.
    pub open spec fn is_at(self, part: int, slot: u32) -> bool {
        0 <= part < self.parts.len() && !self.parts[part].spares(slot)
    }

    /// What is true at all times: all lists are as they have to be and agree on
    /// the links, and every slot is held by a thread or at one list, and never
    /// two of these.
    pub open spec fn valid(self) -> bool {
        &&& self.next.len() <= NULL
        &&& forall|a: int|
            0 <= a < self.parts.len() ==> (#[trigger] self.parts[a]).valid()
                && self.parts[a].next() == self.next
        &&& forall|slot: u32| #[trigger] self.is_held(slot) ==> slot < self.next.len()
        &&& forall|slot: u32, a: int| #[trigger]
            self.is_at(a, slot) && slot < self.next.len() ==> !self.is_held(slot)
        &&& forall|slot: u32, a: int, b: int|
            slot < self.next.len() && #[trigger] self.is_at(a, slot) && #[trigger] self.is_at(
                b,
                slot,
            ) ==> a == b
        &&& forall|slot: u32|
            slot < self.next.len() && !#[trigger] self.is_held(slot) ==> exists|a: int|
                self.is_at(a, slot)
    }

    /// The slot that a step gives to a thread, and the thread.
    pub open spec fn given(self, step: PoolStep) -> Option<(u32, int)> {
        match step {
            PoolStep::Touch { part, t, step } => match self.parts[part].given(t, step) {
                Some(slot) => Some((slot, t)),
                None => None,
            },
            PoolStep::Pass { .. } => None,
        }
    }

    /// The step is not stale.
    pub open spec fn in_time(self, step: PoolStep) -> bool {
        match step {
            PoolStep::Touch { part, t, step } => self.parts[part].in_time(t, step),
            PoolStep::Pass { .. } => true,
        }
    }

    /// What is left when the list at `part` has become `after`.
    pub open spec fn with_part(self, part: int, after: Part) -> Seq<Part> {
        Seq::new(
            self.parts.len(),
            |b: int|
                if b == part {
                    after
                } else {
                    self.parts[b].with_links(after.next())
                },
        )
    }

    /// What a step leads to. `None` if it cannot be taken: a thread puts on a
    /// list only what it holds.
    pub open spec fn step(self, step: PoolStep) -> Option<SharedPool> {
        match step {
            PoolStep::Touch { part, t, step } => if 0 <= part < self.parts.len() {
                match self.parts[part].step(t, step) {
                    Some(after) => {
                        let parts = self.with_part(part, after);
                        let next = after.next();
                        match (
                            self.parts[part].taken(t, step),
                            self.parts[part].given(t, step),
                        ) {
                            (Some(slot), _) => if self.is_held(slot) && self.holders[slot] == t {
                                Some(
                                    SharedPool { next, parts, holders: self.holders.remove(slot) },
                                )
                            } else {
                                None
                            },
                            (None, Some(slot)) => Some(
                                SharedPool { next, parts, holders: self.holders.insert(slot, t) },
                            ),
                            (None, None) => Some(SharedPool { next, parts, holders: self.holders }),
                        }
                    },
                    None => None,
                }
            } else {
                None
            },
            PoolStep::Pass { slot, to } => if self.is_held(slot) {
                Some(SharedPool { holders: self.holders.insert(slot, to), ..self })
            } else {
                None
            },
        }
    }

    /// No slot is held twice: steps of threads, in any order, keep the pool
    /// intact, and what a step gives to a thread was held by no thread before.
    pub proof fn law_no_slot_is_held_twice(self, step: PoolStep)
        requires
            self.valid(),
            self.step(step) is Some,
            self.in_time(step),
        ensures
            self.step(step)->0.valid(),
            self.step(step)->0.next.len() == self.next.len(),
            self.given(step) matches Some((slot, t)) ==> {
                &&& slot < self.next.len()
                &&& !self.is_held(slot)
                &&& self.step(step)->0.holders == self.holders.insert(slot, t)
            },
            self.given(step) is None ==> self.step(step)->0.holders.dom().subset_of(
                self.holders.dom(),
            ),
    {
        if let PoolStep::Touch { part, t, step } = step {
            self.lemma_touch(part, t, step);
        } else {
            let after = self.step(step)->0;
            assert(forall|slot: u32| #[trigger]
                after.is_held(slot) <==> self.is_held(slot));
            assert(forall|a: int, slot: u32| #[trigger]
                after.is_at(a, slot) <==> self.is_at(a, slot));
            assert forall|slot: u32|
                slot < after.next.len() && !#[trigger] after.is_held(slot) implies exists|a: int|
                after.is_at(a, slot) by {
                assert(!self.is_held(slot));
                let a = choose|a: int| self.is_at(a, slot);
                assert(after.is_at(a, slot));
            }
        }
    }

    proof fn lemma_touch(self, part: int, t: int, step: PartStep)
        requires
            self.valid(),
            self.step(PoolStep::Touch { part, t, step }) is Some,
            self.in_time(PoolStep::Touch { part, t, step }),
        ensures
            self.step(PoolStep::Touch { part, t, step })->0.valid(),
            self.step(PoolStep::Touch { part, t, step })->0.next.len() == self.next.len(),
            self.parts[part].given(t, step) matches Some(slot) ==> slot < self.next.len()
                && !self.is_held(slot),
    {
        let after = self.step(PoolStep::Touch { part, t, step })->0;
        let before = self.parts[part];
        let changed = before.step(t, step)->0;
        before.lemma_step(t, step);
        let taken = before.taken(t, step);
        let given = before.given(t, step);
        assert forall|b: int| 0 <= b < self.parts.len() && b != part implies {
            let other = #[trigger] after.parts[b];
            &&& other.valid()
            &&& other.next() == after.next
            &&& forall|slot: u32| #[trigger] other.spares(slot) <==> self.parts[b].spares(slot)
        } by {
            assert forall|slot: u32|
                slot < after.next.len() && !self.parts[b].spares(slot) implies
                #[trigger] after.next[slot as int] == self.parts[b].next()[slot as int] by {
                assert(self.is_at(b, slot));
                if !before.spares(slot) {
                    assert(self.is_at(part, slot));
                }
            }
            self.parts[b].lemma_with_links(after.next);
        }
        assert forall|slot: u32, b: int| slot < self.next.len() implies (#[trigger] after.is_at(
            b,
            slot,
        ) <==> if b == part {
            (self.is_at(b, slot) && given != Some(slot)) || taken == Some(slot)
        } else {
            self.is_at(b, slot)
        }) by {
            if 0 <= b < self.parts.len() {
                if b == part {
                    assert(after.parts[b] == changed);
                    assert(changed.spares(slot) <==> (before.spares(slot) && taken != Some(slot))
                        || given == Some(slot));
                } else {
                    assert(after.parts[b].spares(slot) <==> self.parts[b].spares(slot));
                }
            }
        }
        if let Some(slot) = given {
            assert(self.is_at(part, slot));
        }
        if let Some(slot) = taken {
            assert(self.is_held(slot));
        }
        assert forall|slot: u32| #[trigger] after.is_held(slot) <==> (self.is_held(slot) && taken
            != Some(slot)) || given == Some(slot) by {}
        assert forall|slot: u32| #[trigger] after.is_held(slot) implies slot < after.next.len() by {
            if given != Some(slot) {
                assert(self.is_held(slot));
            }
        }
        assert forall|slot: u32, a: int| #[trigger]
            after.is_at(a, slot) && slot < after.next.len() implies !after.is_held(slot) by {
            if given == Some(slot) {
                assert(self.is_at(part, slot));
                assert(self.is_at(a, slot));
            } else if taken != Some(slot) {
                assert(self.is_at(a, slot));
            }
        }
        assert forall|slot: u32, a: int, b: int|
            slot < after.next.len() && #[trigger] after.is_at(a, slot) && #[trigger] after.is_at(
                b,
                slot,
            ) implies a == b by {
            if taken == Some(slot) {
                if a != part {
                    assert(self.is_at(a, slot));
                }
                if b != part {
                    assert(self.is_at(b, slot));
                }
            } else {
                assert(self.is_at(a, slot));
                assert(self.is_at(b, slot));
            }
        }
        assert forall|slot: u32|
            slot < after.next.len() && !#[trigger] after.is_held(slot) implies exists|a: int|
            after.is_at(a, slot) by {
            if taken == Some(slot) {
                assert(after.is_at(part, slot));
            } else {
                assert(!self.is_held(slot));
                let a = choose|a: int| self.is_at(a, slot);
                assert(after.is_at(a, slot));
            }
        }
    }

    /// Where the steps lead to, if all of them can be taken and none is stale.
    pub open spec fn run(self, steps: Seq<PoolStep>) -> Option<SharedPool>
        decreases steps.len(),
    {
        if steps.len() == 0 {
            Some(self)
        } else {
            match self.run(steps.drop_last()) {
                Some(before) => if before.in_time(steps.last()) {
                    before.step(steps.last())
                } else {
                    None
                },
                None => None,
            }
        }
    }

    /// Whatever threads do to a pool, in any order: every slot is held by one
    /// thread at most, and then on no list; it is at one list at most; it is one
    /// of these; and the threads hold no more slots than the pool has.
    pub proof fn law_any_run_keeps_the_pool(self, steps: Seq<PoolStep>)
        requires
            self.valid(),
            self.run(steps) is Some,
        ensures
            self.run(steps)->0.valid(),
            self.run(steps)->0.next.len() == self.next.len(),
            self.run(steps)->0.holders.dom().finite(),
            self.run(steps)->0.holders.dom().len() <= self.next.len(),
        decreases steps.len(),
    {
        if steps.len() > 0 {
            self.law_any_run_keeps_the_pool(steps.drop_last());
            let before = self.run(steps.drop_last())->0;
            before.law_no_slot_is_held_twice(steps.last());
        }
        self.run(steps)->0.lemma_few_are_held();
    }

    proof fn lemma_few_are_held(self)
        requires
            self.valid(),
        ensures
            self.holders.dom().finite(),
            self.holders.dom().len() <= self.next.len(),
    {
        let slots = Seq::new(self.next.len(), |i: int| i as u32);
        assert(slots.no_duplicates());
        slots.unique_seq_to_set();
        assert forall|slot: u32| self.holders.dom().contains(slot) implies slots.to_set().contains(
            slot,
        ) by {
            assert(self.is_held(slot));
            assert(slots[slot as int] == slot);
        }
        vstd::set_lib::lemma_len_subset(self.holders.dom(), slots.to_set());
    }

    /// A pool of `cpus` CPUs before its slots are put on the global stack: all
    /// lists are empty, and the thread that makes the pool holds all slots.
    pub open spec fn start(cpus: nat, next: Seq<u32>, threads: nat) -> SharedPool {
        SharedPool {
            next,
            parts: Seq::new(
                2 * cpus + 1,
                |a: int|
                    if a < cpus {
                        Part::Local(SharedList::start(next, threads))
                    } else if a < 2 * cpus {
                        Part::Remote(SharedQueue::start(next, threads))
                    } else {
                        Part::Global(SharedStack::start(next, threads))
                    },
            ),
            holders: Map::new(|slot: u32| slot < next.len(), |slot: u32| 0int),
        }
    }

    /// The start is as it has to be.
    pub proof fn law_start_is_valid(cpus: nat, next: Seq<u32>, threads: nat)
        requires
            next.len() <= NULL,
        ensures
            Self::start(cpus, next, threads).valid(),
    {
        let pool = Self::start(cpus, next, threads);
        SharedList::law_start_is_valid(next, threads);
        SharedQueue::law_start_is_valid(next, threads);
        SharedStack::law_start_is_valid(next, threads);
        assert forall|slot: u32, a: int| slot < next.len() implies !#[trigger] pool.is_at(
            a,
            slot,
        ) by {}
    }
}

} // verus!
