//! The queue under any interleaving of its producers and its consumer.
//!
//! Threads that share a queue through atomic words enqueue and drain by single
//! reads, writes and swaps. Each of these is a step, and steps of different
//! threads may follow each other in any order. What a step decides is what
//! [`mpsc::enqueue_step`](crate::mpsc::enqueue_step) and
//! [`mpsc::drain_step`](crate::mpsc::drain_step) return.
//!
//! A queue has one consumer at a time. Threads that want to drain it swap a flag
//! for that, and one that finds it set goes away.

use crate::chain;
use crate::chain::NULL;
use crate::mpsc;
use vstd::prelude::*;

verus! {

/// How far a producer has got.
pub enum ProducerOp {
    /// Nothing is under way.
    Idle,
    /// About to enqueue, link not cleared yet.
    Enqueuing { index: u32 },
    /// The link of the slot has been cleared.
    Cleared { index: u32 },
    /// The slot is the new back, at place `pos` of all slots ever enqueued.
    /// `prev` has not been linked to it yet.
    Swapped { index: u32, prev: u32, pos: nat },
}

/// How far the consumer has got.
pub enum ConsumerOp {
    /// Nothing is under way.
    Idle,
    /// The front has been read.
    FrontRead { curr: u32 },
    /// Walking from `curr` towards `bound`, which is at place `pos` of all
    /// slots ever enqueued.
    Walking { curr: u32, bound: u32, pos: nat },
}

/// A step of one thread.
pub enum QueueStep {
    /// Producer `t` starts to enqueue a slot that the threads hold.
    BeginEnqueue { t: int, index: u32 },
    /// Producer `t` clears the link of its slot.
    ClearLink { t: int },
    /// Producer `t` swaps its slot for the back.
    SwapBack { t: int },
    /// Producer `t` records its slot behind the previous back, or as front.
    LinkBack { t: int },
    /// Thread `t` sets the flag. It is the consumer, unless the flag was set.
    Claim { t: int },
    /// The consumer reads the front. If that is null, the drain is over.
    ReadFront { t: int },
    /// The consumer reads the back.
    ReadBack { t: int },
    /// The consumer reads the link of its slot and, unless it has to stay,
    /// consumes the slot.
    Advance { t: int },
    /// The consumer stops and writes the front.
    WriteFront { t: int },
    /// The consumer resets the flag.
    Release { t: int },
}

/// A queue and the threads that share it.
pub struct SharedQueue {
    /// The back word.
    pub back: u32,
    /// The front word.
    pub front: u32,
    /// The links.
    pub next: Seq<u32>,
    /// The slots in the queue, oldest first.
    pub items: Seq<u32>,
    /// How many slots have been consumed so far.
    pub consumed: nat,
    /// For each place whose slot is in the queue but not recorded yet, the
    /// producer that has to do so.
    pub unlinked: Map<nat, int>,
    /// The slots that the threads hold: consumed, and not about to be enqueued.
    pub held: Set<u32>,
    /// What each producer does.
    pub producers: Seq<ProducerOp>,
    /// The thread that is the consumer, while the flag is set.
    pub drainer: Option<int>,
    /// What the consumer does.
    pub consumer: ConsumerOp,
}

impl ProducerOp {
    /// The slot that the producer is about to enqueue.
    pub open spec fn carried(self) -> Option<u32> {
        match self {
            ProducerOp::Enqueuing { index } => Some(index),
            ProducerOp::Cleared { index } => Some(index),
            _ => None,
        }
    }
}

impl SharedQueue {
    /// The state where producer `t` has got to `op`.
    pub open spec fn with_producer(self, t: int, op: ProducerOp) -> SharedQueue {
        SharedQueue { producers: self.producers.update(t, op), ..self }
    }

    /// The state where the links are `next`.
    pub open spec fn with_links(self, next: Seq<u32>) -> SharedQueue {
        SharedQueue { next, ..self }
    }

    /// The slot that a step takes from the threads.
    pub open spec fn taken(self, step: QueueStep) -> Option<u32> {
        match step {
            QueueStep::BeginEnqueue { index, .. } => Some(index),
            _ => None,
        }
    }

    /// The slot that a step gives to the consumer.
    pub open spec fn given(self, step: QueueStep) -> Option<u32> {
        match (self.consumer, step) {
            (ConsumerOp::Walking { curr, bound, .. }, QueueStep::Advance { .. }) => if mpsc::follower(
                curr,
                bound,
                self.next[curr as int],
            ) is Some {
                Some(curr)
            } else {
                None
            },
            _ => None,
        }
    }

    /// What a step leads to. `None` if it cannot be taken.
    pub open spec fn step(self, step: QueueStep) -> Option<SharedQueue> {
        match step {
            QueueStep::BeginEnqueue { t, index } => if 0 <= t < self.producers.len()
                && self.producers[t] is Idle && self.held.contains(index) {
                Some(
                    SharedQueue {
                        held: self.held.remove(index),
                        ..self.with_producer(t, ProducerOp::Enqueuing { index })
                    },
                )
            } else {
                None
            },
            QueueStep::ClearLink { t } => if 0 <= t < self.producers.len() {
                match self.producers[t] {
                    ProducerOp::Enqueuing { index } => Some(
                        SharedQueue {
                            next: self.next.update(index as int, NULL),
                            ..self.with_producer(t, ProducerOp::Cleared { index })
                        },
                    ),
                    _ => None,
                }
            } else {
                None
            },
            QueueStep::SwapBack { t } => if 0 <= t < self.producers.len() {
                match self.producers[t] {
                    ProducerOp::Cleared { index } => Some(
                        SharedQueue {
                            back: index,
                            items: self.items.push(index),
                            unlinked: self.unlinked.insert(self.consumed + self.items.len(), t),
                            ..self.with_producer(
                                t,
                                ProducerOp::Swapped {
                                    index,
                                    prev: self.back,
                                    pos: self.consumed + self.items.len(),
                                },
                            )
                        },
                    ),
                    _ => None,
                }
            } else {
                None
            },
            QueueStep::LinkBack { t } => if 0 <= t < self.producers.len() {
                match self.producers[t] {
                    ProducerOp::Swapped { index, prev, pos } => if prev != NULL {
                        Some(
                            SharedQueue {
                                next: self.next.update(prev as int, index),
                                unlinked: self.unlinked.remove(pos),
                                ..self.with_producer(t, ProducerOp::Idle)
                            },
                        )
                    } else {
                        Some(
                            SharedQueue {
                                front: index,
                                unlinked: self.unlinked.remove(pos),
                                ..self.with_producer(t, ProducerOp::Idle)
                            },
                        )
                    },
                    _ => None,
                }
            } else {
                None
            },
            QueueStep::Claim { t } => if 0 <= t < self.producers.len() && self.drainer != Some(t) {
                if self.drainer is None {
                    Some(SharedQueue { drainer: Some(t), ..self })
                } else {
                    Some(self)
                }
            } else {
                None
            },
            QueueStep::ReadFront { t } => if self.drainer == Some(t) && self.consumer is Idle {
                if self.front == NULL {
                    Some(self)
                } else {
                    Some(
                        SharedQueue { consumer: ConsumerOp::FrontRead { curr: self.front }, ..self },
                    )
                }
            } else {
                None
            },
            QueueStep::ReadBack { t } => match self.consumer {
                ConsumerOp::FrontRead { curr } if self.drainer == Some(t) => Some(
                    SharedQueue {
                        consumer: ConsumerOp::Walking {
                            curr,
                            bound: self.back,
                            pos: (self.consumed + self.items.len() - 1) as nat,
                        },
                        ..self
                    },
                ),
                _ => None,
            },
            QueueStep::Advance { t } => match self.consumer {
                ConsumerOp::Walking { curr, bound, pos } if self.drainer == Some(
                    t,
                ) => match mpsc::follower(
                    curr,
                    bound,
                    self.next[curr as int],
                ) {
                    None => Some(self),
                    Some(onward) => Some(
                        SharedQueue {
                            items: self.items.subrange(1, self.items.len() as int),
                            consumed: self.consumed + 1,
                            held: self.held.insert(curr),
                            consumer: ConsumerOp::Walking { curr: onward, bound, pos },
                            ..self
                        },
                    ),
                },
                _ => None,
            },
            QueueStep::WriteFront { t } => match self.consumer {
                ConsumerOp::Walking { curr, .. } if self.drainer == Some(t) => Some(
                    SharedQueue { front: curr, consumer: ConsumerOp::Idle, ..self },
                ),
                _ => None,
            },
            QueueStep::Release { t } => if self.drainer == Some(t) && self.consumer is Idle {
                Some(SharedQueue { drainer: None, ..self })
            } else {
                None
            },
        }
    }

    /// The slot at place `pos` of all slots ever enqueued.
    pub open spec fn at(self, pos: nat) -> u32 {
        self.items[pos - self.consumed]
    }

    /// Place `pos` is in the queue.
    pub open spec fn queued(self, pos: nat) -> bool {
        self.consumed <= pos < self.consumed + self.items.len()
    }

    /// What is true of producer `t` at all times.
    pub open spec fn producer_valid(self, t: int) -> bool {
        let op = self.producers[t];
        &&& op.carried() matches Some(index) ==> index < self.next.len() && !self.items.contains(
            index,
        ) && !self.held.contains(index)
        &&& op matches ProducerOp::Cleared { index } ==> self.next[index as int] == NULL
        &&& op matches ProducerOp::Swapped { index, prev, pos } ==> {
            &&& self.queued(pos)
            &&& self.at(pos) == index
            &&& self.unlinked.dom().contains(pos)
            &&& self.unlinked[pos] == t
            &&& prev == NULL <==> pos == 0
            &&& prev != NULL ==> self.queued((pos - 1) as nat) && self.at((pos - 1) as nat) == prev
        }
    }

    /// What is true of the links at all times: a slot is linked to the one
    /// behind it as soon as that has been recorded, and to nothing before.
    pub open spec fn links_valid(self) -> bool {
        &&& forall|i: int|
            #![trigger self.items[i]]
            0 <= i < self.items.len() ==> self.next[self.items[i] as int] == (if i + 1
                < self.items.len() && !self.unlinked.dom().contains(
                (self.consumed + i + 1) as nat,
            ) {
                self.items[i + 1]
            } else {
                NULL
            })
        &&& forall|pos: nat| #[trigger]
            self.unlinked.dom().contains(pos) ==> self.queued(pos) && 0 <= self.unlinked[pos]
                < self.producers.len() && self.producers[self.unlinked[pos]] is Swapped
                && self.producers[self.unlinked[pos]]->pos == pos
    }

    /// What is true of the front and the consumer at all times.
    pub open spec fn front_valid(self) -> bool {
        &&& self.front == NULL <==> self.items.len() == 0 || self.unlinked.dom().contains(0)
        &&& self.unlinked.dom().contains(0) ==> self.consumed == 0
        &&& match self.consumer {
            ConsumerOp::Idle => self.front != NULL ==> self.front == self.items[0],
            ConsumerOp::FrontRead { curr } => {
                &&& self.items.len() > 0
                &&& self.front == self.items[0]
                &&& curr == self.items[0]
                &&& self.front != NULL
            },
            ConsumerOp::Walking { curr, bound, pos } => {
                &&& self.items.len() > 0
                &&& curr == self.items[0]
                &&& self.front != NULL
                &&& self.queued(pos)
                &&& self.at(pos) == bound
            },
        }
    }

    /// What is true at all times: the words and the links hold the queue, as
    /// far as its producers have recorded it, and every slot is in the queue,
    /// or held, or carried by one producer, and never two of these.
    pub open spec fn valid(self) -> bool {
        &&& self.next.len() <= NULL
        &&& self.items.no_duplicates()
        &&& forall|i: int|
            #![trigger self.items[i]]
            0 <= i < self.items.len() ==> self.items[i] < self.next.len()
        &&& self.back == chain::last_of(self.items)
        &&& self.consumed > 0 ==> self.items.len() > 0
        &&& self.drainer is None ==> self.consumer is Idle
        &&& self.drainer matches Some(t) ==> 0 <= t < self.producers.len()
        &&& self.links_valid()
        &&& self.front_valid()
        &&& forall|slot: u32| #[trigger]
            self.held.contains(slot) ==> slot < self.next.len() && !self.items.contains(slot)
        &&& forall|t: int|
            #![trigger self.producers[t]]
            0 <= t < self.producers.len() ==> self.producer_valid(t)
        &&& forall|t: int, u: int|
            0 <= t < self.producers.len() && 0 <= u < self.producers.len() && t != u && (
            #[trigger] self.producers[t]).carried() is Some ==> self.producers[t].carried() != (
            #[trigger] self.producers[u]).carried()
    }

    /// Two producers carry different slots as long as producer `t`, which alone
    /// has moved, carries what it did or nothing.
    proof fn lemma_carried_once(self, after: SharedQueue, t: int)
        requires
            self.valid(),
            0 <= t < self.producers.len(),
            after.producers == self.producers.update(t, after.producers[t]),
            after.producers[t].carried() is None || after.producers[t].carried()
                == self.producers[t].carried(),
        ensures
            forall|u: int, v: int|
                0 <= u < after.producers.len() && 0 <= v < after.producers.len() && u != v && (
                #[trigger] after.producers[u]).carried() is Some ==> after.producers[u].carried()
                    != (#[trigger] after.producers[v]).carried(),
    {
        assert forall|u: int, v: int|
            0 <= u < after.producers.len() && 0 <= v < after.producers.len() && u != v && (
            #[trigger] after.producers[u]).carried() is Some implies after.producers[u].carried()
            != (#[trigger] after.producers[v]).carried() by {
            assert(self.producers[u].carried() != self.producers[v].carried());
        }
    }

    proof fn lemma_begin_enqueue(self, t: int, index: u32)
        requires
            self.valid(),
            self.step(QueueStep::BeginEnqueue { t, index }) is Some,
        ensures
            self.step(QueueStep::BeginEnqueue { t, index })->0.valid(),
    {
        let after = self.step(QueueStep::BeginEnqueue { t, index })->0;
        assert forall|u: int| #![trigger after.producers[u]] 0 <= u < after.producers.len() implies
            after.producer_valid(u) by {
            assert(self.producer_valid(u));
        }
        assert forall|u: int, v: int|
            0 <= u < after.producers.len() && 0 <= v < after.producers.len() && u != v && (
            #[trigger] after.producers[u]).carried() is Some implies after.producers[u].carried()
            != (#[trigger] after.producers[v]).carried() by {
            assert(self.producer_valid(u));
            assert(self.producer_valid(v));
            assert(self.producers[u].carried() is Some ==> self.producers[u].carried()
                != self.producers[v].carried());
        }
    }

    proof fn lemma_clear_link(self, t: int)
        requires
            self.valid(),
            self.step(QueueStep::ClearLink { t }) is Some,
        ensures
            self.step(QueueStep::ClearLink { t })->0.valid(),
    {
        let after = self.step(QueueStep::ClearLink { t })->0;
        assert(self.producer_valid(t));
        assert forall|i: int| 0 <= i < self.items.len() implies #[trigger] self.items[i]
            != self.producers[t].carried()->0 by {
            assert(self.items.contains(self.items[i]));
        }
        assert forall|u: int| #![trigger after.producers[u]] 0 <= u < after.producers.len() implies
            after.producer_valid(u) by {
            assert(self.producer_valid(u));
        }
        self.lemma_carried_once(after, t);
    }

    proof fn lemma_swap_back(self, t: int)
        requires
            self.valid(),
            self.step(QueueStep::SwapBack { t }) is Some,
        ensures
            self.step(QueueStep::SwapBack { t })->0.valid(),
    {
        let after = self.step(QueueStep::SwapBack { t })->0;
        let end = self.items.len() as int;
        let here = self.consumed + self.items.len();
        assert(self.producer_valid(t));
        let index = self.producers[t].carried()->0;
        assert forall|i: int| 0 <= i < self.items.len() implies #[trigger] self.items[i]
            != index by {
            assert(self.items.contains(self.items[i]));
        }
        assert forall|slot: u32| after.items.contains(slot) implies slot == index
            || self.items.contains(slot) by {
            let i = choose|i: int| 0 <= i < after.items.len() && after.items[i] == slot;
            if i < end {
                assert(self.items[i] == slot);
            }
        }
        assert(!self.unlinked.dom().contains(here));
        assert forall|i: int| #![trigger after.items[i]] 0 <= i < after.items.len() implies
            after.next[after.items[i] as int] == (if i + 1 < after.items.len()
            && !after.unlinked.dom().contains((after.consumed + i + 1) as nat) {
            after.items[i + 1]
        } else {
            NULL
        }) by {
            if i < end {
                assert(self.items[i] == after.items[i]);
            }
        }
        assert forall|pos: nat| #[trigger] after.unlinked.dom().contains(pos) implies after.queued(
            pos,
        ) && 0 <= after.unlinked[pos] < after.producers.len()
            && after.producers[after.unlinked[pos]] is Swapped
            && after.producers[after.unlinked[pos]]->pos == pos by {
            if pos != here {
                assert(self.unlinked.dom().contains(pos));
            }
        }
        assert forall|u: int| #![trigger after.producers[u]] 0 <= u < after.producers.len() implies
            after.producer_valid(u) by {
            assert(self.producer_valid(u));
            if u != t {
                assert(self.producers[t].carried() != self.producers[u].carried());
            }
        }
        self.lemma_carried_once(after, t);
        assert forall|slot: u32| #[trigger] after.held.contains(slot) implies slot
            < after.next.len() && !after.items.contains(slot) by {}
        if end > 0 {
            assert(after.items[0] == self.items[0]);
        }
    }

    proof fn lemma_link_back(self, t: int)
        requires
            self.valid(),
            self.step(QueueStep::LinkBack { t }) is Some,
        ensures
            self.step(QueueStep::LinkBack { t })->0.valid(),
    {
        let after = self.step(QueueStep::LinkBack { t })->0;
        assert(self.producer_valid(t));
        let index = self.producers[t]->Swapped_index;
        let prev = self.producers[t]->prev;
        let pos = self.producers[t]->pos;
        assert forall|i: int| #![trigger after.items[i]] 0 <= i < after.items.len() implies
            after.next[after.items[i] as int] == (if i + 1 < after.items.len()
            && !after.unlinked.dom().contains((after.consumed + i + 1) as nat) {
            after.items[i + 1]
        } else {
            NULL
        }) by {
            let here = self.items[i];
            if prev != NULL {
                let before = self.items[pos - 1 - self.consumed];
                if i != pos - 1 - self.consumed {
                    assert(here != before);
                }
            }
        }
        assert forall|p: nat| #[trigger] after.unlinked.dom().contains(p) implies after.queued(p)
            && 0 <= after.unlinked[p] < after.producers.len() && after.producers[after.unlinked[p]]
            is Swapped && after.producers[after.unlinked[p]]->pos == p by {
            assert(self.unlinked.dom().contains(p));
        }
        assert forall|u: int| #![trigger after.producers[u]] 0 <= u < after.producers.len() implies
            after.producer_valid(u) by {
            assert(self.producer_valid(u));
            if u != t {
                if let ProducerOp::Cleared { index: other } = self.producers[u] {
                    if prev != NULL {
                        assert(self.items.contains(self.items[pos - 1 - self.consumed]));
                    }
                }
            }
        }
        self.lemma_carried_once(after, t);
        if prev == NULL {
            assert(self.items[0] == index);
            assert(index < self.next.len());
        }
    }

    proof fn lemma_advance(self, t: int, curr: u32, bound: u32, pos: nat)
        requires
            self.valid(),
            self.consumer == (ConsumerOp::Walking { curr, bound, pos }),
            self.drainer == Some(t),
            curr != bound,
            self.next[curr as int] != NULL,
        ensures
            self.step(QueueStep::Advance { t })->0.valid(),
            self.items.len() > 1,
            curr == self.items[0],
            !self.held.contains(curr),
    {
        let after = self.step(QueueStep::Advance { t })->0;
        assert(self.items[0] == curr);
        assert(self.items.contains(self.items[0]));
        assert(!self.unlinked.dom().contains((self.consumed + 1) as nat));
        assert(!self.unlinked.dom().contains(self.consumed)) by {
            if self.unlinked.dom().contains(self.consumed) {
                let t = self.unlinked[self.consumed];
                assert(self.producer_valid(t));
            }
        }
        assert forall|i: int| #![trigger after.items[i]] 0 <= i < after.items.len() implies
            after.items[i] < after.next.len() && after.items[i] != curr
            && after.next[after.items[i] as int] == (if i + 1 < after.items.len()
            && !after.unlinked.dom().contains((after.consumed + i + 1) as nat) {
            after.items[i + 1]
        } else {
            NULL
        }) by {
            assert(after.items[i] == self.items[i + 1]);
            assert(self.items[i + 1] != self.items[0]);
        }
        assert forall|slot: u32| after.items.contains(slot) implies slot != curr
            && self.items.contains(slot) by {
            let i = choose|i: int| 0 <= i < after.items.len() && after.items[i] == slot;
            assert(self.items[i + 1] == slot);
        }
        assert forall|p: nat| #[trigger] after.unlinked.dom().contains(p) implies after.queued(p)
            && 0 <= after.unlinked[p] < after.producers.len() && after.producers[after.unlinked[p]]
            is Swapped && after.producers[after.unlinked[p]]->pos == p by {
            assert(self.unlinked.dom().contains(p));
        }
        assert forall|u: int| #![trigger after.producers[u]] 0 <= u < after.producers.len() implies
            after.producer_valid(u) by {
            assert(self.producer_valid(u));
            if let ProducerOp::Swapped { index, prev, pos: p } = self.producers[u] {
                assert(self.unlinked.dom().contains(p));
            }
        }
        assert(after.producers =~= self.producers.update(t, after.producers[t]));
        self.lemma_carried_once(after, t);
        assert forall|slot: u32| #[trigger] after.held.contains(slot) implies slot
            < after.next.len() && !after.items.contains(slot) by {}
    }

    /// Steps of producers and of the consumer, in any order, keep the queue
    /// intact: a step either leaves the queue as it is, or puts a slot behind
    /// it that was in no queue and held by no other thread, or takes the
    /// oldest slot, which nobody else holds then. The slot at the back is
    /// never taken.
    pub proof fn law_steps_keep_the_queue(self, step: QueueStep)
        requires
            self.valid(),
            self.step(step) is Some,
        ensures
            ({
                let after = self.step(step)->0;
                &&& after.valid()
                &&& {
                    ||| after.items == self.items
                    ||| {
                        &&& step matches QueueStep::SwapBack { t } && self.producers[t].carried()
                            is Some && !self.items.contains(self.producers[t].carried()->0)
                            && after.items == self.items.push(self.producers[t].carried()->0)
                    }
                    ||| {
                        &&& step is Advance
                        &&& self.items.len() > 1
                        &&& !self.held.contains(self.items[0])
                        &&& after.items == self.items.subrange(1, self.items.len() as int)
                        &&& after.held == self.held.insert(self.items[0])
                    }
                }
            }),
    {
        let after = self.step(step)->0;
        match step {
            QueueStep::BeginEnqueue { t, index } => {
                self.lemma_begin_enqueue(t, index);
            },
            QueueStep::ClearLink { t } => {
                self.lemma_clear_link(t);
            },
            QueueStep::SwapBack { t } => {
                self.lemma_swap_back(t);
                assert(self.producer_valid(t));
            },
            QueueStep::LinkBack { t } => {
                self.lemma_link_back(t);
            },
            QueueStep::Advance { t } => {
                if let ConsumerOp::Walking { curr, bound, pos } = self.consumer {
                    if curr != bound && self.next[curr as int] != NULL {
                        self.lemma_advance(t, curr, bound, pos);
                    }
                }
            },
            _ => {
                assert forall|u: int|
                    #![trigger after.producers[u]]
                    0 <= u < after.producers.len() implies after.producer_valid(u) by {
                    assert(self.producer_valid(u));
                }
            },
        }
    }

    /// A step takes a slot that the threads hold, or gives them one that they
    /// do not hold, or neither, and it writes no link of a slot that they hold.
    pub proof fn law_steps_exchange_slots(self, step: QueueStep)
        requires
            self.valid(),
            self.step(step) is Some,
        ensures
            ({
                let after = self.step(step)->0;
                &&& after.producers.len() == self.producers.len()
                &&& after.next.len() == self.next.len()
                &&& forall|slot: u32| #[trigger]
                    self.held.contains(slot) ==> after.next[slot as int] == self.next[slot as int]
                &&& match (self.taken(step), self.given(step)) {
                    (Some(slot), None) => self.held.contains(slot) && after.held
                        == self.held.remove(slot),
                    (None, Some(slot)) => slot < self.next.len() && !self.held.contains(slot)
                        && after.held == self.held.insert(slot),
                    (None, None) => after.held == self.held,
                    _ => false,
                }
            }),
    {
        match step {
            QueueStep::ClearLink { t } => {
                assert(self.producer_valid(t));
            },
            QueueStep::LinkBack { t } => {
                assert(self.producer_valid(t));
                let pos = self.producers[t]->pos;
                if self.producers[t]->prev != NULL {
                    assert(self.items.contains(self.items[pos - 1 - self.consumed]));
                }
            },
            QueueStep::Advance { t } => {
                if let ConsumerOp::Walking { curr, bound, pos } = self.consumer {
                    if curr != bound && self.next[curr as int] != NULL {
                        self.lemma_advance(t, curr, bound, pos);
                        assert(self.items[0] < self.next.len());
                    }
                }
            },
            _ => {},
        }
    }

    /// What threads write into the links of slots that they hold does not
    /// matter to the queue.
    pub proof fn law_other_links_do_not_matter(self, next: Seq<u32>)
        requires
            self.valid(),
            next.len() == self.next.len(),
            forall|slot: u32|
                slot < next.len() && !self.held.contains(slot) ==> #[trigger] next[slot as int]
                    == self.next[slot as int],
        ensures
            self.with_links(next).valid(),
    {
        let after = self.with_links(next);
        assert forall|i: int| #![trigger after.items[i]] 0 <= i < after.items.len() implies
            after.next[after.items[i] as int] == (if i + 1 < after.items.len()
            && !after.unlinked.dom().contains((after.consumed + i + 1) as nat) {
            after.items[i + 1]
        } else {
            NULL
        }) by {
            assert(self.items.contains(self.items[i]));
            assert(next[self.items[i] as int] == self.next[self.items[i] as int]);
        }
        assert forall|u: int| #![trigger after.producers[u]] 0 <= u < after.producers.len() implies
            after.producer_valid(u) by {
            assert(self.producer_valid(u));
        }
    }

    /// The step by which a producer goes on that has something under way.
    pub open spec fn next_step(self, t: int) -> QueueStep {
        match self.producers[t] {
            ProducerOp::Swapped { .. } => QueueStep::LinkBack { t },
            ProducerOp::Cleared { .. } => QueueStep::SwapBack { t },
            _ => QueueStep::ClearLink { t },
        }
    }

    /// The step by which the consumer goes on.
    pub open spec fn next_drain_step(self, t: int) -> QueueStep {
        match self.consumer {
            ConsumerOp::Idle => QueueStep::ReadFront { t },
            ConsumerOp::FrontRead { .. } => QueueStep::ReadBack { t },
            ConsumerOp::Walking { .. } => QueueStep::Advance { t },
        }
    }

    /// How many steps a producer has to take before its slot is enqueued.
    pub open spec fn steps_left(op: ProducerOp) -> nat {
        match op {
            ProducerOp::Idle => 0,
            ProducerOp::Enqueuing { .. } => 3,
            ProducerOp::Cleared { .. } => 2,
            ProducerOp::Swapped { .. } => 1,
        }
    }

    /// No thread ever waits for another: a producer is done after three steps,
    /// whatever the others do, the consumer can always go on or stop, and a
    /// thread that wants to drain can always ask.
    pub proof fn law_no_thread_waits(self, t: int)
        requires
            0 <= t < self.producers.len(),
        ensures
            !(self.producers[t] is Idle) ==> {
                &&& self.step(self.next_step(t)) is Some
                &&& Self::steps_left(self.step(self.next_step(t))->0.producers[t]) + 1
                    == Self::steps_left(self.producers[t])
            },
            self.drainer == Some(t) ==> self.step(self.next_drain_step(t)) is Some,
            self.drainer == Some(t) && self.consumer is Walking ==> self.step(
                QueueStep::WriteFront { t },
            ) is Some,
            self.drainer != Some(t) ==> self.step(QueueStep::Claim { t }) is Some,
    {
    }

    /// Nothing gets stuck: once no producer is under way, the consumer goes on
    /// until it has reached its bound.
    pub proof fn law_settled_queue_is_linked(self, curr: u32, bound: u32, pos: nat)
        requires
            self.valid(),
            forall|t: int|
                0 <= t < self.producers.len() ==> !((#[trigger] self.producers[t]) is Swapped),
            self.consumer == (ConsumerOp::Walking { curr, bound, pos }),
            curr != bound,
        ensures
            self.next[curr as int] == self.items[1],
            self.next[curr as int] != NULL,
    {
        assert(self.items[0] == curr);
        assert(!self.unlinked.dom().contains((self.consumed + 1) as nat)) by {
            if self.unlinked.dom().contains((self.consumed + 1) as nat) {
                let t = self.unlinked[(self.consumed + 1) as nat];
                assert(self.producers[t] is Swapped);
            }
        }
        assert(self.items[1] < self.next.len());
    }

    /// Where the threads start: the queue is empty, and they hold all slots.
    pub open spec fn start(next: Seq<u32>, producers: nat) -> SharedQueue {
        SharedQueue {
            back: NULL,
            front: NULL,
            next,
            items: Seq::empty(),
            consumed: 0,
            unlinked: Map::empty(),
            held: Set::new(|slot: u32| slot < next.len()),
            producers: Seq::new(producers, |t: int| ProducerOp::Idle),
            drainer: None,
            consumer: ConsumerOp::Idle,
        }
    }

    /// The start is as it has to be.
    pub proof fn law_start_is_valid(next: Seq<u32>, producers: nat)
        requires
            next.len() <= NULL,
        ensures
            Self::start(next, producers).valid(),
    {
    }

    /// `slot` is in the queue, or held, or carried by a producer.
    pub open spec fn has(self, slot: u32) -> bool {
        ||| self.items.contains(slot)
        ||| self.held.contains(slot)
        ||| exists|t: int|
            0 <= t < self.producers.len() && (#[trigger] self.producers[t]).carried() == Some(slot)
    }

    /// Steps of threads, in any order, lose no slot and make up none.
    pub proof fn law_steps_lose_no_slot(self, step: QueueStep, slot: u32)
        requires
            self.valid(),
            self.step(step) is Some,
        ensures
            self.step(step)->0.has(slot) <==> self.has(slot),
    {
        let after = self.step(step)->0;
        self.law_steps_keep_the_queue(step);
        let t = match step {
            QueueStep::BeginEnqueue { t, .. } => t,
            QueueStep::ClearLink { t } => t,
            QueueStep::SwapBack { t } => t,
            QueueStep::LinkBack { t } => t,
            _ => -1,
        };
        if self.has(slot) {
            if self.items.contains(slot) {
                let i = choose|i: int| 0 <= i < self.items.len() && self.items[i] == slot;
                if after.items.len() >= self.items.len() {
                    assert(after.items[i] == slot);
                } else if i > 0 {
                    assert(after.items[i - 1] == slot);
                }
            } else if self.held.contains(slot) {
                if !after.held.contains(slot) {
                    assert(after.producers[t].carried() == Some(slot));
                }
            } else {
                let u = choose|u: int|
                    0 <= u < self.producers.len() && (#[trigger] self.producers[u]).carried()
                        == Some(slot);
                if u != t {
                    assert(after.producers[u].carried() == Some(slot));
                } else if after.producers[t].carried() != Some(slot) {
                    assert(after.items[self.items.len() as int] == slot);
                }
            }
        }
        if after.has(slot) {
            if after.items.contains(slot) {
                let i = choose|i: int| 0 <= i < after.items.len() && after.items[i] == slot;
                if after.items.len() < self.items.len() {
                    assert(self.items[i + 1] == slot);
                } else if i < self.items.len() {
                    assert(self.items[i] == slot);
                } else {
                    assert(self.producers[t].carried() == Some(slot));
                }
            } else if after.held.contains(slot) {
                if !self.held.contains(slot) {
                    assert(self.items[0] == slot);
                }
            } else {
                let u = choose|u: int|
                    0 <= u < after.producers.len() && (#[trigger] after.producers[u]).carried()
                        == Some(slot);
                if u != t {
                    assert(self.producers[u].carried() == Some(slot));
                } else if self.producers[t].carried() != Some(slot) {
                    assert(self.held.contains(slot));
                }
            }
        }
    }
}

} // verus!
