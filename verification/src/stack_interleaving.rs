//! The stack under any interleaving of threads.
//!
//! Threads that share a stack through atomic words push and pop by single
//! reads, writes and compare-and-swaps. Each of these is a step, and steps of
//! different threads may follow each other in any order. What a step computes
//! is what [`treiber::push_step`], [`treiber::pop_candidate`] and
//! [`treiber::pop_step`] return.

use crate::chain;
use crate::chain::NULL;
use crate::treiber;
use vstd::prelude::*;

verus! {

/// How far a thread has got. `at` is the number of changes of the head at the
/// time when the thread read it.
pub enum StackOp {
    /// Nothing is under way.
    Idle,
    /// About to push, head not read yet.
    Pushing { index: u32 },
    /// Push: the head has been read.
    PushRead { index: u32, seen: u64, at: nat },
    /// Push: the slot has been linked to what was read.
    PushLinked { index: u32, seen: u64, at: nat },
    /// Pop: the head has been read, and it names a slot.
    PopRead { seen: u64, at: nat },
    /// Pop: the link of that slot has been read.
    PopLinked { seen: u64, at: nat, link: u32 },
}

/// A step of one thread. `spurious` compare-and-swaps fail in any case.
pub enum StackStep {
    /// Start to push a slot that the threads hold.
    BeginPush { index: u32 },
    /// Read the head for a push.
    ReadForPush,
    /// Write the link of the slot to be pushed.
    WriteLink,
    /// Compare-and-swap of a push.
    SwapForPush { spurious: bool },
    /// Read the head for a pop. If the stack is empty, that ends the pop.
    ReadForPop,
    /// Read the link of the slot to be popped.
    ReadLink,
    /// Compare-and-swap of a pop.
    SwapForPop { spurious: bool },
}

/// A stack and the threads that share it.
pub struct SharedStack {
    /// The head word.
    pub head: u64,
    /// How often the head has changed.
    pub changes: nat,
    /// The links.
    pub next: Seq<u32>,
    /// The slots on the stack, top first.
    pub items: Seq<u32>,
    /// The slots that the threads hold: popped, and not about to be pushed.
    pub held: Set<u32>,
    /// What each thread does.
    pub ops: Seq<StackOp>,
}

impl StackOp {
    /// The slot that the thread is about to push.
    pub open spec fn carried(self) -> Option<u32> {
        match self {
            StackOp::Pushing { index } => Some(index),
            StackOp::PushRead { index, .. } => Some(index),
            StackOp::PushLinked { index, .. } => Some(index),
            _ => None,
        }
    }

    /// The head that the thread has read, and when.
    pub open spec fn read(self) -> Option<(u64, nat)> {
        match self {
            StackOp::PushRead { seen, at, .. } => Some((seen, at)),
            StackOp::PushLinked { seen, at, .. } => Some((seen, at)),
            StackOp::PopRead { seen, at } => Some((seen, at)),
            StackOp::PopLinked { seen, at, .. } => Some((seen, at)),
            _ => None,
        }
    }
}

impl SharedStack {
    /// The state where thread `t` has got to `op`.
    pub open spec fn with_op(self, t: int, op: StackOp) -> SharedStack {
        SharedStack { ops: self.ops.update(t, op), ..self }
    }

    /// The state where the links are `next`.
    pub open spec fn with_links(self, next: Seq<u32>) -> SharedStack {
        SharedStack { next, ..self }
    }

    /// The slot that a step takes from the threads.
    pub open spec fn taken(self, t: int, step: StackStep) -> Option<u32> {
        match step {
            StackStep::BeginPush { index } => Some(index),
            _ => None,
        }
    }

    /// The slot that a step gives to thread `t`.
    pub open spec fn given(self, t: int, step: StackStep) -> Option<u32> {
        match (self.ops[t], step) {
            (StackOp::PopLinked { seen, .. }, StackStep::SwapForPop { spurious }) => if self.head
                == seen && !spurious {
                Some(treiber::head_index(seen))
            } else {
                None
            },
            _ => None,
        }
    }

    /// What a step of thread `t` leads to. `None` if the thread cannot take it.
    pub open spec fn step(self, t: int, step: StackStep) -> Option<SharedStack> {
        match (self.ops[t], step) {
            (StackOp::Idle, StackStep::BeginPush { index }) => if self.held.contains(index) {
                Some(
                    SharedStack {
                        held: self.held.remove(index),
                        ..self.with_op(t, StackOp::Pushing { index })
                    },
                )
            } else {
                None
            },
            (StackOp::Pushing { index }, StackStep::ReadForPush) => Some(
                self.with_op(t, StackOp::PushRead { index, seen: self.head, at: self.changes }),
            ),
            (StackOp::PushRead { index, seen, at }, StackStep::WriteLink) => Some(
                SharedStack {
                    next: self.next.update(index as int, treiber::head_index(seen)),
                    ..self.with_op(t, StackOp::PushLinked { index, seen, at })
                },
            ),
            (StackOp::PushLinked { index, seen, .. }, StackStep::SwapForPush { spurious }) =>
            if self.head == seen && !spurious {
                Some(
                    SharedStack {
                        head: treiber::swung(seen, index),
                        changes: self.changes + 1,
                        items: seq![index] + self.items,
                        ..self.with_op(t, StackOp::Idle)
                    },
                )
            } else {
                Some(
                    self.with_op(
                        t,
                        StackOp::PushRead { index, seen: self.head, at: self.changes },
                    ),
                )
            },
            (StackOp::Idle, StackStep::ReadForPop) => Some(
                self.with_op(t, self.after_read_for_pop()),
            ),
            (StackOp::PopRead { seen, at }, StackStep::ReadLink) => Some(
                self.with_op(
                    t,
                    StackOp::PopLinked {
                        seen,
                        at,
                        link: self.next[treiber::head_index(seen) as int],
                    },
                ),
            ),
            (StackOp::PopLinked { seen, link, .. }, StackStep::SwapForPop { spurious }) =>
            if self.head == seen && !spurious {
                Some(
                    SharedStack {
                        head: treiber::swung(seen, link),
                        changes: self.changes + 1,
                        items: self.items.subrange(1, self.items.len() as int),
                        held: self.held.insert(treiber::head_index(seen)),
                        ..self.with_op(t, StackOp::Idle)
                    },
                )
            } else {
                Some(self.with_op(t, self.after_read_for_pop()))
            },
            _ => None,
        }
    }

    /// Where a pop gets to when it has just read the head.
    pub open spec fn after_read_for_pop(self) -> StackOp {
        if treiber::head_index(self.head) == NULL {
            StackOp::Idle
        } else {
            StackOp::PopRead { seen: self.head, at: self.changes }
        }
    }

    /// What is true of one thread at all times.
    pub open spec fn op_valid(self, op: StackOp) -> bool {
        &&& op.carried() matches Some(index) ==> index < self.next.len() && !self.items.contains(
            index,
        ) && !self.held.contains(index)
        &&& op.read() matches Some((seen, at)) ==> {
            &&& at <= self.changes
            &&& treiber::head_generation(seen) == treiber::later_generation(0, at)
            &&& at == self.changes ==> seen == self.head
        }
        &&& op matches StackOp::PushLinked { index, seen, .. } ==> self.next[index as int]
            == treiber::head_index(seen)
        &&& op matches StackOp::PopRead { seen, .. } ==> treiber::head_index(seen) != NULL
        &&& op matches StackOp::PopLinked { seen, at, link } ==> {
            &&& treiber::head_index(seen) != NULL
            &&& at == self.changes ==> link == self.next[treiber::head_index(seen) as int]
        }
    }

    /// What is true at all times: the head and the links hold the stack, the
    /// generation counts the changes of the head, and every slot is on the
    /// stack, or held, or carried by one thread, and never two of these.
    pub open spec fn valid(self) -> bool {
        &&& self.next.len() <= NULL
        &&& chain::is_chain(self.next, treiber::head_index(self.head), self.items)
        &&& treiber::head_generation(self.head) == treiber::later_generation(0, self.changes)
        &&& forall|slot: u32| #[trigger]
            self.held.contains(slot) ==> slot < self.next.len() && !self.items.contains(slot)
        &&& forall|t: int| 0 <= t < self.ops.len() ==> self.op_valid(#[trigger] self.ops[t])
        &&& forall|t: int, u: int|
            0 <= t < self.ops.len() && 0 <= u < self.ops.len() && t != u && (
            #[trigger] self.ops[t]).carried() is Some ==> self.ops[t].carried() != (
            #[trigger] self.ops[u]).carried()
    }

    /// Thread `t` has not been overtaken by all the changes that the
    /// generation can tell apart since it read the head.
    pub open spec fn in_time(self, t: int) -> bool {
        self.ops[t].read() matches Some((seen, at)) ==> self.changes - at < 0x1_0000_0000
    }

    /// Steps of threads, in any order, keep the stack intact: a step either
    /// leaves the stack as it is, or puts a slot on top that was on no list
    /// and held by no other thread, or takes the top slot off and gives it to
    /// the thread, which nobody else holds then.
    pub proof fn law_steps_keep_the_stack(self, t: int, step: StackStep)
        requires
            self.valid(),
            0 <= t < self.ops.len(),
            self.in_time(t),
            self.step(t, step) is Some,
        ensures
            ({
                let after = self.step(t, step)->0;
                &&& after.valid()
                &&& {
                    ||| after.items == self.items
                    ||| {
                        &&& self.ops[t].carried() is Some
                        &&& !self.items.contains(self.ops[t].carried()->0)
                        &&& after.items == seq![self.ops[t].carried()->0] + self.items
                    }
                    ||| {
                        &&& self.items.len() > 0
                        &&& !self.held.contains(self.items[0])
                        &&& after.items == self.items.subrange(1, self.items.len() as int)
                        &&& after.held == self.held.insert(self.items[0])
                    }
                }
            }),
    {
        let after = self.step(t, step)->0;
        match (self.ops[t], step) {
            (StackOp::PushRead { index, seen, at }, StackStep::WriteLink) => {
                self.lemma_write_link(t, index, seen, at);
            },
            (StackOp::PushLinked { index, seen, at }, StackStep::SwapForPush { spurious }) => {
                if self.head == seen && !spurious {
                    self.lemma_swap_for_push(t, index, seen, at);
                }
            },
            (StackOp::PopLinked { seen, at, link }, StackStep::SwapForPop { spurious }) => {
                if self.head == seen && !spurious {
                    self.lemma_swap_for_pop(t, seen, at, link);
                }
            },
            _ => {},
        }
    }

    /// A step takes a slot that the threads hold, or gives them one that they
    /// do not hold, or neither, and it writes no link of a slot that they hold.
    pub proof fn law_steps_exchange_slots(self, t: int, step: StackStep)
        requires
            self.valid(),
            0 <= t < self.ops.len(),
            self.in_time(t),
            self.step(t, step) is Some,
        ensures
            ({
                let after = self.step(t, step)->0;
                &&& after.ops.len() == self.ops.len()
                &&& after.next.len() == self.next.len()
                &&& forall|slot: u32| #[trigger]
                    self.held.contains(slot) ==> after.next[slot as int] == self.next[slot as int]
                &&& match (self.taken(t, step), self.given(t, step)) {
                    (Some(slot), None) => self.held.contains(slot) && after.held
                        == self.held.remove(slot),
                    (None, Some(slot)) => slot < self.next.len() && !self.held.contains(slot)
                        && after.held == self.held.insert(slot),
                    (None, None) => after.held == self.held,
                    _ => false,
                }
            }),
    {
        assert(self.op_valid(self.ops[t]));
        if let (StackOp::PopLinked { seen, at, link }, StackStep::SwapForPop { spurious }) = (
            self.ops[t],
            step,
        ) {
            if self.head == seen && !spurious {
                self.lemma_swap_for_pop(t, seen, at, link);
            }
        }
    }

    /// What threads write into the links of slots that they hold does not
    /// matter to the stack.
    pub proof fn law_other_links_do_not_matter(self, next: Seq<u32>)
        requires
            self.valid(),
            next.len() == self.next.len(),
            forall|slot: u32|
                slot < next.len() && !self.held.contains(slot) ==> #[trigger] next[slot as int]
                    == self.next[slot as int],
        ensures
            self.with_links(next).valid(),
    {
        let after = self.with_links(next);
        assert forall|i: int| 0 <= i < self.items.len() implies #[trigger] next[self.items[i] as int]
            == self.next[self.items[i] as int] by {
            assert(self.items.contains(self.items[i]));
        }
        chain::lemma_chain_frame(self.next, next, treiber::head_index(self.head), self.items);
        assert forall|u: int| 0 <= u < after.ops.len() implies after.op_valid(
            #[trigger] after.ops[u],
        ) by {
            assert(self.op_valid(self.ops[u]));
            if let StackOp::PopLinked { seen, at, link } = self.ops[u] {
                if at == self.changes {
                    assert(self.items.len() > 0);
                    assert(self.items.contains(self.items[0]));
                }
            }
        }
    }

    /// A compare-and-swap that is not spurious fails only because another thread
    /// has changed the head since this thread read it.
    pub proof fn law_swap_fails_only_after_another(self, t: int, step: StackStep)
        requires
            self.valid(),
            0 <= t < self.ops.len(),
            self.step(t, step) is Some,
            step == (StackStep::SwapForPush { spurious: false }) || step == (StackStep::SwapForPop {
                spurious: false,
            }),
            self.step(t, step)->0.changes == self.changes,
        ensures
            self.ops[t].read() matches Some((seen, at)) && seen != self.head && at < self.changes,
    {
        assert(self.op_valid(self.ops[t]));
    }

    /// The head changes where a push or a pop is completed, and nowhere else. So,
    /// whenever a thread has to try again, another thread has got something done.
    pub proof fn law_changes_are_completed_operations(self, t: int, step: StackStep)
        requires
            self.valid(),
            0 <= t < self.ops.len(),
            self.step(t, step) is Some,
            self.in_time(t),
        ensures
            ({
                let after = self.step(t, step)->0;
                if after.changes == self.changes {
                    after.head == self.head && after.items == self.items
                } else {
                    &&& after.changes == self.changes + 1
                    &&& !(self.ops[t] is Idle) && after.ops[t] is Idle
                    &&& match self.ops[t].carried() {
                        Some(index) => after.items == seq![index] + self.items,
                        None => self.given(t, step) is Some && after.items.len() + 1
                            == self.items.len(),
                    }
                }
            }),
    {
        self.law_steps_keep_the_stack(t, step);
        if let (StackOp::PopLinked { seen, at, link }, StackStep::SwapForPop { spurious }) = (
            self.ops[t],
            step,
        ) {
            if self.head == seen && !spurious {
                self.lemma_swap_for_pop(t, seen, at, link);
            }
        }
    }

    /// The step by which a thread goes on.
    pub open spec fn next_step(op: StackOp) -> StackStep {
        match op {
            StackOp::Idle => StackStep::ReadForPop,
            StackOp::Pushing { .. } => StackStep::ReadForPush,
            StackOp::PushRead { .. } => StackStep::WriteLink,
            StackOp::PushLinked { .. } => StackStep::SwapForPush { spurious: false },
            StackOp::PopRead { .. } => StackStep::ReadLink,
            StackOp::PopLinked { .. } => StackStep::SwapForPop { spurious: false },
        }
    }

    /// No thread ever waits for another: it can always go on.
    pub proof fn law_no_thread_waits(self, t: int)
        requires
            0 <= t < self.ops.len(),
        ensures
            self.step(t, Self::next_step(self.ops[t])) is Some,
    {
    }

    /// Where the threads start: the stack is empty, and they hold all slots.
    pub open spec fn start(next: Seq<u32>, threads: nat) -> SharedStack {
        SharedStack {
            head: treiber::EMPTY,
            changes: 0,
            next,
            items: Seq::empty(),
            held: Set::new(|slot: u32| slot < next.len()),
            ops: Seq::new(threads, |t: int| StackOp::Idle),
        }
    }

    /// The start is as it has to be.
    pub proof fn law_start_is_valid(next: Seq<u32>, threads: nat)
        requires
            next.len() <= NULL,
        ensures
            Self::start(next, threads).valid(),
    {
        assert((0xffff_ffffu64 & 0xffff_ffff) as u32 == 0xffff_ffffu32) by (bit_vector);
        assert((0xffff_ffffu64 >> 32) as u32 == 0u32) by (bit_vector);
    }

    /// `slot` is on the stack, or held, or carried by a thread.
    pub open spec fn has(self, slot: u32) -> bool {
        ||| self.items.contains(slot)
        ||| self.held.contains(slot)
        ||| exists|t: int|
            0 <= t < self.ops.len() && (#[trigger] self.ops[t]).carried() == Some(slot)
    }

    /// Steps of threads, in any order, lose no slot and make up none.
    pub proof fn law_steps_lose_no_slot(self, t: int, step: StackStep, slot: u32)
        requires
            self.valid(),
            0 <= t < self.ops.len(),
            self.in_time(t),
            self.step(t, step) is Some,
        ensures
            self.step(t, step)->0.has(slot) <==> self.has(slot),
    {
        let after = self.step(t, step)->0;
        self.law_steps_keep_the_stack(t, step);
        assert(self.op_valid(self.ops[t]));
        if let (StackOp::PopLinked { seen, at, link }, StackStep::SwapForPop { spurious }) = (
            self.ops[t],
            step,
        ) {
            if self.head == seen && !spurious {
                self.lemma_swap_for_pop(t, seen, at, link);
            }
        }
        if self.has(slot) {
            if self.items.contains(slot) {
                let i = choose|i: int| 0 <= i < self.items.len() && self.items[i] == slot;
                if after.items.len() > self.items.len() {
                    assert(after.items[i + 1] == slot);
                } else if after.items.len() < self.items.len() && i > 0 {
                    assert(after.items[i - 1] == slot);
                }
            } else if self.held.contains(slot) {
                if !after.held.contains(slot) {
                    assert(after.ops[t].carried() == Some(slot));
                }
            } else {
                let u = choose|u: int|
                    0 <= u < self.ops.len() && (#[trigger] self.ops[u]).carried() == Some(slot);
                if u != t {
                    assert(after.ops[u].carried() == Some(slot));
                } else if after.ops[t].carried() != Some(slot) {
                    assert(after.items[0] == slot);
                }
            }
        }
        if after.has(slot) {
            if after.items.contains(slot) {
                let i = choose|i: int| 0 <= i < after.items.len() && after.items[i] == slot;
                if after.items.len() > self.items.len() {
                    if i > 0 {
                        assert(self.items[i - 1] == slot);
                    } else {
                        assert(self.ops[t].carried() == Some(slot));
                    }
                } else if after.items.len() < self.items.len() {
                    assert(self.items[i + 1] == slot);
                }
            } else if after.held.contains(slot) {
                if !self.held.contains(slot) {
                    assert(self.items[0] == slot);
                }
            } else {
                let u = choose|u: int|
                    0 <= u < after.ops.len() && (#[trigger] after.ops[u]).carried() == Some(slot);
                if u != t {
                    assert(self.ops[u].carried() == Some(slot));
                } else if self.ops[t].carried() != Some(slot) {
                    assert(self.held.contains(slot));
                }
            }
        }
    }

    /// A compare-and-swap that succeeds in time has seen no change.
    proof fn lemma_no_change_since(self, seen: u64, at: nat)
        requires
            self.head == seen,
            at <= self.changes,
            self.changes - at < 0x1_0000_0000,
            treiber::head_generation(seen) == treiber::later_generation(0, at),
            treiber::head_generation(self.head) == treiber::later_generation(0, self.changes),
        ensures
            at == self.changes,
    {
        if at < self.changes {
            let steps = (self.changes - at) as nat;
            let generation = treiber::later_generation(0, at);
            treiber::law_stale_head_is_detected(seen, treiber::head_index(seen), steps);
            treiber::law_pack_after_unpack(seen);
            assert(treiber::later_generation(generation, steps) == treiber::later_generation(
                0,
                self.changes,
            )) by {
                treiber::lemma_generations_add_up(0, at, steps);
            }
        }
    }

    proof fn lemma_write_link(self, t: int, index: u32, seen: u64, at: nat)
        requires
            self.valid(),
            0 <= t < self.ops.len(),
            self.ops[t] == (StackOp::PushRead { index, seen, at }),
        ensures
            self.step(t, StackStep::WriteLink)->0.valid(),
    {
        let after = self.step(t, StackStep::WriteLink)->0;
        assert(self.op_valid(self.ops[t]));
        assert forall|i: int| 0 <= i < self.items.len() implies #[trigger] after.next[self.items[i] as int]
            == self.next[self.items[i] as int] by {
            assert(self.items.contains(self.items[i]));
        }
        chain::lemma_chain_frame(
            self.next,
            after.next,
            treiber::head_index(self.head),
            self.items,
        );
        assert forall|u: int| 0 <= u < after.ops.len() implies after.op_valid(
            #[trigger] after.ops[u],
        ) by {
            assert(self.op_valid(self.ops[u]));
            if u != t {
                assert(self.ops[u].carried() != Some(index));
                if let StackOp::PopLinked { seen: s, at: a, link } = self.ops[u] {
                    if a == self.changes {
                        assert(self.items.len() > 0);
                        assert(self.items.contains(self.items[0]));
                    }
                }
            }
        }
        self.lemma_carried_once(after, t);
    }

    proof fn lemma_swap_for_push(self, t: int, index: u32, seen: u64, at: nat)
        requires
            self.valid(),
            0 <= t < self.ops.len(),
            self.in_time(t),
            self.ops[t] == (StackOp::PushLinked { index, seen, at }),
            self.head == seen,
        ensures
            self.step(t, StackStep::SwapForPush { spurious: false })->0.valid(),
    {
        let after = self.step(t, StackStep::SwapForPush { spurious: false })->0;
        assert(self.op_valid(self.ops[t]));
        chain::lemma_chain_push(self.next, treiber::head_index(self.head), self.items, index);
        assert(self.next.update(index as int, treiber::head_index(self.head)) =~= self.next);
        self.lemma_head_swung(index);
        assert forall|slot: u32| after.items.contains(slot) implies slot == index
            || self.items.contains(slot) by {
            let i = choose|i: int| 0 <= i < after.items.len() && after.items[i] == slot;
            if i > 0 {
                assert(self.items[i - 1] == slot);
            }
        }
        assert forall|u: int| 0 <= u < after.ops.len() implies after.op_valid(
            #[trigger] after.ops[u],
        ) by {
            assert(self.op_valid(self.ops[u]));
            if u != t {
                assert(self.ops[t].carried() != self.ops[u].carried());
            }
        }
        self.lemma_carried_once(after, t);
    }

    proof fn lemma_swap_for_pop(self, t: int, seen: u64, at: nat, link: u32)
        requires
            self.valid(),
            0 <= t < self.ops.len(),
            self.in_time(t),
            self.ops[t] == (StackOp::PopLinked { seen, at, link }),
            self.head == seen,
        ensures
            self.step(t, StackStep::SwapForPop { spurious: false })->0.valid(),
            self.items.len() > 0,
            self.items[0] == treiber::head_index(seen),
            !self.held.contains(self.items[0]),
    {
        let after = self.step(t, StackStep::SwapForPop { spurious: false })->0;
        assert(self.op_valid(self.ops[t]));
        self.lemma_no_change_since(seen, at);
        chain::lemma_chain_pop(self.next, treiber::head_index(self.head), self.items);
        self.lemma_head_swung(link);
        assert(self.items.contains(self.items[0]));
        assert(!after.items.contains(self.items[0])) by {
            if after.items.contains(self.items[0]) {
                let i = choose|i: int|
                    0 <= i < after.items.len() && after.items[i] == self.items[0];
                assert(self.items[i + 1] == self.items[0]);
            }
        }
        assert forall|slot: u32| after.items.contains(slot) implies self.items.contains(slot) by {
            let i = choose|i: int| 0 <= i < after.items.len() && after.items[i] == slot;
            assert(self.items[i + 1] == slot);
        }
        assert forall|u: int| 0 <= u < after.ops.len() implies after.op_valid(
            #[trigger] after.ops[u],
        ) by {
            assert(self.op_valid(self.ops[u]));
        }
        self.lemma_carried_once(after, t);
    }

    /// Two threads carry different slots as long as thread `t`, which alone has
    /// moved, carries what it did or nothing.
    proof fn lemma_carried_once(self, after: SharedStack, t: int)
        requires
            self.valid(),
            0 <= t < self.ops.len(),
            after.ops == self.ops.update(t, after.ops[t]),
            after.ops[t].carried() is None || after.ops[t].carried() == self.ops[t].carried(),
        ensures
            forall|u: int, v: int|
                0 <= u < after.ops.len() && 0 <= v < after.ops.len() && u != v && (
                #[trigger] after.ops[u]).carried() is Some ==> after.ops[u].carried() != (
                #[trigger] after.ops[v]).carried(),
    {
        assert forall|u: int, v: int|
            0 <= u < after.ops.len() && 0 <= v < after.ops.len() && u != v && (
            #[trigger] after.ops[u]).carried() is Some implies after.ops[u].carried() != (
        #[trigger] after.ops[v]).carried() by {
            assert(self.ops[u].carried() != self.ops[v].carried());
        }
    }

    /// The index and the generation of the head after a successful swap.
    proof fn lemma_head_swung(self, index: u32)
        requires
            treiber::head_generation(self.head) == treiber::later_generation(0, self.changes),
        ensures
            treiber::head_index(treiber::swung(self.head, index)) == index,
            treiber::head_generation(treiber::swung(self.head, index))
                == treiber::later_generation(0, self.changes + 1),
    {
        treiber::law_unpack_after_pack(
            index,
            treiber::later_generation(treiber::head_generation(self.head), 1),
        );
        treiber::lemma_generations_add_up(0, self.changes, 1);
    }
}

} // verus!
