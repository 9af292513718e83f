//! A local list under any interleaving of threads.
//!
//! Threads on the CPU of a local list change it in critical sections, and
//! threads that fall back, wherever they are, by compare-and-swaps. Each read or
//! write of a shared word is a step, and steps of different threads may follow
//! each other in any order.
//!
//! The head of a local list has no generation. So a compare-and-swap of a pop
//! may succeed on a head that has left the list and come back, when the link
//! that was read with it has become stale; and what a critical section commits
//! may be stale if a thread on another CPU has changed the head meanwhile. Such a
//! step breaks the list. [`SharedList::is_stale`] says exactly which steps these
//! are, and the laws here hold of all others.

use crate::chain;
use crate::chain::NULL;
use vstd::prelude::*;

verus! {

/// How far a thread has got. `at` is the number of changes of the head at the
/// time when the thread read it.
pub enum ListOp {
    /// Nothing is under way.
    Idle,
    /// About to push, head not read yet.
    Pushing { index: u32 },
    /// Push: the head has been read.
    PushRead { index: u32, seen: u32, at: nat },
    /// Push: the slot has been linked to what was read.
    PushLinked { index: u32, seen: u32, at: nat },
    /// Pop: the head has been read, and it names a slot.
    PopRead { seen: u32, at: nat },
    /// Pop: the link of that slot has been read.
    PopLinked { seen: u32, at: nat, link: u32 },
}

/// A step of one thread. `spurious` compare-and-swaps fail in any case.
pub enum ListStep {
    /// Start to push a slot that the threads hold.
    BeginPush { index: u32 },
    /// Read the head for a push.
    ReadForPush,
    /// Write the link of the slot to be pushed.
    WriteLink,
    /// Compare-and-swap of a push.
    SwapForPush { spurious: bool },
    /// The store that commits a push in a critical section.
    CommitPush,
    /// Read the head for a pop. If the list is empty, that ends the pop.
    ReadForPop,
    /// Read the link of the slot to be popped.
    ReadLink,
    /// Compare-and-swap of a pop.
    SwapForPop { spurious: bool },
    /// The store that commits a pop in a critical section.
    CommitPop,
    /// A critical section is aborted. A push starts anew, a pop is over.
    Abort,
}

/// A local list and the threads that share it.
pub struct SharedList {
    /// The head word.
    pub head: u32,
    /// How often the head has changed.
    pub changes: nat,
    /// The links.
    pub next: Seq<u32>,
    /// The slots on the list, first one first.
    pub items: Seq<u32>,
    /// The slots that the threads hold: popped, and not about to be pushed.
    pub held: Set<u32>,
    /// What each thread does.
    pub ops: Seq<ListOp>,
}

impl ListOp {
    /// The slot that the thread is about to push.
    pub open spec fn carried(self) -> Option<u32> {
        match self {
            ListOp::Pushing { index } => Some(index),
            ListOp::PushRead { index, .. } => Some(index),
            ListOp::PushLinked { index, .. } => Some(index),
            _ => None,
        }
    }

    /// The head that the thread has read, and when.
    pub open spec fn read(self) -> Option<(u32, nat)> {
        match self {
            ListOp::PushRead { seen, at, .. } => Some((seen, at)),
            ListOp::PushLinked { seen, at, .. } => Some((seen, at)),
            ListOp::PopRead { seen, at } => Some((seen, at)),
            ListOp::PopLinked { seen, at, .. } => Some((seen, at)),
            _ => None,
        }
    }
}

impl SharedList {
    /// The state where thread `t` has got to `op`.
    pub open spec fn with_op(self, t: int, op: ListOp) -> SharedList {
        SharedList { ops: self.ops.update(t, op), ..self }
    }

    /// The state where the links are `next`.
    pub open spec fn with_links(self, next: Seq<u32>) -> SharedList {
        SharedList { next, ..self }
    }

    /// Where a pop gets to when it has just read the head.
    pub open spec fn after_read_for_pop(self) -> ListOp {
        if self.head == NULL {
            ListOp::Idle
        } else {
            ListOp::PopRead { seen: self.head, at: self.changes }
        }
    }

    /// Thread `t` has pushed the slot that it carries.
    pub open spec fn pushed(self, t: int, index: u32) -> SharedList {
        SharedList {
            head: index,
            changes: self.changes + 1,
            items: seq![index] + self.items,
            ..self.with_op(t, ListOp::Idle)
        }
    }

    /// Thread `t` has popped slot `seen`, and made `link` the head.
    pub open spec fn popped(self, t: int, seen: u32, link: u32) -> SharedList {
        SharedList {
            head: link,
            changes: self.changes + 1,
            items: self.items.subrange(1, self.items.len() as int),
            held: self.held.insert(seen),
            ..self.with_op(t, ListOp::Idle)
        }
    }

    /// What a step of thread `t` leads to. `None` if the thread cannot take it.
    pub open spec fn step(self, t: int, step: ListStep) -> Option<SharedList> {
        match (self.ops[t], step) {
            (ListOp::Idle, ListStep::BeginPush { index }) => if self.held.contains(index) {
                Some(
                    SharedList {
                        held: self.held.remove(index),
                        ..self.with_op(t, ListOp::Pushing { index })
                    },
                )
            } else {
                None
            },
            (ListOp::Pushing { index }, ListStep::ReadForPush) => Some(
                self.with_op(t, ListOp::PushRead { index, seen: self.head, at: self.changes }),
            ),
            (ListOp::PushRead { index, seen, at }, ListStep::WriteLink) => Some(
                SharedList {
                    next: self.next.update(index as int, seen),
                    ..self.with_op(t, ListOp::PushLinked { index, seen, at })
                },
            ),
            (ListOp::PushLinked { index, seen, .. }, ListStep::SwapForPush { spurious }) =>
            if self.head == seen && !spurious {
                Some(self.pushed(t, index))
            } else {
                Some(self.with_op(t, ListOp::Pushing { index }))
            },
            (ListOp::PushLinked { index, .. }, ListStep::CommitPush) => Some(self.pushed(t, index)),
            (ListOp::Idle, ListStep::ReadForPop) => Some(
                self.with_op(t, self.after_read_for_pop()),
            ),
            (ListOp::PopRead { seen, at }, ListStep::ReadLink) => Some(
                self.with_op(t, ListOp::PopLinked { seen, at, link: self.next[seen as int] }),
            ),
            (ListOp::PopLinked { seen, link, .. }, ListStep::SwapForPop { spurious }) =>
            if self.head == seen && !spurious {
                Some(self.popped(t, seen, link))
            } else {
                Some(self.with_op(t, self.after_read_for_pop()))
            },
            (ListOp::PopLinked { seen, link, .. }, ListStep::CommitPop) => Some(
                self.popped(t, seen, link),
            ),
            (op, ListStep::Abort) => Some(
                self.with_op(
                    t,
                    match op.carried() {
                        Some(index) => ListOp::Pushing { index },
                        None => ListOp::Idle,
                    },
                ),
            ),
            _ => None,
        }
    }

    /// The step of thread `t` changes the list though what it has read is no
    /// longer so: a compare-and-swap of a pop that finds the head, but not with
    /// the link that was read, or a commit after another thread has changed the
    /// head or that link.
    pub open spec fn is_stale(self, t: int, step: ListStep) -> bool {
        match (self.ops[t], step) {
            (ListOp::PopLinked { seen, link, .. }, ListStep::SwapForPop { spurious }) => self.head
                == seen && !spurious && link != self.next[seen as int],
            (ListOp::PopLinked { seen, link, .. }, ListStep::CommitPop) => self.head != seen || link
                != self.next[seen as int],
            (ListOp::PushLinked { seen, .. }, ListStep::CommitPush) => self.head != seen,
            _ => false,
        }
    }

    /// What is true of one thread at all times.
    pub open spec fn op_valid(self, op: ListOp) -> bool {
        &&& op.carried() matches Some(index) ==> index < self.next.len() && !self.items.contains(
            index,
        ) && !self.held.contains(index)
        &&& op.read() matches Some((seen, at)) ==> {
            &&& at <= self.changes
            &&& at == self.changes ==> seen == self.head
        }
        &&& op matches ListOp::PushLinked { index, seen, .. } ==> self.next[index as int] == seen
        &&& op matches ListOp::PopRead { seen, .. } ==> seen != NULL
        &&& op matches ListOp::PopLinked { seen, .. } ==> seen != NULL
    }

    /// What is true at all times: the head and the links hold the list, and
    /// every slot is on the list, or held, or carried by one thread, and never
    /// two of these.
    pub open spec fn valid(self) -> bool {
        &&& self.next.len() <= NULL
        &&& chain::is_chain(self.next, self.head, self.items)
        &&& forall|slot: u32| #[trigger]
            self.held.contains(slot) ==> slot < self.next.len() && !self.items.contains(slot)
        &&& forall|t: int| 0 <= t < self.ops.len() ==> self.op_valid(#[trigger] self.ops[t])
        &&& forall|t: int, u: int|
            0 <= t < self.ops.len() && 0 <= u < self.ops.len() && t != u && (
            #[trigger] self.ops[t]).carried() is Some ==> self.ops[t].carried() != (
            #[trigger] self.ops[u]).carried()
    }

    /// The slot that a step takes from the threads.
    pub open spec fn taken(self, t: int, step: ListStep) -> Option<u32> {
        match step {
            ListStep::BeginPush { index } => Some(index),
            _ => None,
        }
    }

    /// The slot that a step gives to thread `t`.
    pub open spec fn given(self, t: int, step: ListStep) -> Option<u32> {
        match (self.ops[t], step) {
            (ListOp::PopLinked { seen, .. }, ListStep::SwapForPop { spurious }) => if self.head
                == seen && !spurious {
                Some(seen)
            } else {
                None
            },
            (ListOp::PopLinked { seen, .. }, ListStep::CommitPop) => Some(seen),
            _ => None,
        }
    }

    /// Steps of threads, in any order, keep the list intact, unless they are
    /// stale: a step either leaves the list as it is, or puts a slot in front
    /// that was on no list and held by no other thread, or takes the first slot
    /// off and gives it to the thread, which nobody else holds then.
    pub proof fn law_steps_keep_the_list(self, t: int, step: ListStep)
        requires
            self.valid(),
            0 <= t < self.ops.len(),
            self.step(t, step) is Some,
            !self.is_stale(t, step),
        ensures
            ({
                let after = self.step(t, step)->0;
                &&& after.valid()
                &&& {
                    ||| after.items == self.items
                    ||| {
                        &&& self.ops[t].carried() is Some
                        &&& !self.items.contains(self.ops[t].carried()->0)
                        &&& after.items == seq![self.ops[t].carried()->0] + self.items
                    }
                    ||| {
                        &&& self.items.len() > 0
                        &&& !self.held.contains(self.items[0])
                        &&& self.given(t, step) == Some(self.items[0])
                        &&& after.items == self.items.subrange(1, self.items.len() as int)
                        &&& after.held == self.held.insert(self.items[0])
                    }
                }
            }),
    {
        let after = self.step(t, step)->0;
        assert(self.op_valid(self.ops[t]));
        match (self.ops[t], step) {
            (ListOp::PushRead { index, seen, at }, ListStep::WriteLink) => {
                self.lemma_write_link(t, index, seen, at);
            },
            (ListOp::PushLinked { index, seen, .. }, ListStep::SwapForPush { spurious }) => {
                if self.head == seen && !spurious {
                    self.lemma_pushed(t, index, seen);
                }
            },
            (ListOp::PushLinked { index, seen, .. }, ListStep::CommitPush) => {
                self.lemma_pushed(t, index, seen);
            },
            (ListOp::PopLinked { seen, link, .. }, ListStep::SwapForPop { spurious }) => {
                if self.head == seen && !spurious {
                    self.lemma_popped(t, seen, link);
                }
            },
            (ListOp::PopLinked { seen, link, .. }, ListStep::CommitPop) => {
                self.lemma_popped(t, seen, link);
            },
            _ => {},
        }
    }

    /// Stale steps are those that break the list: after such a step the words do
    /// not hold the list any more, or it has given away another slot than the
    /// first of the list.
    pub proof fn law_stale_steps_break_the_list(self, t: int, step: ListStep)
        requires
            self.valid(),
            0 <= t < self.ops.len(),
            self.step(t, step) is Some,
            self.is_stale(t, step),
        ensures
            !self.step(t, step)->0.valid() || (self.given(t, step) is Some && (self.items.len() == 0
                || self.given(t, step) != Some(self.items[0]))),
    {
        let after = self.step(t, step)->0;
        assert(self.op_valid(self.ops[t]));
        if self.items.len() > 0 {
            assert(self.next[self.items[0] as int] == chain::link_after(self.items, 0));
        }
        if let (ListOp::PushLinked { index, seen, .. }, ListStep::CommitPush) = (self.ops[t], step) {
            assert(after.items[0] == index);
            assert(chain::link_after(after.items, 0) == chain::first_of(self.items));
            assert(chain::is_chain(after.next, after.head, after.items)
                ==> after.next[after.items[0] as int] == chain::link_after(after.items, 0));
        }
    }

    /// A step takes a slot that the threads hold, or gives them one that they
    /// do not hold, or neither, and it writes no link of a slot that they hold.
    pub proof fn law_steps_exchange_slots(self, t: int, step: ListStep)
        requires
            self.valid(),
            0 <= t < self.ops.len(),
            self.step(t, step) is Some,
            !self.is_stale(t, step),
        ensures
            ({
                let after = self.step(t, step)->0;
                &&& after.ops.len() == self.ops.len()
                &&& after.next.len() == self.next.len()
                &&& forall|slot: u32| #[trigger]
                    self.held.contains(slot) ==> after.next[slot as int] == self.next[slot as int]
                &&& match (self.taken(t, step), self.given(t, step)) {
                    (Some(slot), None) => self.held.contains(slot) && after.held
                        == self.held.remove(slot),
                    (None, Some(slot)) => slot < self.next.len() && !self.held.contains(slot)
                        && after.held == self.held.insert(slot),
                    (None, None) => after.held == self.held,
                    _ => false,
                }
            }),
    {
        self.law_steps_keep_the_list(t, step);
        assert(self.op_valid(self.ops[t]));
        if let Some(slot) = self.given(t, step) {
            assert(self.items[0] == slot);
        }
    }

    /// What threads write into the links of slots that they hold does not
    /// matter to the list.
    pub proof fn law_other_links_do_not_matter(self, next: Seq<u32>)
        requires
            self.valid(),
            next.len() == self.next.len(),
            forall|slot: u32|
                slot < next.len() && !self.held.contains(slot) ==> #[trigger] next[slot as int]
                    == self.next[slot as int],
        ensures
            self.with_links(next).valid(),
    {
        let after = self.with_links(next);
        assert forall|i: int| 0 <= i < self.items.len() implies #[trigger] next[self.items[i] as int]
            == self.next[self.items[i] as int] by {
            assert(self.items.contains(self.items[i]));
        }
        chain::lemma_chain_frame(self.next, next, self.head, self.items);
        assert forall|u: int| 0 <= u < after.ops.len() implies after.op_valid(
            #[trigger] after.ops[u],
        ) by {
            assert(self.op_valid(self.ops[u]));
        }
    }

    /// A compare-and-swap that is not spurious fails only because another thread
    /// has changed the head since this thread read it.
    pub proof fn law_swap_fails_only_after_another(self, t: int, step: ListStep)
        requires
            self.valid(),
            0 <= t < self.ops.len(),
            self.step(t, step) is Some,
            step == (ListStep::SwapForPush { spurious: false }) || step == (ListStep::SwapForPop {
                spurious: false,
            }),
            self.step(t, step)->0.changes == self.changes,
        ensures
            self.ops[t].read() matches Some((seen, at)) && seen != self.head && at < self.changes,
    {
        assert(self.op_valid(self.ops[t]));
    }

    /// The head changes where a push or a pop is completed, and nowhere else. So,
    /// whenever a thread has to try again, another thread has got something done.
    pub proof fn law_changes_are_completed_operations(self, t: int, step: ListStep)
        requires
            self.valid(),
            0 <= t < self.ops.len(),
            self.step(t, step) is Some,
            !self.is_stale(t, step),
        ensures
            ({
                let after = self.step(t, step)->0;
                if after.changes == self.changes {
                    after.head == self.head && after.items == self.items
                } else {
                    &&& after.changes == self.changes + 1
                    &&& !(self.ops[t] is Idle) && after.ops[t] is Idle
                    &&& match self.ops[t].carried() {
                        Some(index) => after.items == seq![index] + self.items,
                        None => self.given(t, step) is Some && after.items.len() + 1
                            == self.items.len(),
                    }
                }
            }),
    {
        self.law_steps_keep_the_list(t, step);
        assert(self.op_valid(self.ops[t]));
    }

    /// The step by which a thread goes on.
    pub open spec fn next_step(op: ListOp) -> ListStep {
        match op {
            ListOp::Idle => ListStep::ReadForPop,
            ListOp::Pushing { .. } => ListStep::ReadForPush,
            ListOp::PushRead { .. } => ListStep::WriteLink,
            ListOp::PushLinked { .. } => ListStep::SwapForPush { spurious: false },
            ListOp::PopRead { .. } => ListStep::ReadLink,
            ListOp::PopLinked { .. } => ListStep::SwapForPop { spurious: false },
        }
    }

    /// No thread ever waits for another: it can always go on.
    pub proof fn law_no_thread_waits(self, t: int)
        requires
            0 <= t < self.ops.len(),
        ensures
            self.step(t, Self::next_step(self.ops[t])) is Some,
    {
    }

    /// Where the threads start: the list is empty, and they hold all slots.
    pub open spec fn start(next: Seq<u32>, threads: nat) -> SharedList {
        SharedList {
            head: NULL,
            changes: 0,
            next,
            items: Seq::empty(),
            held: Set::new(|slot: u32| slot < next.len()),
            ops: Seq::new(threads, |t: int| ListOp::Idle),
        }
    }

    /// The start is as it has to be.
    pub proof fn law_start_is_valid(next: Seq<u32>, threads: nat)
        requires
            next.len() <= NULL,
        ensures
            Self::start(next, threads).valid(),
    {
    }

    proof fn lemma_write_link(self, t: int, index: u32, seen: u32, at: nat)
        requires
            self.valid(),
            0 <= t < self.ops.len(),
            self.ops[t] == (ListOp::PushRead { index, seen, at }),
        ensures
            self.step(t, ListStep::WriteLink)->0.valid(),
    {
        let after = self.step(t, ListStep::WriteLink)->0;
        assert(self.op_valid(self.ops[t]));
        assert forall|i: int| 0 <= i < self.items.len() implies #[trigger] after.next[self.items[i] as int]
            == self.next[self.items[i] as int] by {
            assert(self.items.contains(self.items[i]));
        }
        chain::lemma_chain_frame(self.next, after.next, self.head, self.items);
        assert forall|u: int| 0 <= u < after.ops.len() implies after.op_valid(
            #[trigger] after.ops[u],
        ) by {
            assert(self.op_valid(self.ops[u]));
            if u != t {
                assert(self.ops[t].carried() != self.ops[u].carried());
            }
        }
        self.lemma_carried_once(after, t);
    }

    proof fn lemma_pushed(self, t: int, index: u32, seen: u32)
        requires
            self.valid(),
            0 <= t < self.ops.len(),
            self.ops[t] matches ListOp::PushLinked { index: i, seen: s, .. } && i == index && s == seen,
            self.head == seen,
        ensures
            self.pushed(t, index).valid(),
    {
        let after = self.pushed(t, index);
        assert(self.op_valid(self.ops[t]));
        chain::lemma_chain_push(self.next, self.head, self.items, index);
        assert(self.next.update(index as int, self.head) =~= self.next);
        assert forall|slot: u32| after.items.contains(slot) implies slot == index
            || self.items.contains(slot) by {
            let i = choose|i: int| 0 <= i < after.items.len() && after.items[i] == slot;
            if i > 0 {
                assert(self.items[i - 1] == slot);
            }
        }
        assert forall|u: int| 0 <= u < after.ops.len() implies after.op_valid(
            #[trigger] after.ops[u],
        ) by {
            assert(self.op_valid(self.ops[u]));
            if u != t {
                assert(self.ops[t].carried() != self.ops[u].carried());
            }
        }
        self.lemma_carried_once(after, t);
    }

    proof fn lemma_popped(self, t: int, seen: u32, link: u32)
        requires
            self.valid(),
            0 <= t < self.ops.len(),
            self.ops[t] matches ListOp::PopLinked { seen: s, link: l, .. } && s == seen && l == link,
            self.head == seen,
            link == self.next[seen as int],
        ensures
            self.popped(t, seen, link).valid(),
            self.items.len() > 0,
            self.items[0] == seen,
            !self.held.contains(seen),
    {
        let after = self.popped(t, seen, link);
        assert(self.op_valid(self.ops[t]));
        chain::lemma_chain_pop(self.next, self.head, self.items);
        assert(self.items.contains(self.items[0]));
        assert(!after.items.contains(self.items[0])) by {
            if after.items.contains(self.items[0]) {
                let i = choose|i: int|
                    0 <= i < after.items.len() && after.items[i] == self.items[0];
                assert(self.items[i + 1] == self.items[0]);
            }
        }
        assert forall|slot: u32| after.items.contains(slot) implies self.items.contains(slot) by {
            let i = choose|i: int| 0 <= i < after.items.len() && after.items[i] == slot;
            assert(self.items[i + 1] == slot);
        }
        assert forall|u: int| 0 <= u < after.ops.len() implies after.op_valid(
            #[trigger] after.ops[u],
        ) by {
            assert(self.op_valid(self.ops[u]));
        }
        self.lemma_carried_once(after, t);
    }

    /// Two threads carry different slots as long as thread `t`, which alone has
    /// moved, carries what it did or nothing.
    proof fn lemma_carried_once(self, after: SharedList, t: int)
        requires
            self.valid(),
            0 <= t < self.ops.len(),
            after.ops == self.ops.update(t, after.ops[t]),
            after.ops[t].carried() is None || after.ops[t].carried() == self.ops[t].carried(),
        ensures
            forall|u: int, v: int|
                0 <= u < after.ops.len() && 0 <= v < after.ops.len() && u != v && (
                #[trigger] after.ops[u]).carried() is Some ==> after.ops[u].carried() != (
                #[trigger] after.ops[v]).carried(),
    {
        assert forall|u: int, v: int|
            0 <= u < after.ops.len() && 0 <= v < after.ops.len() && u != v && (
            #[trigger] after.ops[u]).carried() is Some implies after.ops[u].carried() != (
        #[trigger] after.ops[v]).carried() by {
            assert(self.ops[u].carried() != self.ops[v].carried());
        }
    }
}

} // verus!
