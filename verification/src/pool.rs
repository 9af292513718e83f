//! The main pool implementation.
//!
//! `Pool<S>` hands out a fixed number of pre-allocated slots.
//!
//! ## Allocation flow
//!
//! 1. **Per-CPU local list** (RSEQ fast path): Pop from `local_heads[cpu]`.
//! 2. **Per-CPU local list** (fallback): Pop from local head.
//! 3. **Remote MPSC queue**: Drain up to `batch_size` from `remote_queues[cpu]`.
//!    Excess stays queued for next drain. This bounds local list growth.
//! 4. **Global Treiber stack**: Pop a batch from the global stack.
//!
//! ## Free flow
//!
//! 1. On the home CPU: push to its local list, while under its capacity.
//! 2. Otherwise: enqueue to the home CPU's remote queue, while under its
//!    capacity. The home CPU drains it in bounded batches on alloc.
//! 3. Otherwise: push to the global stack.
//!
//! ## Bounded caches
//!
//! - On alloc, at most `batch_size` items are taken from remote or global.
//! - All slots start on the global stack. CPUs pull batches on demand.
//! - The global stack is the pressure relief valve: it's where excess slots
//!   live when no CPU needs them.

use crate::address;
use crate::address::SlotPtr;
use crate::chain;
use crate::chain::NULL;
use crate::model;
use crate::model::FreeTarget;
use crate::model::PoolModel;
use crate::mpsc;
use crate::mpsc::MpscQueue;
use crate::padded;
use crate::rseq;
use crate::rseq::CpuHead;
use crate::rseq::Rseq;
use crate::rseq::SECTION_LOOKS;
use crate::rseq::Sightings;
use crate::slot::SlotMeta;
use crate::storage::Storage;
use crate::treiber;
use crate::treiber::TreiberStack;
use crossbeam_utils::CachePadded;
use vstd::prelude::*;

verus! {

/// The CPU of a pool that stands for CPU index `cpu`: the last one stands for
/// all beyond it.
#[inline]
pub fn clamp_cpu(cpu: usize, num_cpus: u16) -> (clamped: usize)
    requires
        num_cpus >= 1,
    ensures
        clamped == model::smaller(cpu as int, num_cpus - 1),
        clamped < num_cpus,
        cpu < num_cpus ==> clamped == cpu,
        cpu >= num_cpus ==> clamped + 1 == num_cpus,
{
    let last: usize = num_cpus as usize - 1;
    if cpu <= last {
        cpu
    } else {
        last
    }
}

/// Whether a cache that holds `count` slots takes one more.
#[inline]
pub fn has_room(count: u32, capacity: u32) -> (room: bool)
    ensures
        room <==> count < capacity,
{
    count < capacity
}

/// Whether a drain stops: a batch has been taken.
#[inline]
pub fn batch_full(drained: usize, batch: u32) -> (full: bool)
    ensures
        full <==> drained >= batch,
{
    drained as u64 >= batch as u64
}

/// Where an allocation has got to.
#[derive(Clone, Copy, PartialEq, Eq, Structural)]
pub enum AllocStep {
    /// Pop from the local list in a critical section.
    SectionPop,
    /// Pop from the local list.
    ListPop,
    /// Take a batch from the remote queue.
    Drain,
    /// Take a batch from the global stack.
    Refill,
    /// Hand out slot `index`, which `cpu` is the home of from now on.
    HandOut { index: u32, cpu: usize },
    /// There is no slot to be had.
    GiveUp,
}

/// How an allocation goes on, given the slot that the present step has found, if
/// any, and the CPU that it was found on.
#[inline]
pub fn alloc_next(at: AllocStep, found: Option<(u32, usize)>) -> (next: AllocStep)
    ensures
        next == (match (at, found) {
            (AllocStep::HandOut { .. }, _) => at,
            (AllocStep::GiveUp, _) => at,
            (_, Some((index, cpu))) => AllocStep::HandOut { index, cpu },
            (AllocStep::SectionPop, None) => AllocStep::ListPop,
            (AllocStep::ListPop, None) => AllocStep::Drain,
            (AllocStep::Drain, None) => AllocStep::Refill,
            (AllocStep::Refill, None) => AllocStep::GiveUp,
        }),
{
    match (at, found) {
        (AllocStep::HandOut { .. }, _) => at,
        (AllocStep::GiveUp, _) => at,
        (_, Some((index, cpu))) => AllocStep::HandOut { index, cpu },
        (AllocStep::SectionPop, None) => AllocStep::ListPop,
        (AllocStep::ListPop, None) => AllocStep::Drain,
        (AllocStep::Drain, None) => AllocStep::Refill,
        (AllocStep::Refill, None) => AllocStep::GiveUp,
    }
}

/// How many steps an allocation takes at most before it ends.
spec fn rank(at: AllocStep) -> nat {
    match at {
        AllocStep::SectionPop => 5,
        AllocStep::ListPop => 4,
        AllocStep::Drain => 3,
        AllocStep::Refill => 2,
        _ => 1,
    }
}

/// What becomes of a slot of a batch.
#[derive(Clone, Copy, PartialEq, Eq, Structural)]
pub enum BatchUse {
    /// It is handed out.
    HandOut,
    /// It goes to the local list.
    Keep,
}

/// What becomes of a slot of a batch, given how many slots were taken before it:
/// the first is handed out, and the others are kept.
#[inline]
pub fn batch_use(taken: usize) -> (part: BatchUse)
    ensures
        part == (if taken == 0 {
            BatchUse::HandOut
        } else {
            BatchUse::Keep
        }),
{
    if taken == 0 {
        BatchUse::HandOut
    } else {
        BatchUse::Keep
    }
}

/// Where a freed slot goes, given its home CPU, the CPU that frees it, the
/// length and the capacity of the latter's local list, and the length and the
/// capacity of the former's remote queue. A capacity is asked for only where it
/// matters.
#[inline]
pub fn free_target<L: Fn() -> u32, R: Fn() -> u32>(
    home: usize,
    cpu: usize,
    local_count: u32,
    local_capacity: L,
    remote_count: u32,
    remote_capacity: R,
) -> (target: FreeTarget)
    requires
        home == cpu ==> local_capacity.requires(()),
        home != cpu ==> remote_capacity.requires(()),
        forall|c: u32|
            home == cpu && #[trigger] local_capacity.ensures((), c) && c <= local_count
                ==> remote_capacity.requires(()),
    ensures
        match target {
            FreeTarget::Local => {
                &&& home == cpu
                &&& exists|c: u32| #[trigger] local_capacity.ensures((), c) && local_count < c
            },
            FreeTarget::Remote => {
                &&& home == cpu ==> exists|c: u32| #[trigger]
                    local_capacity.ensures((), c) && c <= local_count
                &&& exists|c: u32| #[trigger] remote_capacity.ensures((), c) && remote_count < c
            },
            FreeTarget::Global => {
                &&& home == cpu ==> exists|c: u32| #[trigger]
                    local_capacity.ensures((), c) && c <= local_count
                &&& exists|c: u32| #[trigger] remote_capacity.ensures((), c) && c <= remote_count
            },
        },
{
    // 1. Try local list (if at home and under capacity).
    if home == cpu && has_room(local_count, local_capacity()) {
        return FreeTarget::Local;
    }
    // 2. Try remote queue for home CPU (if under capacity).

    if has_room(remote_count, remote_capacity()) {
        return FreeTarget::Remote;
    }
    // 3. Neither has room.

    FreeTarget::Global
}

/// A pre-allocated object pool.
///
/// The pool keeps account of slots in memory that its creator has allocated:
/// it hands out addresses and never touches what is there.
///
/// Its view is a [`PoolModel`].
pub struct Pool<S: Storage> {
    /// Address of the contiguous slot data allocation.
    data_base: usize,
    /// Per-slot "next" links for free lists.
    next: Vec<u32>,
    /// Per-slot home CPU: which CPU most recently allocated this slot.
    home_cpu: Vec<SlotMeta>,
    /// Per-CPU local free list heads (cache-line padded).
    local_heads: Vec<CpuHead>,
    /// Per-CPU local list lengths (cache-line padded).
    local_counts: Vec<CachePadded<u32>>,
    /// Per-CPU remote MPSC queues for cross-CPU frees.
    remote_queues: Vec<MpscQueue>,
    /// Global fallback free stack: holds all slots initially.
    global_stack: TreiberStack,
    /// Number of CPUs.
    num_cpus: u16,
    /// The storage configuration.
    storage: S,
    /// The free lists, in the order of [`PoolModel`].
    lists: Ghost<Seq<Seq<u32>>>,
}

impl<S: Storage> View for Pool<S> {
    type V = PoolModel;

    closed spec fn view(&self) -> PoolModel {
        PoolModel {
            cpus: self.num_cpus as nat,
            lists: self.lists@,
            home: self.home_cpu@.map_values(|meta: SlotMeta| meta@),
        }
    }
}

impl<S: Storage> Pool<S> {
    /// The configuration.
    pub closed spec fn config(&self) -> S {
        self.storage
    }

    /// The address of the slot data.
    pub closed spec fn base(&self) -> usize {
        self.data_base
    }

    /// The address of slot `index`.
    pub open spec fn addr_of(&self, index: int) -> int {
        address::slot_addr(self.base() as int, address::stride_of::<S::T>(), index)
    }

    /// The index of the slot at address `addr`.
    pub open spec fn index_of(&self, addr: usize) -> int {
        address::slot_index(self.base() as int, address::stride_of::<S::T>(), addr as int)
    }

    /// The heads of all free lists, in the order of [`PoolModel`].
    spec fn heads(&self) -> Seq<u32> {
        let n = self.num_cpus as int;
        Seq::new(
            (2 * n + 1) as nat,
            |a: int|
                if a < n {
                    padded::padded_value(self.local_heads@[a])
                } else if a < 2 * n {
                    self.remote_queues@[a - n].front()
                } else {
                    treiber::head_index(self.global_stack.head())
                },
        )
    }

    /// The pool's fields hold what its view says, and its slots fit in memory.
    pub closed spec fn wf(&self) -> bool {
        let n = self.num_cpus as int;
        &&& self@.valid()
        &&& self@.slots() == self.storage.slots()
        &&& 0 < self@.slots() < NULL
        &&& self.next@.len() == self@.slots()
        &&& self.local_heads@.len() == n
        &&& self.local_counts@.len() == n
        &&& self.remote_queues@.len() == n
        &&& chain::threaded(self.next@, self.heads(), self.lists@)
        &&& forall|c: int|
            #![trigger self.remote_queues@[c]]
            0 <= c < n ==> {
                &&& self.remote_queues@[c]@ == self.lists@[n + c]
                &&& self.remote_queues@[c].back() == chain::last_of(self.lists@[n + c])
                &&& self.remote_queues@[c].recorded_len() == self.lists@[n + c].len()
            }
        &&& forall|c: int|
            #![trigger self.local_counts@[c]]
            0 <= c < n ==> padded::padded_value(self.local_counts@[c]) == self.lists@[c].len()
        &&& self.global_stack@ == self.lists@[2 * n]
        &&& 0 < self.data_base
        &&& self.data_base as int % vstd::layout::align_of::<S::T>() as int == 0
        &&& self.addr_of(self@.slots() as int) <= usize::MAX
    }

    /// The pool `other` is the same pool at another time: same slots, same
    /// memory, same configuration.
    pub open spec fn same_pool(&self, other: &Self) -> bool {
        &&& self.config() == other.config()
        &&& self.base() == other.base()
        &&& self@.cpus == other@.cpus
        &&& self@.slots() == other@.slots()
    }

    /// What every pool satisfies.
    pub proof fn lemma_valid(&self)
        requires
            self.wf(),
        ensures
            self@.valid(),
            self@.cpus <= u16::MAX,
            0 < self@.slots() < NULL,
            self@.slots() == self.config().slots(),
            0 < self.base(),
            self.base() as int % vstd::layout::align_of::<S::T>() as int == 0,
            self.addr_of(self@.slots() as int) <= usize::MAX,
    {
    }

    /// Push to a CPU's local list.
    fn atomic_push_local(&mut self, cpu: usize, index: u32)
        requires
            old(self).wf(),
            cpu < old(self)@.cpus,
            old(self)@.in_use().contains(index),
        ensures
            final(self).wf(),
            final(self).same_pool(old(self)),
            final(self)@ == old(self)@.with_list(
                cpu as int,
                seq![index] + old(self)@.local(cpu as int),
            ),
    {
        let ghost heads = self.heads();
        proof {
            chain::lemma_threaded_push(self.next@, heads, self.lists@, cpu as int, index);
            model::lemma_put_first(self.lists@, cpu as int, index);
            self.lemma_room(cpu as int, index);
        }
        let head: u32 = padded::read_padded(&self.local_heads[cpu]);
        self.next[index as usize] = head;
        self.local_heads[cpu] = padded::padded(index);
        let count: u32 = padded::read_padded(&self.local_counts[cpu]);
        self.local_counts[cpu] = padded::padded(count + 1);
        proof {
            self.lists@ = self.lists@.update(cpu as int, seq![index] + self.lists@[cpu as int]);
            assert(self.heads() =~= heads.update(cpu as int, index));
        }
    }

    /// The head of each list is its first slot, or `NULL` if it has none.
    proof fn lemma_heads(&self, a: int)
        requires
            self.wf(),
            0 <= a < self.lists@.len(),
        ensures
            chain::is_chain(self.next@, self.heads()[a], self.lists@[a]),
            self.heads()[a] == chain::first_of(self.lists@[a]),
            self.lists@[a].len() == 0 <==> self.heads()[a] == NULL,
            self.lists@[a].len() > 0 ==> {
                &&& self.lists@[a][0] < self@.slots()
                &&& self.next@[self.lists@[a][0] as int] == chain::first_of(
                    self.lists@[a].subrange(1, self.lists@[a].len() as int),
                )
            },
    {
        let list = self.lists@[a];
        assert(chain::is_chain(self.next@, self.heads()[a], list));
        if list.len() > 0 {
            assert(list[0] != NULL);
            assert(self.next@[list[0] as int] == chain::link_after(list, 0));
        }
    }

    /// A list has room for a slot that is in use.
    proof fn lemma_room(&self, a: int, index: u32)
        requires
            self.wf(),
            0 <= a < self.lists@.len(),
            self@.in_use().contains(index),
        ensures
            self.lists@[a].len() < NULL,
    {
        self.lemma_heads(a);
        assert(!self.lists@[a].contains(index)) by {
            if self.lists@[a].contains(index) {
                let i = choose|i: int| 0 <= i < self.lists@[a].len() && self.lists@[a][i] == index;
                assert(model::listed(self.lists@, self.lists@[a][i]));
            }
        }
        chain::lemma_chain_room(self.next@, self.heads()[a], self.lists@[a], index);
    }

    /// Record `cpu` as the home of slot `index`.
    fn set_home(&mut self, index: u32, cpu: usize)
        requires
            old(self).wf(),
            index < old(self)@.slots(),
            cpu < old(self)@.cpus,
        ensures
            final(self).wf(),
            final(self).same_pool(old(self)),
            final(self)@ == old(self)@.with_home(index, cpu as int),
    {
        self.home_cpu[index as usize].set_home_cpu(cpu as u16);
        assert(self@.home =~= old(self)@.home.update(index as int, cpu as u16));
        assert(self.heads() =~= old(self).heads());
    }

    /// Pop from the local list of the CPU that the thread is on, in a critical
    /// section.
    #[inline]
    fn try_section_pop(&mut self, looks: Option<[Rseq; SECTION_LOOKS]>, fallback_cpu: usize) -> (popped: Option<
        (u32, usize),
    >)
        requires
            old(self).wf(),
        ensures
            final(self).wf(),
            final(self).same_pool(old(self)),
            match rseq::section_cpu(looks, old(self)@.cpus) {
                Some(c) if old(self)@.local(c).len() > 0 => {
                    &&& popped == Some((old(self)@.local(c)[0], c as usize))
                    &&& final(self)@ == old(self)@.with_list(
                        c,
                        old(self)@.local(c).subrange(1, old(self)@.local(c).len() as int),
                    )
                },
                _ => popped is None && final(self)@ == old(self)@,
            },
    {
        let ghost heads = self.heads();
        proof {
            assert forall|c: int|
                #![trigger rseq::head_values(self.local_heads@)[c]]
                0 <= c < self.local_heads@.len() && rseq::head_values(self.local_heads@)[c]
                    != NULL implies rseq::head_values(self.local_heads@)[c] < self.next@.len() by {
                self.lemma_heads(c);
                assert(heads[c] == rseq::head_values(self.local_heads@)[c]);
            }
            if let Some(c) = rseq::section_cpu(looks, self@.cpus) {
                self.lemma_heads(c);
                assert(heads[c] == rseq::head_values(self.local_heads@)[c]);
                if self@.local(c).len() > 0 {
                    chain::lemma_threaded_drop(self.next@, heads, self.lists@, c, 1);
                    model::lemma_take_first(self.lists@, c);
                }
            }
        }
        let popped = rseq::per_cpu_pop(
            looks,
            fallback_cpu,
            self.local_heads.as_mut_slice(),
            self.next.as_slice(),
        );
        match popped {
            Ok((index, cpu)) => {
                let count: u32 = padded::read_padded(&self.local_counts[cpu]);
                self.local_counts[cpu] = padded::padded(count - 1);
                proof {
                    let c = cpu as int;
                    let rest = self.lists@[c].subrange(1, self.lists@[c].len() as int);
                    self.lists@ = self.lists@.update(c, rest);
                    assert forall|d: int| 0 <= d < self.num_cpus implies padded::padded_value(
                        #[trigger] self.local_heads@[d],
                    ) == heads.update(c, chain::first_of(rest))[d] by {
                        assert(rseq::head_values(self.local_heads@)[d] == padded::padded_value(
                            self.local_heads@[d],
                        ));
                        assert(heads[d] == rseq::head_values(old(self).local_heads@)[d]);
                    }
                    assert(self.heads() =~= heads.update(c, chain::first_of(rest)));
                }
                Some((index, cpu))
            },
            Err(_) => {
                assert(self.heads() =~= heads);
                None
            },
        }
    }

    /// Fallback for per-CPU pop.
    #[inline]
    fn try_atomic_pop(&mut self, cpu: usize) -> (popped: Option<(u32, usize)>)
        requires
            old(self).wf(),
            cpu < old(self)@.cpus,
        ensures
            final(self).wf(),
            final(self).same_pool(old(self)),
            if old(self)@.local(cpu as int).len() > 0 {
                &&& popped == Some((old(self)@.local(cpu as int)[0], cpu))
                &&& final(self)@ == old(self)@.with_list(
                    cpu as int,
                    old(self)@.local(cpu as int).subrange(
                        1,
                        old(self)@.local(cpu as int).len() as int,
                    ),
                )
            } else {
                popped is None && final(self)@ == old(self)@
            },
    {
        let ghost heads = self.heads();
        let ghost c = cpu as int;
        proof {
            self.lemma_heads(c);
            assert(heads[c] == padded::padded_value(self.local_heads@[c]));
        }
        let head: u32 = match rseq::list_candidate(padded::read_padded(&self.local_heads[cpu])) {
            Some(head) => head,
            None => {
                return None;
            },
        };
        proof {
            chain::lemma_threaded_drop(self.next@, heads, self.lists@, c, 1);
            model::lemma_take_first(self.lists@, c);
        }
        let next_val: u32 = self.next[head as usize];
        self.local_heads[cpu] = padded::padded(next_val);
        let count: u32 = padded::read_padded(&self.local_counts[cpu]);
        self.local_counts[cpu] = padded::padded(count - 1);
        proof {
            let rest = self.lists@[c].subrange(1, self.lists@[c].len() as int);
            self.lists@ = self.lists@.update(c, rest);
            assert(self.heads() =~= heads.update(c, chain::first_of(rest)));
        }
        Some((head, cpu))
    }

    /// Pop from the global stack.
    fn pop_global(&mut self) -> (popped: Option<u32>)
        requires
            old(self).wf(),
        ensures
            final(self).wf(),
            final(self).same_pool(old(self)),
            if old(self)@.global().len() > 0 {
                &&& popped == Some(old(self)@.global()[0])
                &&& final(self)@ == old(self)@.with_list(
                    old(self)@.global_at(),
                    old(self)@.global().subrange(1, old(self)@.global().len() as int),
                )
                &&& final(self)@.in_use().contains(popped->0)
            } else {
                popped is None && final(self)@ == old(self)@
            },
    {
        let ghost heads = self.heads();
        let ghost a = self@.global_at();
        proof {
            self.lemma_heads(a);
            if self.lists@[a].len() > 0 {
                chain::lemma_threaded_drop(self.next@, heads, self.lists@, a, 1);
                model::lemma_take_first(self.lists@, a);
            }
        }
        let ghost before = self.global_stack;
        match self.global_stack.pop(self.next.as_slice()) {
            Some(index) => {
                proof {
                    let rest = self.lists@[a].subrange(1, self.lists@[a].len() as int);
                    self.lists@ = self.lists@.update(a, rest);
                    treiber::law_unpack_after_pack(
                        chain::first_of(rest),
                        treiber::later_generation(treiber::head_generation(before.head()), 1),
                    );
                    assert(self.heads() =~= heads.update(a, chain::first_of(rest)));
                }
                Some(index)
            },
            None => {
                assert(self.heads() =~= heads);
                None
            },
        }
    }

    /// Take a batch of slots from the global stack and put them on our local list.
    /// Returns one slot to the caller, the rest go to `local_heads[cpu]`.
    fn refill_from_global(&mut self, cpu: usize) -> (slot: Option<u32>)
        requires
            old(self).wf(),
            cpu < old(self)@.cpus,
        ensures
            final(self).wf(),
            final(self).same_pool(old(self)),
            ({
                let count = old(self)@.refillable(old(self).config().batch());
                if count > 0 {
                    &&& slot == Some(old(self)@.global()[0])
                    &&& final(self)@ == old(self)@.move_batch(
                        old(self)@.global_at(),
                        cpu as int,
                        count,
                    )
                } else {
                    slot is None && final(self)@ == old(self)@
                }
            }),
    {
        let ghost m = self@;
        let ghost list = m.global();
        let batch: u32 = self.storage.batch_size();
        proof {
            self.lemma_heads(m.global_at());
            chain::lemma_chain_len(self.next@, self.heads()[m.global_at()], list);
        }
        let mut first: Option<u32> = None;
        let mut count: usize = 0;
        while !batch_full(count, batch)
            invariant
                self.wf(),
                self.same_pool(old(self)),
                m == old(self)@,
                m.valid(),
                list == m.global(),
                cpu < m.cpus,
                count <= batch,
                count <= list.len() <= NULL,
                count == 0 ==> first is None && self@ == m,
                count > 0 ==> {
                    &&& first == Some(list[0])
                    &&& self@ == m.with_list(
                        m.global_at(),
                        list.subrange(count as int, list.len() as int),
                    ).with_list(
                        cpu as int,
                        list.subrange(1, count as int).reverse() + m.local(cpu as int),
                    )
                },
            ensures
                count == m.refillable(batch),
            decreases batch - count,
        {
            match self.pop_global() {
                Some(index) => {
                    let ghost rest = list.subrange(count + 1, list.len() as int);
                    match batch_use(count) {
                        BatchUse::HandOut => {
                            first = Some(index);
                            proof {
                                let kept = list.subrange(1, 1).reverse() + m.local(cpu as int);
                                assert(kept =~= m.local(cpu as int));
                                assert(self@.lists =~= m.with_list(m.global_at(), rest).with_list(
                                    cpu as int,
                                    kept,
                                ).lists);
                            }
                        },
                        BatchUse::Keep => {
                            self.atomic_push_local(cpu, index);
                            proof {
                                let kept = list.subrange(1, count + 1).reverse() + m.local(
                                    cpu as int,
                                );
                                assert(kept =~= seq![index] + (list.subrange(
                                    1,
                                    count as int,
                                ).reverse() + m.local(cpu as int)));
                                assert(list.subrange(count as int, list.len() as int).subrange(
                                    1,
                                    list.len() - count,
                                ) =~= rest);
                                assert(self@.lists =~= m.with_list(m.global_at(), rest).with_list(
                                    cpu as int,
                                    kept,
                                ).lists);
                            }
                        },
                    }
                    count += 1;
                },
                None => {
                    break;
                },
            }
        }
        first
    }

    /// Take the oldest slot off a CPU's remote queue, unless it is the sentinel.
    fn pop_remote(&mut self, cpu: usize) -> (popped: Option<u32>)
        requires
            old(self).wf(),
            cpu < old(self)@.cpus,
        ensures
            final(self).wf(),
            final(self).same_pool(old(self)),
            if old(self)@.remote(cpu as int).len() > 1 {
                &&& popped == Some(old(self)@.remote(cpu as int)[0])
                &&& final(self)@ == old(self)@.with_list(
                    old(self)@.cpus + cpu,
                    old(self)@.remote(cpu as int).subrange(
                        1,
                        old(self)@.remote(cpu as int).len() as int,
                    ),
                )
                &&& final(self)@.in_use().contains(popped->0)
            } else {
                popped is None && final(self)@ == old(self)@
            },
    {
        let ghost heads = self.heads();
        let ghost a = self@.cpus + cpu;
        proof {
            self.lemma_heads(a);
            if self.lists@[a].len() > 1 {
                chain::lemma_threaded_drop(self.next@, heads, self.lists@, a, 1);
                model::lemma_take_first(self.lists@, a);
            }
        }
        match self.remote_queues[cpu].take_oldest(self.next.as_slice()) {
            Some(index) => {
                proof {
                    let rest = self.lists@[a].subrange(1, self.lists@[a].len() as int);
                    self.lists@ = self.lists@.update(a, rest);
                    assert(self.heads() =~= heads.update(a, chain::first_of(rest)));
                }
                Some(index)
            },
            None => {
                assert(self.heads() =~= heads);
                None
            },
        }
    }

    /// Slow path: drain remote queue (bounded). Returns one slot to the caller,
    /// the rest go to `local_heads[cpu]`.
    fn drain_remote(&mut self, cpu: usize) -> (slot: Option<u32>)
        requires
            old(self).wf(),
            cpu < old(self)@.cpus,
        ensures
            final(self).wf(),
            final(self).same_pool(old(self)),
            ({
                let count = old(self)@.drainable(cpu as int, old(self).config().batch());
                if count > 0 {
                    &&& slot == Some(old(self)@.remote(cpu as int)[0])
                    &&& final(self)@ == old(self)@.move_batch(
                        old(self)@.cpus + cpu,
                        cpu as int,
                        count,
                    )
                } else {
                    slot is None && final(self)@ == old(self)@
                }
            }),
    {
        let ghost m = self@;
        let ghost a = m.cpus + cpu;
        let ghost list = m.remote(cpu as int);
        let batch: u32 = self.storage.batch_size();
        proof {
            self.lemma_heads(a);
            chain::lemma_chain_len(self.next@, self.heads()[a], list);
        }
        // Drain the remote queue, bounded by batch_size.
        let mut first: Option<u32> = None;
        let mut drained: usize = 0;
        let mut full: bool = false;
        while !full
            invariant
                self.wf(),
                self.same_pool(old(self)),
                m == old(self)@,
                m.valid(),
                cpu < m.cpus,
                a == m.cpus + cpu,
                list == m.remote(cpu as int),
                list.len() <= NULL,
                drained == 0 || drained < list.len(),
                drained == 0 ==> first is None && self@ == m && !full,
                drained > 0 ==> {
                    &&& first == Some(list[0])
                    &&& self@ == m.with_list(
                        a,
                        list.subrange(drained as int, list.len() as int),
                    ).with_list(
                        cpu as int,
                        list.subrange(1, drained as int).reverse() + m.local(cpu as int),
                    )
                },
                full ==> drained >= batch,
                !full ==> drained == 0 || drained < batch,
                drained <= 1 || drained <= batch,
            ensures
                drained == m.drainable(cpu as int, batch),
            decreases list.len() - drained,
        {
            match self.pop_remote(cpu) {
                Some(index) => {
                    let ghost rest = list.subrange(drained + 1, list.len() as int);
                    match batch_use(drained) {
                        BatchUse::HandOut => {
                            first = Some(index);
                            proof {
                                let kept = list.subrange(1, 1).reverse() + m.local(cpu as int);
                                assert(kept =~= m.local(cpu as int));
                                assert(self@.lists =~= m.with_list(a, rest).with_list(
                                    cpu as int,
                                    kept,
                                ).lists);
                            }
                        },
                        BatchUse::Keep => {
                            self.atomic_push_local(cpu, index);
                            proof {
                                let kept = list.subrange(1, drained + 1).reverse() + m.local(
                                    cpu as int,
                                );
                                assert(kept =~= seq![index] + (list.subrange(
                                    1,
                                    drained as int,
                                ).reverse() + m.local(cpu as int)));
                                assert(list.subrange(drained as int, list.len() as int).subrange(
                                    1,
                                    list.len() - drained,
                                ) =~= rest);
                                assert(self@.lists =~= m.with_list(a, rest).with_list(
                                    cpu as int,
                                    kept,
                                ).lists);
                            }
                        },
                    }
                    drained += 1;
                    full = batch_full(drained, batch);
                },
                None => {
                    break;
                },
            }
        }
        first
    }

    /// Look for a slot where an allocation has got to. Returns it, and the CPU
    /// that it was found on.
    fn try_source(&mut self, at: AllocStep, seen: Sightings) -> (found: Option<(u32, usize)>)
        requires
            old(self).wf(),
        ensures
            final(self).wf(),
            final(self).same_pool(old(self)),
            found is None ==> final(self)@ == old(self)@,
            found matches Some((index, cpu)) ==> cpu < old(self)@.cpus && index < old(
                self,
            )@.slots(),
            ({
                let m = old(self)@;
                let pop = m.clamp(rseq::current_cpu(seen.first, seen.fallback_cpu));
                let slow = m.clamp(rseq::current_cpu(seen.second, seen.fallback_cpu));
                let batch = old(self).config().batch();
                match at {
                    AllocStep::SectionPop => match rseq::section_cpu(seen.section, m.cpus) {
                        Some(c) if m.local(c).len() > 0 => {
                            &&& found == Some((m.local(c)[0], c as usize))
                            &&& final(self)@.with_home(m.local(c)[0], c) == m.pop_local(c).1
                        },
                        _ => found is None,
                    },
                    AllocStep::ListPop => if m.local(pop).len() > 0 {
                        &&& found == Some((m.local(pop)[0], pop as usize))
                        &&& final(self)@.with_home(m.local(pop)[0], pop) == m.pop_local(pop).1
                    } else {
                        found is None
                    },
                    AllocStep::Drain => if m.drainable(slow, batch) > 0 {
                        &&& found == Some((m.remote(slow)[0], slow as usize))
                        &&& final(self)@ == m.move_batch(
                            m.cpus + slow,
                            slow,
                            m.drainable(slow, batch),
                        )
                    } else {
                        found is None
                    },
                    AllocStep::Refill => if m.refillable(batch) > 0 {
                        &&& found == Some((m.global()[0], slow as usize))
                        &&& final(self)@ == m.move_batch(
                            m.global_at(),
                            slow,
                            m.refillable(batch),
                        )
                    } else {
                        found is None
                    },
                    _ => found is None,
                }
            }),
    {
        proof {
            let m = self@;
            assert forall|a: int|
                0 <= a < m.lists.len() && (#[trigger] m.lists[a]).len() > 0 implies m.lists[a][0]
                < m.slots() by {}
        }
        match at {
            // Fast path: RSEQ per-CPU pop.
            AllocStep::SectionPop => self.try_section_pop(seen.section, seen.fallback_cpu),
            // Fallback: pop from our CPU's local head.
            AllocStep::ListPop => {
                let cpu: usize = clamp_cpu(
                    rseq::cpu_id(seen.first, seen.fallback_cpu),
                    self.num_cpus,
                );
                self.try_atomic_pop(cpu)
            },
            AllocStep::Drain => {
                let cpu: usize = clamp_cpu(
                    rseq::cpu_id(seen.second, seen.fallback_cpu),
                    self.num_cpus,
                );
                match self.drain_remote(cpu) {
                    Some(index) => Some((index, cpu)),
                    None => None,
                }
            },
            AllocStep::Refill => {
                let cpu: usize = clamp_cpu(
                    rseq::cpu_id(seen.second, seen.fallback_cpu),
                    self.num_cpus,
                );
                match self.refill_from_global(cpu) {
                    Some(index) => Some((index, cpu)),
                    None => None,
                }
            },
            AllocStep::HandOut { .. } | AllocStep::GiveUp => None,
        }
    }

    /// Convert a slot index to a pointer.
    #[inline]
    fn index_to_ptr(&self, index: u32) -> (ptr: SlotPtr<S::T>)
        requires
            self.wf(),
            index < self@.slots(),
        ensures
            ptr.addr == self.addr_of(index as int),
            self.index_of(ptr.addr) == index,
            address::on_slot_boundary(
                self.base() as int,
                address::stride_of::<S::T>(),
                ptr.addr as int,
            ),
            ptr.addr as int % vstd::layout::align_of::<S::T>() as int == 0,
            vstd::layout::size_of::<S::T>() > 0 ==> {
                &&& ptr.addr == self.base() + index * vstd::layout::size_of::<S::T>()
                &&& ptr.addr + vstd::layout::size_of::<S::T>() <= self.base()
                    + self.config().slots() * vstd::layout::size_of::<S::T>()
            },
    {
        let stride: usize = address::stride_of_slots::<S::T>();
        proof {
            address::lemma_stride::<S::T>();
            address::law_index_after_address(self.data_base as int, stride as nat, index as int);
            address::law_slots_are_aligned::<S::T>(self.data_base as int, index as int);
            address::law_slots_stand_side_by_side::<S::T>(self.data_base as int, index as int);
            if vstd::layout::size_of::<S::T>() > 0 {
                address::law_slots_lie_in_their_memory::<S::T>(
                    self.data_base as int,
                    self@.slots() as int,
                    index as int,
                );
            }
            address::lemma_slot_inside(
                self.data_base as int,
                stride as nat,
                self@.slots() as int,
                index as int,
            );
        }
        SlotPtr::at(address::addr_of_slot(self.data_base, stride, index))
    }

    /// Convert a pointer back to a slot index.
    #[inline]
    fn ptr_to_index(&self, ptr: SlotPtr<S::T>) -> (index: u32)
        requires
            self.wf(),
            self.base() <= ptr.addr,
            self.index_of(ptr.addr) < self@.slots(),
        ensures
            index == self.index_of(ptr.addr),
    {
        proof {
            address::lemma_stride::<S::T>();
        }
        address::index_of_addr(
            self.data_base,
            address::stride_of_slots::<S::T>(),
            ptr.addr,
        ) as u32
    }

    /// Allocate a slot, returning the address of uninitialized memory.
    ///
    /// Returns `None` if neither the local list nor the remote queue of the
    /// thread's CPU nor the global stack has a slot to give; so it does when
    /// the pool is exhausted (all slots are in use).
    ///
    /// `seen` is what the thread sees in its RSEQ area: in the critical section,
    /// then where it falls back (the first look outside), then where it takes
    /// the slow path (the second look).
    ///
    /// The pointer is aligned for `S::T` and tells the slot, as `free` needs it.
    ///
    /// The caller must:
    /// - Initialize the memory before reading from it.
    /// - Eventually call [`free`](Self::free) with the returned pointer.
    #[inline]
    pub fn allocate(&mut self, seen: Sightings) -> (ptr: Option<SlotPtr<S::T>>)
        requires
            old(self).wf(),
        ensures
            final(self).wf(),
            final(self).same_pool(old(self)),
            ({
                let (slot, after) = old(self)@.allocate(
                    rseq::section_cpu(seen.section, old(self)@.cpus),
                    old(self)@.clamp(rseq::current_cpu(seen.first, seen.fallback_cpu)),
                    old(self)@.clamp(rseq::current_cpu(seen.second, seen.fallback_cpu)),
                    old(self).config().batch(),
                );
                &&& final(self)@ == after
                &&& match slot {
                    Some(s) => {
                        &&& ptr matches Some(p) && p.addr == old(self).addr_of(s as int)
                            && old(self).index_of(p.addr) == s && address::on_slot_boundary(
                            old(self).base() as int,
                            address::stride_of::<S::T>(),
                            p.addr as int,
                        ) && p.addr as int % vstd::layout::align_of::<S::T>() as int == 0 && (
                        vstd::layout::size_of::<S::T>() > 0 ==> {
                            &&& p.addr == old(self).base() + s * vstd::layout::size_of::<S::T>()
                            &&& p.addr + vstd::layout::size_of::<S::T>() <= old(self).base()
                                + old(self).config().slots() * vstd::layout::size_of::<S::T>()
                        })
                        &&& s < old(self)@.slots()
                        &&& !old(self)@.in_use().contains(s)
                        &&& final(self)@.in_use() == old(self)@.in_use().insert(s)
                    },
                    None => {
                        &&& ptr is None
                        &&& final(self)@ == old(self)@
                    },
                }
            }),
    {
        let ghost m = self@;
        let ghost fast = rseq::section_cpu(seen.section, m.cpus);
        let ghost pop = m.clamp(rseq::current_cpu(seen.first, seen.fallback_cpu));
        let ghost slow = m.clamp(rseq::current_cpu(seen.second, seen.fallback_cpu));
        let ghost batch = self.config().batch();
        proof {
            m.law_allocate_hands_out_a_free_slot(fast, pop, slow, batch);
        }
        let mut at: AllocStep = AllocStep::SectionPop;
        loop
            invariant
                self.wf(),
                self.same_pool(old(self)),
                m == old(self)@,
                fast == rseq::section_cpu(seen.section, m.cpus),
                pop == m.clamp(rseq::current_cpu(seen.first, seen.fallback_cpu)),
                slow == m.clamp(rseq::current_cpu(seen.second, seen.fallback_cpu)),
                batch == old(self).config().batch(),
                match at {
                    AllocStep::HandOut { index, cpu } => {
                        &&& index < m.slots()
                        &&& cpu < m.cpus
                        &&& m.allocate(fast, pop, slow, batch) == (
                            Some(index),
                            self@.with_home(index, cpu as int),
                        )
                    },
                    _ => self@ == m,
                },
                rank(at) < 5 && !(at is HandOut) ==> !(fast matches Some(c) && m.local(c).len()
                    > 0),
                rank(at) < 4 && !(at is HandOut) ==> m.local(pop).len() == 0,
                rank(at) < 3 && !(at is HandOut) ==> m.drainable(slow, batch) <= 0,
                rank(at) < 2 && !(at is HandOut) ==> m.refillable(batch) <= 0,
                ({
                    let (slot, after) = m.allocate(fast, pop, slow, batch);
                    match slot {
                        Some(s) => {
                            &&& !m.in_use().contains(s)
                            &&& after.in_use() == m.in_use().insert(s)
                        },
                        None => after == m,
                    }
                }),
            decreases rank(at),
        {
            match at {
                AllocStep::HandOut { index, cpu } => {
                    self.set_home(index, cpu);
                    return Some(self.index_to_ptr(index));
                },
                AllocStep::GiveUp => {
                    return None;
                },
                _ => {
                    let found = self.try_source(at, seen);
                    at = alloc_next(at, found);
                },
            }
        }
    }

    /// Push to the local list of the CPU that the thread is on, in a critical
    /// section. Returns whether it was committed.
    #[inline]
    fn try_section_push(&mut self, looks: Option<[Rseq; SECTION_LOOKS]>, fallback_cpu: usize, index: u32) -> (pushed:
        bool)
        requires
            old(self).wf(),
            old(self)@.in_use().contains(index),
        ensures
            final(self).wf(),
            final(self).same_pool(old(self)),
            match rseq::section_cpu(looks, old(self)@.cpus) {
                Some(c) => {
                    &&& pushed
                    &&& final(self)@ == old(self)@.with_list(c, seq![index] + old(self)@.local(c))
                },
                None => !pushed && final(self)@ == old(self)@,
            },
    {
        let ghost heads = self.heads();
        let ghost section = rseq::section_cpu(looks, self@.cpus);
        proof {
            if let Some(c) = section {
                chain::lemma_threaded_push(self.next@, heads, self.lists@, c, index);
                model::lemma_put_first(self.lists@, c, index);
                self.lemma_room(c, index);
                assert(heads[c] == rseq::head_values(self.local_heads@)[c]);
            }
        }
        let pushed = rseq::per_cpu_push(
            looks,
            fallback_cpu,
            self.local_heads.as_mut_slice(),
            self.next.as_mut_slice(),
            index,
        );
        match pushed {
            Ok(cpu) => {
                let count: u32 = padded::read_padded(&self.local_counts[cpu]);
                self.local_counts[cpu] = padded::padded(count + 1);
                proof {
                    let c = cpu as int;
                    self.lists@ = self.lists@.update(c, seq![index] + self.lists@[c]);
                    assert forall|d: int| 0 <= d < self.num_cpus implies padded::padded_value(
                        #[trigger] self.local_heads@[d],
                    ) == heads.update(c, index)[d] by {
                        assert(rseq::head_values(self.local_heads@)[d] == padded::padded_value(
                            self.local_heads@[d],
                        ));
                        assert(heads[d] == rseq::head_values(old(self).local_heads@)[d]);
                    }
                    assert(self.heads() =~= heads.update(c, index));
                }
                true
            },
            Err(_) => {
                assert(self.heads() =~= heads);
                false
            },
        }
    }

    /// Enqueue to a CPU's remote queue.
    fn enqueue_remote(&mut self, cpu: usize, index: u32)
        requires
            old(self).wf(),
            cpu < old(self)@.cpus,
            old(self)@.in_use().contains(index),
        ensures
            final(self).wf(),
            final(self).same_pool(old(self)),
            final(self)@ == old(self)@.with_list(
                old(self)@.cpus + cpu,
                old(self)@.remote(cpu as int).push(index),
            ),
    {
        let ghost heads = self.heads();
        let ghost a = self@.cpus + cpu;
        proof {
            self.lemma_heads(a);
            chain::lemma_threaded_append(self.next@, heads, self.lists@, a, index);
            model::lemma_put_last(self.lists@, a, index);
            assert forall|i: int| 0 <= i < self.lists@[a].len() implies self.lists@[a][i]
                != index by {}
        }
        self.remote_queues[cpu].enqueue(self.next.as_mut_slice(), index);
        proof {
            let list = self.lists@[a];
            self.lists@ = self.lists@.update(a, list.push(index));
            if list.len() == 0 {
                assert(self.heads() =~= heads.update(a, index));
            } else {
                assert(self.heads() =~= heads);
            }
        }
    }

    /// Push to the global stack.
    fn push_global(&mut self, index: u32)
        requires
            old(self).wf(),
            old(self)@.in_use().contains(index),
        ensures
            final(self).wf(),
            final(self).same_pool(old(self)),
            final(self)@ == old(self)@.with_list(
                old(self)@.global_at(),
                seq![index] + old(self)@.global(),
            ),
    {
        let ghost heads = self.heads();
        let ghost a = self@.global_at();
        proof {
            self.lemma_heads(a);
            chain::lemma_threaded_push(self.next@, heads, self.lists@, a, index);
            model::lemma_put_first(self.lists@, a, index);
            assert forall|i: int| 0 <= i < self.lists@[a].len() implies self.lists@[a][i]
                != index by {}
            treiber::law_unpack_after_pack(
                index,
                treiber::later_generation(treiber::head_generation(self.global_stack.head()), 1),
            );
        }
        self.global_stack.push(self.next.as_mut_slice(), index);
        proof {
            self.lists@ = self.lists@.update(a, seq![index] + self.lists@[a]);
            assert(self.heads() =~= heads.update(a, index));
        }
    }

    /// Free a previously allocated slot.
    ///
    /// `ptr` must have been returned by [`allocate`](Self::allocate) on this
    /// pool and must not have been freed already (no double-free).
    ///
    /// `seen` is what the thread sees in its RSEQ area: when it looks for its
    /// CPU (the first look outside), then in the critical section.
    #[inline]
    pub fn free(&mut self, ptr: SlotPtr<S::T>, seen: Sightings)
        requires
            old(self).wf(),
            address::on_slot_boundary(
                old(self).base() as int,
                address::stride_of::<S::T>(),
                ptr.addr as int,
            ),
            old(self).index_of(ptr.addr) < old(self)@.slots(),
            old(self)@.in_use().contains(old(self).index_of(ptr.addr) as u32),
            ({
                let home = old(self)@.home_of(old(self).index_of(ptr.addr) as u32);
                let cpu = old(self)@.clamp(rseq::current_cpu(seen.first, seen.fallback_cpu));
                let local_limit = old(self).config().local_limit();
                &&& home == cpu ==> local_limit <= u32::MAX
                &&& home == cpu && old(self)@.local(cpu).len() < local_limit
                    || old(self).config().remote_limit() <= u32::MAX
            }),
        ensures
            final(self).wf(),
            final(self).same_pool(old(self)),
            final(self)@ == old(self)@.free(
                old(self).index_of(ptr.addr) as u32,
                old(self)@.clamp(rseq::current_cpu(seen.first, seen.fallback_cpu)),
                rseq::section_cpu(seen.section, old(self)@.cpus),
                old(self).config().local_limit(),
                old(self).config().remote_limit(),
            ),
            final(self)@.in_use() == old(self)@.in_use().remove(
                old(self).index_of(ptr.addr) as u32,
            ),
    {
        let index: u32 = self.ptr_to_index(ptr);
        let cpu: usize = clamp_cpu(rseq::cpu_id(seen.first, seen.fallback_cpu), self.num_cpus);
        let home: usize = clamp_cpu(
            self.home_cpu[index as usize].home_cpu() as usize,
            self.num_cpus,
        );
        proof {
            self@.law_free_returns_the_slot(
                index,
                cpu as int,
                rseq::section_cpu(seen.section, self@.cpus),
                self.config().local_limit(),
                self.config().remote_limit(),
            );
        }
        assert(home == self@.home_of(index));
        let local_count: u32 = padded::read_padded(&self.local_counts[cpu]);
        let remote_count: u32 = self.remote_queues[home].approx_len();
        assert(remote_count == self@.remote(home as int).len());
        let storage = &self.storage;
        let local_capacity = || -> (capacity: u32)
            requires
                storage.local_limit() <= u32::MAX,
            ensures
                capacity == storage.local_limit(),
            { storage.local_cache_capacity() };
        let remote_capacity = || -> (capacity: u32)
            requires
                storage.remote_limit() <= u32::MAX,
            ensures
                capacity == storage.remote_limit(),
            { storage.remote_cache_capacity() };
        let target = free_target(
            home,
            cpu,
            local_count,
            local_capacity,
            remote_count,
            remote_capacity,
        );
        match target {
            FreeTarget::Local => {
                // Fast path: RSEQ push to current CPU's local list.
                if !self.try_section_push(seen.section, seen.fallback_cpu, index) {
                    // RSEQ unavailable, push to the local list all the same.
                    self.atomic_push_local(cpu, index);
                }
            },
            FreeTarget::Remote => self.enqueue_remote(home, index),
            FreeTarget::Global => self.push_global(index),
        }
    }

    /// Returns the total number of slots in the pool.
    #[inline]
    pub fn capacity(&self) -> (slots: u32)
        requires
            self.wf(),
        ensures
            slots == self@.slots(),
            slots == self.config().slots(),
    {
        self.storage.slot_count()
    }

    /// Returns the number of CPUs this pool is configured for.
    #[inline]
    pub fn num_cpus(&self) -> (cpus: u16)
        ensures
            cpus == self@.cpus,
    {
        self.num_cpus
    }

    /// Size and alignment of the memory that the slots take. `None` if that is
    /// more than can be allocated.
    #[inline]
    pub fn data_layout(storage: &S) -> (layout: Option<(usize, usize)>)
        ensures
            layout matches Some(l) ==> l.0 == storage.slots() * vstd::layout::size_of::<S::T>()
                && l.1 == vstd::layout::align_of::<S::T>(),
            layout is Some <==> storage.slots() * vstd::layout::size_of::<S::T>() <= isize::MAX,
    {
        address::layout_of_slots::<S::T>(storage.slot_count())
    }

    /// Create a new pool. All slots start on the global free stack.
    ///
    /// `possible_cpus` is the number of CPU indices, and `data_base` the
    /// address of the slots, in memory of the pool's
    /// [`data_layout`](Self::data_layout).
    pub fn new(storage: S, possible_cpus: usize, data_base: usize) -> (pool: Self)
        requires
            0 < storage.slots() < NULL,
            possible_cpus >= 1,
            0 < data_base,
            data_base as int % vstd::layout::align_of::<S::T>() as int == 0,
            storage.slots() * vstd::layout::size_of::<S::T>() <= isize::MAX,
            data_base + storage.slots() * address::stride_of::<S::T>() <= usize::MAX,
        ensures
            pool.wf(),
            pool.config() == storage,
            pool.base() == data_base,
            possible_cpus <= 65535 ==> pool@.cpus == possible_cpus,
            possible_cpus > 65535 ==> pool@.cpus == 65535,
            pool@.slots() == storage.slots(),
            pool@ == PoolModel::fresh(
                model::smaller(possible_cpus as int, u16::MAX as int) as nat,
                storage.slots() as nat,
            ),
    {
        let slot_count: u32 = storage.slot_count();
        let num_cpus: u16 = if possible_cpus <= u16::MAX as usize {
            possible_cpus as u16
        } else {
            u16::MAX
        };
        let mut next: Vec<u32> = Vec::new();
        let mut home_cpu: Vec<SlotMeta> = Vec::new();
        let mut i: u32 = 0;
        while i < slot_count
            invariant
                i <= slot_count,
                next@.len() == i,
                home_cpu@.len() == i,
                forall|j: int| 0 <= j < i ==> (#[trigger] home_cpu@[j])@ == 0,
            decreases slot_count - i,
        {
            next.push(NULL);
            home_cpu.push(SlotMeta::new());
            i += 1;
        }
        let mut local_heads: Vec<CpuHead> = Vec::new();
        let mut local_counts: Vec<CachePadded<u32>> = Vec::new();
        let mut remote_queues: Vec<MpscQueue> = Vec::new();
        let mut c: u16 = 0;
        while c < num_cpus
            invariant
                c <= num_cpus,
                local_heads@.len() == c,
                local_counts@.len() == c,
                remote_queues@.len() == c,
                forall|j: int|
                    0 <= j < c ==> padded::padded_value(#[trigger] local_heads@[j]) == NULL,
                forall|j: int|
                    0 <= j < c ==> padded::padded_value(#[trigger] local_counts@[j]) == 0,
                forall|j: int|
                    #![trigger remote_queues@[j]]
                    0 <= j < c ==> remote_queues@[j]@ == Seq::<u32>::empty()
                        && remote_queues@[j].front() == NULL && remote_queues@[j].back() == NULL
                        && remote_queues@[j].recorded_len() == 0,
            decreases num_cpus - c,
        {
            local_heads.push(padded::padded(NULL));
            local_counts.push(padded::padded(0));
            let queue = MpscQueue::new();
            assert(queue.wf(next@));
            remote_queues.push(queue);
            c += 1;
        }
        let mut global_stack = TreiberStack::new();
        // All slots start on the global stack.
        let mut i: u32 = slot_count;
        assert(global_stack.wf(next@));
        assert(global_stack@ =~= Seq::new((slot_count - i) as nat, |j: int| (i + j) as u32));
        while i > 0
            invariant
                i <= slot_count < NULL,
                next@.len() == slot_count,
                global_stack.wf(next@),
                global_stack@ == Seq::new((slot_count - i) as nat, |j: int| (i + j) as u32),
            decreases i,
        {
            i -= 1;
            assert(!global_stack@.contains(i));
            global_stack.push(next.as_mut_slice(), i);
            assert(global_stack@ =~= Seq::new((slot_count - i) as nat, |j: int| (i + j) as u32));
        }
        let ghost fresh = PoolModel::fresh(num_cpus as nat, slot_count as nat);
        let pool = Pool {
            data_base,
            next,
            home_cpu,
            local_heads,
            local_counts,
            remote_queues,
            global_stack,
            num_cpus,
            storage,
            lists: Ghost(fresh.lists),
        };
        proof {
            assert(pool@.home =~= fresh.home);
            assert(pool.global_stack@ =~= fresh.global());
            assert(pool.wf());
        }
        pool
    }
}

impl<S: Storage> Pool<S> {
    /// Every slot lies in the memory of the pool, as `data_layout` measures it:
    /// side by side with the others, from the start of the memory on.
    pub proof fn law_slots_lie_in_the_data(&self, index: int)
        requires
            self.wf(),
            vstd::layout::size_of::<S::T>() > 0,
            0 <= index < self.config().slots(),
        ensures
            self.addr_of(index) == self.base() + index * vstd::layout::size_of::<S::T>(),
            self.base() <= self.addr_of(index),
            self.addr_of(index) + vstd::layout::size_of::<S::T>() <= self.base()
                + self.config().slots() * vstd::layout::size_of::<S::T>(),
    {
        address::law_slots_lie_in_their_memory::<S::T>(
            self.base() as int,
            self.config().slots() as int,
            index,
        );
    }

    /// A pool stays where it is and what it is: its memory, its configuration, its
    /// CPUs and its slots are the same at all times.
    pub proof fn law_pool_stays_the_same(&self, other: &Self)
        requires
            self.same_pool(other),
        ensures
            self.base() == other.base(),
            self.config() == other.config(),
            self@.cpus == other@.cpus,
            self@.home.len() == other@.home.len(),
    {
    }

    /// The slot of a pointer is the one whose bytes it points to.
    pub proof fn law_pointer_tells_its_slot(&self, index: int, byte: int)
        requires
            self.wf(),
            vstd::layout::size_of::<S::T>() > 0,
            0 <= index < self.config().slots(),
            0 <= byte < vstd::layout::size_of::<S::T>(),
        ensures
            self.index_of((self.base() + index * vstd::layout::size_of::<S::T>() + byte) as usize)
                == index,
    {
        let size = vstd::layout::size_of::<S::T>();
        address::law_slots_stand_side_by_side::<S::T>(self.base() as int, index);
        address::law_slots_stand_side_by_side::<S::T>(self.base() as int, self@.slots() as int);
        address::law_slots_stand_side_by_side::<S::T>(0, 1);
        assert(1 * address::stride_of::<S::T>() == address::stride_of::<S::T>());
        assert(1 * size == size);
        address::law_slots_lie_in_their_memory::<S::T>(
            self.base() as int,
            self.config().slots() as int,
            index,
        );
        address::law_every_byte_tells_its_slot(self.base() as int, size, index, byte);
    }
}

} // verus!
