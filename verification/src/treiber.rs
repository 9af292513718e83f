//! Treiber stack of slot indices, guarded against ABA by packed
//! (index, generation) head values.
//!
//! Each entry in the stack is identified by a 32-bit index into a pre-allocated
//! slot array, paired with a 32-bit generation counter. The two are packed into
//! a single word, so that one compare-and-swap can replace both.
//!
//! The "next" links are stored externally in a parallel array, so slot data
//! stays untouched.

use crate::chain;
use crate::chain::NULL;
use vstd::prelude::*;

verus! {

/// Empty head value (null index, generation 0).
pub const EMPTY: u64 = 0xffff_ffff;

/// The slot index in a head value: its low 32 bits.
pub open spec fn head_index(head: u64) -> u32 {
    (head & 0xffff_ffff) as u32
}

/// The generation in a head value: its high 32 bits.
pub open spec fn head_generation(head: u64) -> u32 {
    (head >> 32) as u32
}

/// The head value that holds `index` and `generation`.
pub open spec fn packed(index: u32, generation: u32) -> u64 {
    (index as u64) | ((generation as u64) << 32)
}

/// The generation that `steps` changes of the head lead to. It wraps around.
pub open spec fn later_generation(generation: u32, steps: nat) -> u32 {
    ((generation + steps) % 0x1_0000_0000) as u32
}

/// The head value that replaces `head` when `index` becomes the first slot.
pub open spec fn swung(head: u64, index: u32) -> u64 {
    packed(index, later_generation(head_generation(head), 1))
}

/// A packed value gives back both of its halves.
pub proof fn law_unpack_after_pack(index: u32, generation: u32)
    ensures
        head_index(packed(index, generation)) == index,
        head_generation(packed(index, generation)) == generation,
{
    assert((((index as u64) | ((generation as u64) << 32)) & 0xffff_ffff) as u32 == index)
        by (bit_vector);
    assert((((index as u64) | ((generation as u64) << 32)) >> 32) as u32 == generation)
        by (bit_vector);
}

/// Every head value is the packing of its halves.
pub proof fn law_pack_after_unpack(head: u64)
    ensures
        packed(head_index(head), head_generation(head)) == head,
{
    assert((((head & 0xffff_ffff) as u32) as u64) | ((((head >> 32) as u32) as u64) << 32) == head)
        by (bit_vector);
}

/// A head value that was read earlier is never met again within the next
/// `2^32 - 1` changes of the head, whatever slot is first by then: a
/// compare-and-swap against the earlier value fails once anything was pushed
/// or popped since, even if the same slot is back on top.
pub proof fn law_stale_head_is_detected(head: u64, index: u32, steps: nat)
    requires
        0 < steps < 0x1_0000_0000,
    ensures
        packed(index, later_generation(head_generation(head), steps)) != head,
{
    let generation = head_generation(head);
    let later = later_generation(generation, steps);
    law_unpack_after_pack(index, later);
    assert(later != generation) by {
        if generation + steps < 0x1_0000_0000 {
            assert((generation + steps) % 0x1_0000_0000 == generation + steps);
        } else {
            assert((generation + steps) % 0x1_0000_0000 == generation + steps - 0x1_0000_0000);
        }
    }
}

/// Changes of the head add up.
pub proof fn lemma_generations_add_up(generation: u32, steps: nat, more: nat)
    ensures
        later_generation(later_generation(generation, steps), more) == later_generation(
            generation,
            steps + more,
        ),
{
    vstd::arithmetic::div_mod::lemma_add_mod_noop(
        (generation + steps) as int,
        more as int,
        0x1_0000_0000,
    );
    vstd::arithmetic::div_mod::lemma_add_mod_noop(
        ((generation + steps) % 0x1_0000_0000) as int,
        more as int,
        0x1_0000_0000,
    );
}

/// Pop undoes push: it gives back the slot pushed last, and leaves the stack
/// as it was before.
pub proof fn law_pop_undoes_push(items: Seq<u32>, index: u32)
    ensures
        ({
            let pushed = seq![index] + items;
            &&& pushed.len() > 0
            &&& pushed[0] == index
            &&& pushed.subrange(1, pushed.len() as int) == items
        }),
{
    let pushed = seq![index] + items;
    assert(pushed.subrange(1, pushed.len() as int) =~= items);
}

/// A packed head value: low 32 bits = index, high 32 bits = generation.
#[inline(always)]
pub fn pack(index: u32, generation: u32) -> (head: u64)
    ensures
        head == packed(index, generation),
        head_index(head) == index,
        head_generation(head) == generation,
{
    proof {
        law_unpack_after_pack(index, generation);
    }
    (index as u64) | ((generation as u64) << 32)
}

/// The index and the generation of a head value.
#[inline(always)]
pub fn unpack(val: u64) -> (halves: (u32, u32))
    ensures
        halves == (head_index(val), head_generation(val)),
        packed(halves.0, halves.1) == val,
{
    proof {
        law_pack_after_unpack(val);
    }
    ((val & 0xffff_ffff) as u32, (val >> 32) as u32)
}

/// What a push decides from the head value it has read: the link that the
/// pushed slot has to carry, and the head value to swing to.
#[inline]
pub fn push_step(head: u64, index: u32) -> (step: (u32, u64))
    ensures
        step.0 == head_index(head),
        step.1 == swung(head, index),
{
    let (head_idx, head_gen) = unpack(head);
    (head_idx, pack(index, head_gen.wrapping_add(1)))
}

/// The slot that a pop has to take, given the head value it has read: `None`
/// if the stack is empty.
#[inline]
pub fn pop_candidate(head: u64) -> (slot: Option<u32>)
    ensures
        slot == (if head_index(head) == NULL {
            None
        } else {
            Some(head_index(head))
        }),
{
    let (head_idx, _) = unpack(head);
    if head_idx == NULL {
        None
    } else {
        Some(head_idx)
    }
}

/// The head value that a pop swings to, given the head value it has read and
/// the link of the slot it takes.
#[inline]
pub fn pop_step(head: u64, next_idx: u32) -> (new_head: u64)
    ensures
        new_head == swung(head, next_idx),
{
    let (_, head_gen) = unpack(head);
    pack(next_idx, head_gen.wrapping_add(1))
}

/// A stack of slot indices.
///
/// The stack itself only stores the head (packed index + generation). The
/// "next" links for each index live in the external `next` array that is
/// passed to every push/pop call.
///
/// Its view is the sequence of the slots on the stack, top first.
pub struct TreiberStack {
    head: u64,
    items: Ghost<Seq<u32>>,
}

impl View for TreiberStack {
    type V = Seq<u32>;

    closed spec fn view(&self) -> Seq<u32> {
        self.items@
    }
}

impl TreiberStack {
    /// The packed head value.
    pub closed spec fn head(&self) -> u64 {
        self.head
    }

    /// The head and the links in `next` hold the stack's slots.
    pub open spec fn wf(&self, next: Seq<u32>) -> bool {
        chain::is_chain(next, head_index(self.head()), self@)
    }

    /// An empty stack.
    pub fn new() -> (stack: Self)
        ensures
            stack@ == Seq::<u32>::empty(),
            stack.head() == EMPTY,
            forall|next: Seq<u32>| stack.wf(next),
    {
        proof {
            assert((0xffff_ffffu64 & 0xffff_ffff) as u32 == 0xffff_ffffu32) by (bit_vector);
        }
        TreiberStack { head: EMPTY, items: Ghost(Seq::empty()) }
    }

    /// Push `index` onto the stack.
    #[inline]
    pub fn push(&mut self, next: &mut [u32], index: u32)
        requires
            old(self).wf(old(next)@),
            index < old(next)@.len(),
            index != NULL,
            !old(self)@.contains(index),
        ensures
            final(self).wf(final(next)@),
            final(self)@ == seq![index] + old(self)@,
            final(self).head() == swung(old(self).head(), index),
            final(next)@ == old(next)@.update(index as int, chain::first_of(old(self)@)),
    {
        let (head_idx, new_head) = push_step(self.head, index);
        proof {
            chain::lemma_chain_push(next@, head_idx, self.items@, index);
            law_unpack_after_pack(index, later_generation(head_generation(self.head), 1));
        }
        // Point our node's next at the current head.
        next[index as usize] = head_idx;
        // Swing head to point at our node, bumping generation.
        self.head = new_head;
        proof {
            self.items@ = seq![index] + self.items@;
        }
    }

    /// Pop an index from the stack, or return `None` if empty.
    #[inline]
    pub fn pop(&mut self, next: &[u32]) -> (slot: Option<u32>)
        requires
            old(self).wf(next@),
        ensures
            final(self).wf(next@),
            old(self)@.len() == 0 ==> slot is None && *final(self) == *old(self),
            old(self)@.len() > 0 ==> {
                &&& slot == Some(old(self)@[0])
                &&& final(self)@ == old(self)@.subrange(1, old(self)@.len() as int)
                &&& final(self).head() == swung(
                    old(self).head(),
                    chain::first_of(final(self)@),
                )
            },
    {
        match pop_candidate(self.head) {
            None => {
                proof {
                    if self.items@.len() > 0 {
                        assert(self.items@[0] != NULL);
                    }
                }
                None
            },
            Some(head_idx) => {
                proof {
                    chain::lemma_chain_pop(next@, head_idx, self.items@);
                }
                let next_idx: u32 = next[head_idx as usize];
                proof {
                    law_unpack_after_pack(
                        next_idx,
                        later_generation(head_generation(self.head), 1),
                    );
                }
                self.head = pop_step(self.head, next_idx);
                proof {
                    self.items@ = self.items@.subrange(1, self.items@.len() as int);
                }
                Some(head_idx)
            },
        }
    }

    /// Pop up to `out.len()` indices at once, returning the count popped.
    ///
    /// Popped indices are written into `out[0..returned_count]`.
    #[inline]
    pub fn pop_batch(&mut self, next: &[u32], out: &mut [u32]) -> (count: usize)
        requires
            old(self).wf(next@),
        ensures
            final(self).wf(next@),
            count == (if old(out)@.len() <= old(self)@.len() {
                old(out)@.len()
            } else {
                old(self)@.len()
            }),
            final(out)@ == old(self)@.subrange(0, count as int) + old(out)@.subrange(
                count as int,
                old(out)@.len() as int,
            ),
            final(self)@ == old(self)@.subrange(count as int, old(self)@.len() as int),
            head_generation(final(self).head()) == later_generation(
                head_generation(old(self).head()),
                count as nat,
            ),
    {
        let mut count: usize = 0;
        let len: usize = out.len();
        while count < len
            invariant
                count <= len,
                len == out@.len(),
                len == old(out)@.len(),
                self.wf(next@),
                count <= old(self)@.len(),
                self@ == old(self)@.subrange(count as int, old(self)@.len() as int),
                out@ == old(self)@.subrange(0, count as int) + old(out)@.subrange(
                    count as int,
                    len as int,
                ),
                head_generation(self.head()) == later_generation(
                    head_generation(old(self).head()),
                    count as nat,
                ),
            decreases len - count,
        {
            let ghost before = *self;
            match self.pop(next) {
                Some(idx) => {
                    proof {
                        law_unpack_after_pack(
                            chain::first_of(self@),
                            later_generation(head_generation(before.head()), 1),
                        );
                    }
                    out[count] = idx;
                    count += 1;
                    assert(self@ =~= old(self)@.subrange(count as int, old(self)@.len() as int));
                    assert(out@ =~= old(self)@.subrange(0, count as int) + old(out)@.subrange(
                        count as int,
                        len as int,
                    ));
                },
                None => {
                    return count;
                },
            }
        }
        count
    }
}

/// A head value is a number: the index is what is left of it modulo 2^32, and
/// the generation is how often 2^32 goes into it.
pub proof fn law_head_is_index_and_generation(head: u64)
    ensures
        head == head_index(head) + head_generation(head) * 0x1_0000_0000,
{
    assert(head == ((head & 0xffff_ffff) as u32) + ((head >> 32) as u32) * 0x1_0000_0000)
        by (bit_vector);
}

/// Packing is a number too.
pub proof fn law_packed_is_index_and_generation(index: u32, generation: u32)
    ensures
        packed(index, generation) == index + generation * 0x1_0000_0000,
{
    law_head_is_index_and_generation(packed(index, generation));
    law_unpack_after_pack(index, generation);
}

/// A change of the head makes `index` the first slot and raises the generation
/// by one, from the last one back to 0.
pub proof fn law_change_raises_the_generation(head: u64, index: u32)
    ensures
        head_index(swung(head, index)) == index,
        head_generation(head) < u32::MAX ==> head_generation(swung(head, index))
            == head_generation(head) + 1,
        head_generation(head) == u32::MAX ==> head_generation(swung(head, index)) == 0,
{
    law_unpack_after_pack(index, later_generation(head_generation(head), 1));
}

/// Generations count changes, one by one.
pub proof fn law_generations_count(generation: u32, steps: nat)
    ensures
        later_generation(generation, 0) == generation,
        later_generation(generation, steps) < u32::MAX ==> later_generation(generation, steps + 1)
            == later_generation(generation, steps) + 1,
        later_generation(generation, steps) == u32::MAX ==> later_generation(generation, steps + 1)
            == 0,
{
    lemma_generations_add_up(generation, steps, 1);
}

/// The empty head names no slot, and nothing has changed yet.
pub proof fn law_empty_head_names_no_slot()
    ensures
        head_index(EMPTY) == u32::MAX,
        head_generation(EMPTY) == 0,
{
    law_head_is_index_and_generation(EMPTY);
    law_packed_is_index_and_generation(u32::MAX, 0);
    law_unpack_after_pack(u32::MAX, 0);
}

impl TreiberStack {
    /// The head names the top slot, and following the links from there one meets
    /// the slots of the stack, and then the null link.
    pub proof fn law_words_hold_the_stack(&self, next: Seq<u32>)
        requires
            self.wf(next),
        ensures
            self@.len() == 0 <==> head_index(self.head()) == u32::MAX,
            self@.len() > 0 ==> head_index(self.head()) == self@[0],
            forall|i: int|
                0 <= i < self@.len() - 1 ==> next[#[trigger] self@[i] as int] == self@[i + 1],
            self@.len() > 0 ==> next[self@.last() as int] == u32::MAX,
            self@.no_duplicates(),
    {
        assert forall|i: int| 0 <= i < self@.len() implies next[#[trigger] self@[i] as int]
            == chain::link_after(self@, i) by {}
    }
}

} // verus!
