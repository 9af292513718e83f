//! Restartable sequences (RSEQ) for CPU-local operations.
//!
//! On Linux, RSEQ allows executing a critical section that is atomically
//! committed relative to the current CPU. If the thread is preempted or
//! migrated, the kernel restarts the critical section from the beginning.
//!
//! ## Why not just read cpu_id?
//!
//! If we just read the CPU ID and then accessed per-CPU data with separate
//! instructions, we could get migrated between the read and the access, and
//! then mutate the wrong CPU's data structure. With RSEQ the *entire*
//! read-CPU + access-data sequence is a critical section that restarts if we
//! migrate.
//!
//! ## Operations
//!
//! - [`per_cpu_pop`]: Pop a slot index from a per-CPU free list (alloc fast path)
//! - [`per_cpu_push`]: Push a slot index to a per-CPU free list (same-CPU free)
//!
//! Both take what the kernel has written into the thread's RSEQ area each time
//! that the section is started. After some restarts it is given up. A thread
//! without an area (RSEQ is missing, or could not be registered) passes `None`.
//! On failure they return `Err(cpu_id_hint)`, so that the caller can fall back to
//! other operations.

use crate::chain::NULL;
use crate::cpulist;
use crate::fallback;
use crate::padded;
use crossbeam_utils::CachePadded;
use vstd::arithmetic::power2::lemma2_to64;
use vstd::arithmetic::power2::pow2;
use vstd::bits::lemma_usize_shl_is_mul;
use vstd::prelude::*;

verus! {

/// Head of a per-CPU free list, on a cache line of its own to prevent false
/// sharing between CPUs.
pub type CpuHead = CachePadded<u32>;

/// The kernel RSEQ ABI structure.
#[derive(Clone, Copy)]
pub struct Rseq {
    pub cpu_id_start: u32,
    pub cpu_id: u32,
    pub rseq_cs: u64,
    pub flags: u32,
}

/// What `cpu_id_start` and `cpu_id` of a thread's own area hold until the kernel has
/// registered it.
pub const UNREGISTERED: u32 = u32::MAX;

/// How often a critical section looks for its CPU: once before each run, and
/// once more before it gives up.
pub const SECTION_LOOKS: usize = 5;

/// Stride in bytes between per-CPU heads (= CachePadded alignment).
pub fn head_stride() -> (stride: usize)
    ensures
        stride == vstd::layout::size_of::<CpuHead>(),
        stride == pow2(head_stride_log2()),
        4 <= head_stride_log2() <= 8,
{
    let stride: usize = padded::padded_size();
    proof {
        lemma_stride_log2(stride);
    }
    stride
}

/// log2 of the stride, for shift-based addressing.
pub fn head_shift() -> (shift: u32)
    ensures
        shift == head_stride_log2(),
        vstd::layout::size_of::<CpuHead>() == pow2(shift as nat),
{
    let stride: usize = padded::padded_size();
    proof {
        lemma_stride_log2(stride);
    }
    if stride == 16 {
        4
    } else if stride == 32 {
        5
    } else if stride == 64 {
        6
    } else if stride == 128 {
        7
    } else {
        8
    }
}

/// log2 of the stride between heads.
pub open spec fn head_stride_log2() -> nat {
    let stride = vstd::layout::size_of::<CpuHead>();
    if stride == 16 {
        4
    } else if stride == 32 {
        5
    } else if stride == 64 {
        6
    } else if stride == 128 {
        7
    } else {
        8
    }
}

proof fn lemma_stride_log2(stride: usize)
    requires
        stride == vstd::layout::size_of::<CpuHead>(),
        stride == 16 || stride == 32 || stride == 64 || stride == 128 || stride == 256,
    ensures
        stride == pow2(head_stride_log2()),
{
    lemma2_to64();
}

/// The byte offset of the head of CPU `cpu` from the first head.
pub fn head_offset(cpu: usize) -> (offset: usize)
    requires
        cpu * vstd::layout::size_of::<CpuHead>() <= usize::MAX,
    ensures
        offset == cpu * vstd::layout::size_of::<CpuHead>(),
        offset == cpu << head_stride_log2(),
{
    let shift: u32 = head_shift();
    proof {
        law_shift_finds_the_head(cpu);
    }
    cpu << shift
}

/// The indices in a sequence of heads.
pub open spec fn head_values(heads: Seq<CpuHead>) -> Seq<u32> {
    heads.map_values(|head: CpuHead| padded::padded_value(head))
}

/// The look at which a critical section ends that starts with look `at`: the
/// thread has seen a CPU without a head, or it has stayed on the CPU that it has
/// seen, or it has no looks left.
pub open spec fn last_look(looks: Seq<Rseq>, at: int, num_heads: nat) -> int
    decreases looks.len() - at,
{
    if at + 1 >= looks.len() || looks[at].cpu_id_start >= num_heads || looks[at].cpu_id
        == looks[at].cpu_id_start {
        at
    } else {
        last_look(looks, at + 1, num_heads)
    }
}

/// The CPU whose head a critical section can commit to: the first one that the
/// area names and that the thread stays on, if there is a head for it. `looks` is
/// what the thread sees in its area each time that it starts the section; a run
/// that the kernel restarts is one where `cpu_id` is no longer `cpu_id_start`. At
/// the last look it gives up.
pub open spec fn section_cpu(looks: Option<[Rseq; SECTION_LOOKS]>, num_heads: nat) -> Option<int> {
    match looks {
        Some(seen) => {
            let last = last_look(seen@, 0, num_heads);
            if last + 1 < SECTION_LOOKS && seen@[last].cpu_id_start < num_heads {
                Some(seen@[last].cpu_id_start as int)
            } else {
                None
            }
        },
        None => None,
    }
}

/// The CPU that a failed critical section reports: the last one observed.
pub open spec fn cpu_hint(
    looks: Option<[Rseq; SECTION_LOOKS]>,
    fallback_cpu: usize,
    num_heads: nat,
) -> usize {
    match looks {
        Some(seen) => seen@[last_look(seen@, 0, num_heads)].cpu_id_start as usize,
        None => fallback_cpu,
    }
}

/// The last look is one of those that the thread has, and at all looks before it
/// the thread was preempted on a CPU with a head.
pub proof fn lemma_last_look(looks: Seq<Rseq>, at: int, num_heads: nat)
    requires
        0 <= at < looks.len(),
    ensures
        at <= last_look(looks, at, num_heads) < looks.len(),
        forall|i: int|
            at <= i < last_look(looks, at, num_heads) ==> (#[trigger] looks[i]).cpu_id_start
                < num_heads && looks[i].cpu_id != looks[i].cpu_id_start,
    decreases looks.len() - at,
{
    if !(at + 1 >= looks.len() || looks[at].cpu_id_start >= num_heads || looks[at].cpu_id
        == looks[at].cpu_id_start) {
        lemma_last_look(looks, at + 1, num_heads);
    }
}

/// The number of possible CPU indices: what the kernel's list says, if there is
/// one, else what the system reports.
pub open spec fn possible(content: Option<Seq<char>>, parallelism: Option<usize>) -> nat {
    match content {
        Some(list) => cpulist::largest_end(cpulist::trimmed(list)) + 1,
        None => fallback::count(parallelism) as nat,
    }
}

/// Number of possible CPU indices (used to size per-CPU arrays).
///
/// `content` is the kernel's list of possible CPUs, if it could be read, and
/// `parallelism` what the system reports of its parallelism, if it does.
pub fn possible_cpus(content: Option<&str>, parallelism: Option<usize>) -> (cpus: usize)
    requires
        content matches Some(list) ==> cpulist::largest_end(cpulist::trimmed(list@)) < usize::MAX,
    ensures
        cpus == possible(
            match content {
                Some(list) => Some(list@),
                None => None,
            },
            parallelism,
        ),
        (parallelism matches Some(n) ==> n >= 1) ==> cpus >= 1,
{
    match content {
        Some(list) => cpulist::last_possible_cpu(list) + 1,
        None => fallback::possible_cpus(parallelism),
    }
}

/// The CPU that a thread is taken to be on.
pub open spec fn current_cpu(area: Option<Rseq>, fallback_cpu: usize) -> usize {
    match area {
        Some(rseq) => if rseq.cpu_id_start == UNREGISTERED {
            fallback_cpu
        } else {
            rseq.cpu_id_start as usize
        },
        None => fallback_cpu,
    }
}

/// What a thread sees in its RSEQ area each time that an operation on a pool
/// looks there. The thread may be migrated between two looks.
#[derive(Clone, Copy)]
pub struct Sightings {
    /// The CPU index that the thread goes by where its area does not tell.
    pub fallback_cpu: usize,
    /// The area each time that the critical section is started, if the thread
    /// has one.
    pub section: Option<[Rseq; SECTION_LOOKS]>,
    /// The area at the first look outside of the critical section.
    pub first: Option<Rseq>,
    /// The area at the second look outside of it.
    pub second: Option<Rseq>,
}

impl Sightings {
    /// A thread that stays where it is.
    pub open spec fn is_steady(self) -> bool {
        &&& self.first == self.second
        &&& looks_like(self.section, self.first)
    }

    /// The same area at each look.
    pub fn steady(area: Option<Rseq>, fallback_cpu: usize) -> (seen: Sightings)
        ensures
            seen.fallback_cpu == fallback_cpu,
            seen.first == area,
            seen.second == area,
            seen.section is Some <==> area is Some,
            forall|i: int|
                area is Some && 0 <= i < SECTION_LOOKS ==> #[trigger] seen.section->0@[i] == area->0,
            seen.is_steady(),
    {
        let section = match area {
            Some(rseq) => Some([rseq, rseq, rseq, rseq, rseq]),
            None => None,
        };
        Sightings { fallback_cpu, section, first: area, second: area }
    }
}

/// Each look of a critical section finds `area`.
pub open spec fn looks_like(looks: Option<[Rseq; SECTION_LOOKS]>, area: Option<Rseq>) -> bool {
    match (looks, area) {
        (Some(seen), Some(rseq)) => forall|i: int|
            0 <= i < SECTION_LOOKS ==> #[trigger] seen@[i] == rseq,
        (None, None) => true,
        _ => false,
    }
}

/// Get the current CPU index (best-effort, may be stale).
///
/// `area` is the thread's RSEQ area, `fallback_cpu` the CPU index that the
/// thread goes by where the area does not tell.
///
/// For operations that need atomicity with respect to CPU identity,
/// use [`per_cpu_pop`] or [`per_cpu_push`] instead.
#[inline]
pub fn cpu_id(area: Option<Rseq>, fallback_cpu: usize) -> (cpu: usize)
    ensures
        cpu == current_cpu(area, fallback_cpu),
{
    match area {
        Some(rseq) => {
            if rseq.cpu_id_start == UNREGISTERED {
                fallback_cpu
            } else {
                rseq.cpu_id_start as usize
            }
        },
        None => fallback_cpu,
    }
}

/// Whether RSEQ is available on this thread: it has an area, and the kernel
/// keeps the area up to date.
#[inline]
pub fn is_available(area: Option<Rseq>) -> (available: bool)
    ensures
        available <==> (area matches Some(rseq) && rseq.cpu_id_start != UNREGISTERED),
{
    match area {
        Some(rseq) => rseq.cpu_id_start != UNREGISTERED,
        None => false,
    }
}

/// What a pop decides from the head of a local list: the slot to take, or `None`
/// if the list is empty.
#[inline]
pub fn list_candidate(head: u32) -> (candidate: Option<u32>)
    ensures
        candidate == (if head == NULL {
            None
        } else {
            Some(head)
        }),
{
    if head == NULL {
        None
    } else {
        Some(head)
    }
}

/// Whether a critical section is run, given how many looks are left: the number
/// that is left then, or `None` if it is given up.
#[inline]
pub fn section_retry(left: u32) -> (rest: Option<u32>)
    ensures
        rest == (if left <= 1 {
            None
        } else {
            Some((left - 1) as u32)
        }),
{
    if left <= 1 {
        None
    } else {
        Some(left - 1)
    }
}

/// The start of both critical sections: the CPU to commit to, or the hint.
///
/// 1. Read cpu_id_start, bounds-check
/// 2. Retry limit
/// 3. Verify cpu_id matches (still on same CPU), else start again
#[inline]
pub fn enter_section(
    looks: Option<[Rseq; SECTION_LOOKS]>,
    fallback_cpu: usize,
    num_heads: usize,
) -> (cpu: Result<usize, usize>)
    ensures
        match section_cpu(looks, num_heads as nat) {
            Some(c) => cpu == Ok::<usize, usize>(c as usize),
            None => cpu == Err::<usize, usize>(cpu_hint(looks, fallback_cpu, num_heads as nat)),
        },
{
    match looks {
        None => Err(fallback_cpu),
        Some(seen) => {
            let mut left: u32 = SECTION_LOOKS as u32;
            let mut at: usize = 0;
            loop
                invariant
                    at < SECTION_LOOKS,
                    left == SECTION_LOOKS - at,
                    looks == Some(seen),
                    last_look(seen@, 0, num_heads as nat) == last_look(
                        seen@,
                        at as int,
                        num_heads as nat,
                    ),
                decreases left,
            {
                let rseq: Rseq = seen[at];
                let cpu: usize = rseq.cpu_id_start as usize;
                if cpu >= num_heads {
                    return Err(cpu);
                }
                match section_retry(left) {
                    None => {
                        return Err(cpu);
                    },
                    Some(rest) => {
                        left = rest;
                    },
                }
                if rseq.cpu_id == rseq.cpu_id_start {
                    return Ok(cpu);
                }
                at += 1;
            }
        },
    }
}

/// Pop a slot index from the per-CPU free list head at `heads[cpu]`.
///
/// On success, returns `Ok((slot_index, cpu))`. On failure (no RSEQ, empty
/// list, or repeated preemption), returns `Err(cpu_hint)` where `cpu_hint` is the last
/// observed CPU.
///
/// Critical section:
/// 1. Read cpu_id_start, bounds-check
/// 2. Verify cpu_id matches (still on same CPU), else start again
/// 3. Load head value; if NULL, bail
/// 4. Load next[head]
/// 5. Store next[head] into heads[cpu]: COMMIT
#[inline]
pub fn per_cpu_pop(
    looks: Option<[Rseq; SECTION_LOOKS]>,
    fallback_cpu: usize,
    heads: &mut [CpuHead],
    next: &[u32],
) -> (popped: Result<(u32, usize), usize>)
    requires
        forall|c: int|
            #![trigger head_values(old(heads)@)[c]]
            0 <= c < old(heads)@.len() && head_values(old(heads)@)[c] != NULL ==> head_values(
                old(heads)@,
            )[c] < next@.len(),
    ensures
        final(heads)@.len() == old(heads)@.len(),
        match section_cpu(looks, old(heads)@.len()) {
            Some(c) => {
                let head = head_values(old(heads)@)[c];
                if head == NULL {
                    &&& popped == Err::<(u32, usize), usize>(c as usize)
                    &&& final(heads)@ == old(heads)@
                } else {
                    &&& popped == Ok::<(u32, usize), usize>((head, c as usize))
                    &&& head_values(final(heads)@) == head_values(old(heads)@).update(
                        c,
                        next@[head as int],
                    )
                }
            },
            None => {
                &&& popped == Err::<(u32, usize), usize>(cpu_hint(looks, fallback_cpu, old(heads)@.len()))
                &&& final(heads)@ == old(heads)@
            },
        },
{
    match enter_section(looks, fallback_cpu, heads.len()) {
        Err(hint) => Err(hint),
        Ok(cpu) => {
            match list_candidate(padded::read_padded(&heads[cpu])) {
                None => Err(cpu),
                Some(head) => {
                    assert(head_values(heads@)[cpu as int] == head);
                    let next_idx: u32 = next[head as usize];
                    heads[cpu] = padded::padded(next_idx);
                    assert(head_values(heads@) =~= head_values(old(heads)@).update(
                        cpu as int,
                        next_idx,
                    ));
                    Ok((head, cpu))
                },
            }
        },
    }
}

/// Push a slot index onto the per-CPU free list head at `heads[cpu]`.
///
/// On success, returns `Ok(cpu)` with the CPU the push was committed on. On
/// failure, returns `Err(cpu_hint)`.
///
/// Critical section:
/// 1. Read cpu_id_start, bounds-check
/// 2. Verify cpu_id matches, else start again
/// 3. Load current heads[cpu]
/// 4. Store old head into next[index]
/// 5. Store index into heads[cpu]: COMMIT
#[inline]
pub fn per_cpu_push(
    looks: Option<[Rseq; SECTION_LOOKS]>,
    fallback_cpu: usize,
    heads: &mut [CpuHead],
    next: &mut [u32],
    index: u32,
) -> (pushed: Result<usize, usize>)
    requires
        index < old(next)@.len(),
    ensures
        final(heads)@.len() == old(heads)@.len(),
        match section_cpu(looks, old(heads)@.len()) {
            Some(c) => {
                &&& pushed == Ok::<usize, usize>(c as usize)
                &&& final(next)@ == old(next)@.update(index as int, head_values(old(heads)@)[c])
                &&& head_values(final(heads)@) == head_values(old(heads)@).update(c, index)
            },
            None => {
                &&& pushed == Err::<usize, usize>(cpu_hint(looks, fallback_cpu, old(heads)@.len()))
                &&& final(heads)@ == old(heads)@
                &&& final(next)@ == old(next)@
            },
        },
{
    match enter_section(looks, fallback_cpu, heads.len()) {
        Err(hint) => Err(hint),
        Ok(cpu) => {
            let head: u32 = padded::read_padded(&heads[cpu]);
            next[index as usize] = head;
            heads[cpu] = padded::padded(index);
            assert(head_values(heads@) =~= head_values(old(heads)@).update(cpu as int, index));
            Ok(cpu)
        },
    }
}

/// The index of the current CPU is one of the possible CPU indices, for every
/// thread, whatever its area says and whatever ticket it has drawn. Of the
/// machine this takes that the kernel counts the CPU that it writes into an area
/// among the possible ones, and that the system reports no more parallelism than
/// the kernel lists CPUs. A thread without an area on a system without a list
/// takes nothing.
pub proof fn law_cpu_id_in_range(
    content: Option<Seq<char>>,
    parallelism: Option<usize>,
    area: Option<Rseq>,
    ticket: usize,
)
    requires
        parallelism matches Some(n) ==> n > 0,
        area matches Some(rseq) ==> rseq.cpu_id_start == UNREGISTERED || rseq.cpu_id_start
            < possible(content, parallelism),
        content is Some ==> fallback::count(parallelism) <= possible(content, parallelism),
    ensures
        current_cpu(
            area,
            (ticket as int % fallback::count(parallelism) as int) as usize,
        ) < possible(content, parallelism),
{
}

/// A pop in a critical section undoes a push in a critical section on the same
/// CPU: it gives back the slot and leaves the heads as they were. `heads` and
/// `next` are what was there before the push.
pub proof fn law_section_pop_undoes_push(heads: Seq<u32>, next: Seq<u32>, cpu: int, index: u32)
    requires
        0 <= cpu < heads.len(),
        index < next.len(),
    ensures
        ({
            let pushed_heads = heads.update(cpu, index);
            let pushed_next = next.update(index as int, heads[cpu]);
            &&& pushed_heads[cpu] == index
            &&& pushed_heads.update(cpu, pushed_next[index as int]) == heads
        }),
{
    let pushed_next = next.update(index as int, heads[cpu]);
    assert(heads.update(cpu, index).update(cpu, pushed_next[index as int]) =~= heads);
}

/// Shifting a CPU index by log2 of the stride gives the byte offset of its head.
pub proof fn law_shift_finds_the_head(cpu: usize)
    requires
        vstd::layout::size_of::<CpuHead>() == pow2(head_stride_log2()),
        head_stride_log2() <= 8,
        cpu * vstd::layout::size_of::<CpuHead>() <= usize::MAX,
    ensures
        cpu << head_stride_log2() == cpu * vstd::layout::size_of::<CpuHead>(),
{
    lemma_usize_shl_is_mul(cpu, head_stride_log2() as usize);
}

/// Heads of different CPUs stand a stride apart or more.
pub proof fn law_heads_stand_apart(c: int, d: int)
    requires
        c < d,
    ensures
        c * vstd::layout::size_of::<CpuHead>() + vstd::layout::size_of::<CpuHead>() <= d
            * vstd::layout::size_of::<CpuHead>(),
{
    let stride = vstd::layout::size_of::<CpuHead>() as int;
    assert((c + 1) * stride <= d * stride) by (nonlinear_arith)
        requires
            c + 1 <= d,
            0 <= stride,
    ;
    assert((c + 1) * stride == c * stride + stride) by (nonlinear_arith);
}

/// A critical section of a thread that is only seen on CPUs with heads fails
/// exactly if each of its runs was preempted.
pub proof fn law_section_fails_on_repeated_preemption_only(
    looks: [Rseq; SECTION_LOOKS],
    num_heads: nat,
)
    requires
        forall|i: int|
            0 <= i < SECTION_LOOKS ==> (#[trigger] looks@[i]).cpu_id_start < num_heads,
    ensures
        section_cpu(Some(looks), num_heads) is None <==> forall|i: int|
            0 <= i < SECTION_LOOKS - 1 ==> (#[trigger] looks@[i]).cpu_id != looks@[i].cpu_id_start,
{
    lemma_last_look(looks@, 0, num_heads);
    lemma_last_look_ends(looks@, 0, num_heads);
}

proof fn lemma_last_look_ends(looks: Seq<Rseq>, at: int, num_heads: nat)
    requires
        0 <= at < looks.len(),
    ensures
        ({
            let last = last_look(looks, at, num_heads);
            last + 1 >= looks.len() || looks[last].cpu_id_start >= num_heads || looks[last].cpu_id
                == looks[last].cpu_id_start
        }),
    decreases looks.len() - at,
{
    if !(at + 1 >= looks.len() || looks[at].cpu_id_start >= num_heads || looks[at].cpu_id
        == looks[at].cpu_id_start) {
        lemma_last_look_ends(looks, at + 1, num_heads);
    }
}

/// A critical section is committed on the CPU of look `at`, if the thread was
/// preempted at all looks before, on CPUs with heads, and stays there, on a CPU
/// with a head; but not at the last look.
pub proof fn law_section_commits_where_the_thread_stays(
    looks: [Rseq; SECTION_LOOKS],
    num_heads: nat,
    at: int,
)
    requires
        0 <= at < SECTION_LOOKS - 1,
        forall|i: int|
            0 <= i < at ==> (#[trigger] looks@[i]).cpu_id_start < num_heads && looks@[i].cpu_id
                != looks@[i].cpu_id_start,
        looks@[at].cpu_id_start < num_heads,
        looks@[at].cpu_id == looks@[at].cpu_id_start,
    ensures
        section_cpu(Some(looks), num_heads) == Some(looks@[at].cpu_id_start as int),
{
    lemma_last_look(looks@, 0, num_heads);
    lemma_last_look_ends(looks@, 0, num_heads);
}

/// A critical section fails at look `at`, if the thread was preempted at all looks
/// before, on CPUs with heads, and this is the last look, or one that finds a CPU
/// without a head. It reports that CPU.
pub proof fn law_section_fails_without_a_head_or_looks(
    looks: [Rseq; SECTION_LOOKS],
    fallback_cpu: usize,
    num_heads: nat,
    at: int,
)
    requires
        0 <= at < SECTION_LOOKS,
        forall|i: int|
            0 <= i < at ==> (#[trigger] looks@[i]).cpu_id_start < num_heads && looks@[i].cpu_id
                != looks@[i].cpu_id_start,
        at == SECTION_LOOKS - 1 || looks@[at].cpu_id_start >= num_heads,
    ensures
        section_cpu(Some(looks), num_heads) is None,
        cpu_hint(Some(looks), fallback_cpu, num_heads) == looks@[at].cpu_id_start,
{
    lemma_last_look(looks@, 0, num_heads);
    lemma_last_look_ends(looks@, 0, num_heads);
}

/// A thread without an area commits nothing and goes by its own index; one with an
/// area that is registered goes by what the kernel has written there.
pub proof fn law_area_tells_the_cpu(area: Rseq, fallback_cpu: usize, num_heads: nat)
    ensures
        section_cpu(None, num_heads) is None,
        cpu_hint(None, fallback_cpu, num_heads) == fallback_cpu,
        current_cpu(None, fallback_cpu) == fallback_cpu,
        area.cpu_id_start == u32::MAX ==> current_cpu(Some(area), fallback_cpu) == fallback_cpu,
        area.cpu_id_start != u32::MAX ==> current_cpu(Some(area), fallback_cpu)
            == area.cpu_id_start,
        SECTION_LOOKS == 5,
{
}

/// Heads hold what their cells hold, each its own.
pub proof fn law_heads_hold_their_cells(heads: Seq<CpuHead>, c: int)
    requires
        0 <= c < heads.len(),
    ensures
        head_values(heads).len() == heads.len(),
        head_values(heads)[c] == padded::padded_value(heads[c]),
{
}

/// Where the kernel has no list, the number of CPUs is what the system reports, or
/// four.
pub proof fn law_without_a_list_the_system_counts(n: usize)
    ensures
        possible(None, Some(n)) == n,
        possible(None, None) == 4,
{
}

/// A numeral as the kernel's list, alone or as the end of a range, with white space
/// around it or not, gives one CPU more than it says.
pub proof fn law_numeral_counts_the_cpus(
    before: Seq<char>,
    first: Option<nat>,
    last: nat,
    after: Seq<char>,
    parallelism: Option<usize>,
)
    requires
        last <= usize::MAX,
        cpulist::is_blank(before),
        cpulist::is_blank(after),
    ensures
        possible(Some(before + cpulist::range_text(first, last) + after), parallelism) == last + 1,
{
    cpulist::law_numeral_is_read(before, first, last, after);
}

/// A list of such entries, separated by commas, gives more CPUs than the end of
/// each entry says, and one more than one of them says.
pub proof fn law_list_counts_the_cpus(
    before: Seq<char>,
    ranges: Seq<(Option<nat>, nat)>,
    after: Seq<char>,
    parallelism: Option<usize>,
)
    requires
        ranges.len() > 0,
        forall|i: int| 0 <= i < ranges.len() ==> (#[trigger] ranges[i]).1 <= usize::MAX,
        cpulist::is_blank(before),
        cpulist::is_blank(after),
    ensures
        ({
            let cpus = possible(Some(before + cpulist::list_text(ranges) + after), parallelism);
            &&& forall|i: int| 0 <= i < ranges.len() ==> cpus > (#[trigger] ranges[i]).1
            &&& exists|i: int| 0 <= i < ranges.len() && cpus == (#[trigger] ranges[i]).1 + 1
        }),
{
    cpulist::law_list_is_read(before, ranges, after);
}

/// Where the kernel has a list, that counts, whatever the system reports: there is
/// one CPU more than the largest end of its entries says.
pub proof fn law_list_goes_before_the_system(list: Seq<char>, parallelism: Option<usize>)
    ensures
        possible(Some(list), parallelism) == possible(Some(list), None),
        possible(Some(list), parallelism) - 1 == cpulist::largest_end(cpulist::trimmed(list)),
{
}

} // verus!
