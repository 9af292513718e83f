//! What holds of a pool across its operations.

use crate::model;
use crate::model::PoolModel;
use crate::rseq;
use crate::rseq::Rseq;
use crate::rseq::SECTION_LOOKS;
use crate::storage::PoolConfig;
use crate::storage::Storage;
use vstd::prelude::*;

verus! {

/// The CPUs that an operation may be run on.
pub open spec fn on_cpus(m: PoolModel, fast: Option<int>, pop: int, slow: int) -> bool {
    &&& fast matches Some(cpu) ==> 0 <= cpu < m.cpus
    &&& 0 <= pop < m.cpus
    &&& 0 <= slow < m.cpus
}

/// A new pool is valid, and none of its slots is in use.
pub proof fn law_fresh_pool_is_free(cpus: nat, slots: nat)
    requires
        cpus >= 1,
        slots <= u32::MAX,
    ensures
        PoolModel::fresh(cpus, slots).valid(),
        PoolModel::fresh(cpus, slots).in_use() == Set::<u32>::empty(),
{
    let m = PoolModel::fresh(cpus, slots);
    assert forall|slot: u32| slot < slots implies model::listed(m.lists, slot) by {
        assert(m.lists[m.global_at()][slot as int] == slot);
    }
    assert(m.in_use() =~= Set::<u32>::empty());
}

/// Allocating a slot and freeing it leaves in use what was in use before,
/// wherever the thread is and whatever the capacities are.
pub proof fn law_free_undoes_allocate(
    m: PoolModel,
    fast: Option<int>,
    pop: int,
    slow: int,
    batch: u32,
    cpu: int,
    section: Option<int>,
    local_limit: int,
    remote_limit: int,
)
    requires
        m.valid(),
        on_cpus(m, fast, pop, slow),
        0 <= cpu < m.cpus,
        section matches Some(c) ==> 0 <= c < m.cpus,
        m.allocate(fast, pop, slow, batch).0 is Some,
    ensures
        ({
            let (slot, after) = m.allocate(fast, pop, slow, batch);
            let freed = after.free(slot->0, cpu, section, local_limit, remote_limit);
            &&& freed.valid()
            &&& freed.in_use() == m.in_use()
        }),
{
    let (slot, after) = m.allocate(fast, pop, slow, batch);
    m.law_allocate_hands_out_a_free_slot(fast, pop, slow, batch);
    after.law_free_returns_the_slot(slot->0, cpu, section, local_limit, remote_limit);
    assert(m.in_use().insert(slot->0).remove(slot->0) =~= m.in_use());
}

/// A slot that its home CPU frees to its local list is what that CPU allocates
/// next, and then the free lists are what they were.
pub proof fn law_allocate_after_local_free_reuses_the_slot(
    m: PoolModel,
    slot: u32,
    cpu: int,
    batch: u32,
    local_limit: int,
    remote_limit: int,
)
    requires
        m.valid(),
        m.in_use().contains(slot),
        0 <= cpu < m.cpus,
        m.home_of(slot) == cpu,
        m.local(cpu).len() < local_limit,
    ensures
        ({
            let freed = m.free(slot, cpu, None, local_limit, remote_limit);
            let (again, after) = freed.allocate(None, cpu, cpu, batch);
            &&& again == Some(slot)
            &&& after.lists == m.lists
            &&& after.in_use() == m.in_use()
        }),
{
    let freed = m.free(slot, cpu, None, local_limit, remote_limit);
    let (again, after) = freed.allocate(None, cpu, cpu, batch);
    let list = seq![slot] + m.local(cpu);
    assert(list.subrange(1, list.len() as int) =~= m.local(cpu));
    assert(after.lists =~= m.lists);
    assert(after.in_use() =~= m.in_use());
}

/// Exactly when allocation fails: the local lists looked at are empty, the
/// remote queue holds its sentinel at most, and the global stack is empty (or
/// batches are).
pub proof fn law_when_allocate_fails(
    m: PoolModel,
    fast: Option<int>,
    pop: int,
    slow: int,
    batch: u32,
)
    requires
        m.valid(),
        on_cpus(m, fast, pop, slow),
    ensures
        m.allocate(fast, pop, slow, batch).0 is None <==> {
            &&& fast matches Some(cpu) ==> m.local(cpu).len() == 0
            &&& m.local(pop).len() == 0
            &&& m.remote(slow).len() <= 1
            &&& m.global().len() == 0 || batch == 0
        },
{
}

/// A pool whose slots are all in use has none to give.
pub proof fn law_exhausted_pool_gives_nothing(
    m: PoolModel,
    fast: Option<int>,
    pop: int,
    slow: int,
    batch: u32,
)
    requires
        m.valid(),
        on_cpus(m, fast, pop, slow),
        forall|slot: u32| slot < m.slots() ==> m.in_use().contains(slot),
    ensures
        m.allocate(fast, pop, slow, batch) == (None::<u32>, m),
{
    m.law_allocate_hands_out_a_free_slot(fast, pop, slow, batch);
}

/// All free slots are where CPU `cpu` finds them: on its local list or on the
/// global stack.
pub open spec fn lone_cpu(m: PoolModel, cpu: int) -> bool {
    &&& m.valid()
    &&& 0 <= cpu < m.cpus
    &&& forall|a: int|
        0 <= a < m.lists.len() && a != cpu && a != m.global_at() ==> (#[trigger] m.lists[a]).len()
            == 0
}

/// The number of slots that CPU `cpu` finds on its own.
pub open spec fn supply(m: PoolModel, cpu: int) -> nat {
    m.local(cpu).len() + m.global().len()
}

/// As long as only one CPU allocates, it gets a slot exactly if not all slots
/// are in use.
pub proof fn law_lone_cpu_finds_every_slot(m: PoolModel, cpu: int, fast: Option<int>, batch: u32)
    requires
        lone_cpu(m, cpu),
        fast matches Some(c) ==> c == cpu,
        batch >= 1,
    ensures
        ({
            let (slot, after) = m.allocate(fast, cpu, cpu, batch);
            &&& lone_cpu(after, cpu)
            &&& slot is None <==> forall|s: u32| s < m.slots() ==> m.in_use().contains(s)
            &&& slot is None <==> supply(m, cpu) == 0
            &&& slot is Some ==> supply(after, cpu) == supply(m, cpu) - 1
        }),
{
    let (slot, after) = m.allocate(fast, cpu, cpu, batch);
    m.law_allocate_hands_out_a_free_slot(fast, cpu, cpu, batch);
    assert(m.lists[m.cpus + cpu].len() == 0);
    if supply(m, cpu) == 0 {
        assert forall|s: u32| s < m.slots() implies m.in_use().contains(s) by {
            if model::listed(m.lists, s) {
                let (a, i) = choose|a: int, i: int|
                    0 <= a < m.lists.len() && 0 <= i < m.lists[a].len() && #[trigger] m.lists[a][i]
                        == s;
                assert(m.lists[a].len() == 0);
            }
        }
    } else {
        assert(!m.in_use().contains(slot->0));
        assert(slot->0 < m.slots());
    }
}

/// The slots that CPU `cpu` gets when it allocates `times` times in a row, and
/// the pool after that.
pub open spec fn allocations(m: PoolModel, cpu: int, batch: u32, times: nat) -> (
    Seq<u32>,
    PoolModel,
)
    decreases times,
{
    if times == 0 {
        (Seq::empty(), m)
    } else {
        let (got, before) = allocations(m, cpu, batch, (times - 1) as nat);
        let (slot, after) = before.allocate(Some(cpu), cpu, cpu, batch);
        match slot {
            Some(s) => (got.push(s), after),
            None => (got, after),
        }
    }
}

/// A new pool gives a CPU as many slots as it has, all different, and no more.
pub proof fn law_fresh_pool_gives_every_slot_once(
    cpus: nat,
    slots: nat,
    cpu: int,
    batch: u32,
    times: nat,
)
    requires
        0 <= cpu < cpus,
        slots <= u32::MAX,
        batch >= 1,
    ensures
        ({
            let (got, after) = allocations(PoolModel::fresh(cpus, slots), cpu, batch, times);
            &&& got.len() == model::smaller(times as int, slots as int)
            &&& got.no_duplicates()
            &&& lone_cpu(after, cpu)
            &&& supply(after, cpu) == slots - got.len()
            &&& after.slots() == slots
            &&& forall|i: int| 0 <= i < got.len() ==> after.in_use().contains(#[trigger] got[i])
        }),
    decreases times,
{
    let m = PoolModel::fresh(cpus, slots);
    law_fresh_pool_is_free(cpus, slots);
    if times > 0 {
        let (got, before) = allocations(m, cpu, batch, (times - 1) as nat);
        law_fresh_pool_gives_every_slot_once(cpus, slots, cpu, batch, (times - 1) as nat);
        law_lone_cpu_finds_every_slot(before, cpu, Some(cpu), batch);
        before.law_allocate_hands_out_a_free_slot(Some(cpu), cpu, cpu, batch);
        let (slot, after) = before.allocate(Some(cpu), cpu, cpu, batch);
        if let Some(s) = slot {
            assert forall|i: int| 0 <= i < got.len() implies got[i] != s by {
                assert(before.in_use().contains(got[i]));
            }
            let more = got.push(s);
            assert forall|i: int| 0 <= i < more.len() implies after.in_use().contains(
                #[trigger] more[i],
            ) by {
                if i < got.len() {
                    assert(before.in_use().contains(got[i]));
                }
            }
        }
    }
}

/// As long as only one CPU allocates and frees, what it frees while its local
/// list has room stays where that CPU finds it.
pub proof fn law_lone_cpu_keeps_what_it_frees(
    m: PoolModel,
    slot: u32,
    cpu: int,
    fast: Option<int>,
    local_limit: int,
    remote_limit: int,
)
    requires
        lone_cpu(m, cpu),
        m.in_use().contains(slot),
        m.home_of(slot) == cpu,
        fast matches Some(c) ==> c == cpu,
        m.local(cpu).len() < local_limit,
    ensures
        ({
            let after = m.free(slot, cpu, fast, local_limit, remote_limit);
            &&& lone_cpu(after, cpu)
            &&& supply(after, cpu) == supply(m, cpu) + 1
            &&& after.local(cpu).len() <= local_limit
        }),
{
    m.law_free_returns_the_slot(slot, cpu, fast, local_limit, remote_limit);
}

/// A thread that stays on its CPU can allocate a slot and free it again and
/// again: each round finds a slot, leaves in use what was in use before, and
/// leaves as many slots for the next round.
pub proof fn law_rounds_go_on(
    m: PoolModel,
    cpu: int,
    fast: Option<int>,
    batch: u32,
    local_limit: int,
    remote_limit: int,
)
    requires
        lone_cpu(m, cpu),
        m.cpus <= u16::MAX,
        fast matches Some(c) ==> c == cpu,
        1 <= batch <= local_limit,
        m.local(cpu).len() <= local_limit,
        supply(m, cpu) > 0,
    ensures
        ({
            let (slot, after) = m.allocate(fast, cpu, cpu, batch);
            let freed = after.free(slot->0, cpu, fast, local_limit, remote_limit);
            &&& slot is Some
            &&& lone_cpu(freed, cpu)
            &&& freed.local(cpu).len() <= local_limit
            &&& supply(freed, cpu) == supply(m, cpu)
            &&& freed.in_use() == m.in_use()
        }),
{
    let (slot, after) = m.allocate(fast, cpu, cpu, batch);
    law_lone_cpu_finds_every_slot(m, cpu, fast, batch);
    m.law_allocate_hands_out_a_free_slot(fast, cpu, cpu, batch);
    assert(after.home[slot->0 as int] == cpu as u16);
    law_lone_cpu_keeps_what_it_frees(after, slot->0, cpu, fast, local_limit, remote_limit);
    law_free_undoes_allocate(m, fast, cpu, cpu, batch, cpu, fast, local_limit, remote_limit);
}

/// No local list and no remote queue holds more than its capacity.
pub open spec fn bounded(m: PoolModel, local_limit: int, remote_limit: int) -> bool {
    &&& forall|c: int| 0 <= c < m.cpus ==> (#[trigger] m.local(c)).len() <= local_limit
    &&& forall|c: int| 0 <= c < m.cpus ==> (#[trigger] m.remote(c)).len() <= remote_limit
}

/// What is left of a batch once one slot of it is handed out.
pub open spec fn rest_of_batch(batch: u32) -> int {
    if batch == 0 {
        0
    } else {
        batch - 1
    }
}

/// A new pool is within all capacities.
pub proof fn law_fresh_pool_is_bounded(
    cpus: nat,
    slots: nat,
    local_limit: int,
    remote_limit: int,
)
    requires
        0 <= local_limit,
        0 <= remote_limit,
    ensures
        bounded(PoolModel::fresh(cpus, slots), local_limit, remote_limit),
{
}

/// Allocation makes no remote queue longer, and gives a local list one slot less
/// than a batch at most. A thread that stays on its CPU refills an empty local
/// list only: it keeps the caches within their capacities, if a local list has
/// room for the rest of a batch.
pub proof fn law_allocate_keeps_caches_bounded(
    m: PoolModel,
    fast: Option<int>,
    pop: int,
    slow: int,
    batch: u32,
    local_limit: int,
    remote_limit: int,
)
    requires
        m.valid(),
        on_cpus(m, fast, pop, slow),
    ensures
        ({
            let after = m.allocate(fast, pop, slow, batch).1;
            &&& forall|c: int|
                0 <= c < m.cpus ==> (#[trigger] after.remote(c)).len() <= m.remote(c).len()
            &&& forall|c: int|
                0 <= c < m.cpus ==> (#[trigger] after.local(c)).len() <= m.local(c).len()
                    + rest_of_batch(batch)
            &&& pop == slow && rest_of_batch(batch) <= local_limit && bounded(
                m,
                local_limit,
                remote_limit,
            ) ==> bounded(after, local_limit, remote_limit)
        }),
{
    let after = m.allocate(fast, pop, slow, batch).1;
    if pop == slow && rest_of_batch(batch) <= local_limit && bounded(m, local_limit, remote_limit) {
        assert forall|c: int| 0 <= c < m.cpus implies (#[trigger] after.remote(c)).len()
            <= remote_limit by {
            assert(m.remote(c).len() <= remote_limit);
        }
        assert forall|c: int| 0 <= c < m.cpus implies (#[trigger] after.local(c)).len()
            <= local_limit by {
            assert(m.local(c).len() <= local_limit);
        }
    }
}

/// Freeing by a thread that stays on its CPU keeps the caches within their
/// capacities: it never takes a local list or a remote queue past its capacity.
pub proof fn law_free_keeps_caches_bounded(
    m: PoolModel,
    slot: u32,
    cpu: int,
    fast: Option<int>,
    local_limit: int,
    remote_limit: int,
)
    requires
        m.valid(),
        m.in_use().contains(slot),
        0 <= cpu < m.cpus,
        fast matches Some(c) ==> c == cpu,
    ensures
        ({
            let after = m.free(slot, cpu, fast, local_limit, remote_limit);
            &&& forall|c: int|
                0 <= c < m.cpus && (#[trigger] after.local(c)).len() > local_limit ==> after.local(
                    c,
                ) == m.local(c)
            &&& forall|c: int|
                0 <= c < m.cpus && (#[trigger] after.remote(c)).len() > remote_limit
                    ==> after.remote(c) == m.remote(c)
            &&& bounded(m, local_limit, remote_limit) ==> bounded(after, local_limit, remote_limit)
        }),
{
    let after = m.free(slot, cpu, fast, local_limit, remote_limit);
    if bounded(m, local_limit, remote_limit) {
        assert forall|c: int| 0 <= c < m.cpus implies (#[trigger] after.remote(c)).len()
            <= remote_limit by {
            assert(m.remote(c).len() <= remote_limit);
        }
        assert forall|c: int| 0 <= c < m.cpus implies (#[trigger] after.local(c)).len()
            <= local_limit by {
            assert(m.local(c).len() <= local_limit);
        }
    }
}

/// A slot that is freed on its home CPU, by a thread that stays there, goes to
/// the local list exactly if that has room.
pub proof fn law_home_slot_stays_local(
    m: PoolModel,
    slot: u32,
    fast: Option<int>,
    local_limit: int,
    remote_limit: int,
)
    requires
        m.valid(),
        m.in_use().contains(slot),
        fast matches Some(c) ==> c == m.home_of(slot),
    ensures
        ({
            let cpu = m.home_of(slot);
            let after = m.free(slot, cpu, fast, local_limit, remote_limit);
            &&& m.local(cpu).len() < local_limit ==> after.local(cpu) == seq![slot] + m.local(cpu)
            &&& m.local(cpu).len() >= local_limit ==> after.local(cpu) == m.local(cpu)
        }),
{
}

/// Freed slots flow back to the CPU that allocated them: a slot that another
/// CPU frees, or that does not fit in the local list at home, goes behind what
/// is in the remote queue of the CPU that allocated it, if that has room, and
/// else to the global stack. No other list changes.
pub proof fn law_freed_slot_goes_home(
    m: PoolModel,
    owner: int,
    batch: u32,
    cpu: int,
    fast: Option<int>,
    local_limit: int,
    remote_limit: int,
)
    requires
        m.valid(),
        m.cpus <= u16::MAX,
        0 <= owner < m.cpus,
        0 <= cpu < m.cpus,
        m.allocate(Some(owner), owner, owner, batch).0 is Some,
        cpu != owner || m.allocate(Some(owner), owner, owner, batch).1.local(owner).len()
            >= local_limit,
    ensures
        ({
            let (slot, after) = m.allocate(Some(owner), owner, owner, batch);
            let freed = after.free(slot->0, cpu, fast, local_limit, remote_limit);
            if after.remote(owner).len() < remote_limit {
                &&& freed.remote(owner) == after.remote(owner).push(slot->0)
                &&& forall|a: int|
                    0 <= a < m.lists.len() && a != m.cpus + owner ==> #[trigger] freed.lists[a]
                        == after.lists[a]
            } else {
                &&& freed.global() == seq![slot->0] + after.global()
                &&& forall|a: int|
                    0 <= a < m.lists.len() && a != m.global_at() ==> #[trigger] freed.lists[a]
                        == after.lists[a]
            }
        }),
{
    let (slot, after) = m.allocate(Some(owner), owner, owner, batch);
    m.law_allocate_hands_out_a_free_slot(Some(owner), owner, owner, batch);
    assert(after.home[slot->0 as int] == owner as u16);
}

/// A critical section changes nothing but the cost: a thread that stays where
/// it is allocates the same with it as without it.
pub proof fn law_critical_section_allocates_the_same(
    m: PoolModel,
    looks: Option<[Rseq; SECTION_LOOKS]>,
    area: Option<Rseq>,
    fallback_cpu: usize,
    batch: u32,
)
    requires
        m.valid(),
        m.cpus <= u16::MAX,
        rseq::looks_like(looks, area),
    ensures
        ({
            let cpu = m.clamp(rseq::current_cpu(area, fallback_cpu));
            m.allocate(rseq::section_cpu(looks, m.cpus), cpu, cpu, batch) == m.allocate(
                None,
                cpu,
                cpu,
                batch,
            )
        }),
{
    lemma_section_is_where_the_thread_is(looks, area, m.cpus);
}

/// A critical section changes nothing but the cost: a thread that stays where
/// it is frees the same with it as without it.
pub proof fn law_critical_section_frees_the_same(
    m: PoolModel,
    slot: u32,
    looks: Option<[Rseq; SECTION_LOOKS]>,
    area: Option<Rseq>,
    fallback_cpu: usize,
    local_limit: int,
    remote_limit: int,
)
    requires
        m.valid(),
        m.cpus <= u16::MAX,
        m.in_use().contains(slot),
        rseq::looks_like(looks, area),
    ensures
        ({
            let cpu = m.clamp(rseq::current_cpu(area, fallback_cpu));
            m.free(slot, cpu, rseq::section_cpu(looks, m.cpus), local_limit, remote_limit)
                == m.free(slot, cpu, None, local_limit, remote_limit)
        }),
{
    lemma_section_is_where_the_thread_is(looks, area, m.cpus);
}

proof fn lemma_section_is_where_the_thread_is(
    looks: Option<[Rseq; SECTION_LOOKS]>,
    area: Option<Rseq>,
    cpus: nat,
)
    requires
        rseq::looks_like(looks, area),
    ensures
        rseq::section_cpu(looks, cpus) matches Some(c) ==> area matches Some(rseq) && c
            == rseq.cpu_id_start && c < cpus,
{
    if let Some(seen) = looks {
        rseq::lemma_last_look(seen@, 0, cpus);
    }
}

/// All listed slots in one sequence.
pub open spec fn all_listed(lists: Seq<Seq<u32>>) -> Seq<u32>
    decreases lists.len(),
{
    if lists.len() == 0 {
        Seq::empty()
    } else {
        all_listed(lists.drop_last()) + lists.last()
    }
}

proof fn lemma_all_listed(lists: Seq<Seq<u32>>)
    requires
        model::unique(lists),
    ensures
        all_listed(lists).no_duplicates(),
        forall|slot: u32| #[trigger]
            all_listed(lists).contains(slot) <==> model::listed(lists, slot),
    decreases lists.len(),
{
    if lists.len() > 0 {
        let init = lists.drop_last();
        let last = lists.last();
        let end = lists.len() - 1;
        let all = all_listed(lists);
        assert(model::unique(init)) by {
            assert forall|a: int, i: int, b: int, j: int|
                #![trigger init[a][i], init[b][j]]
                0 <= a < init.len() && 0 <= i < init[a].len() && 0 <= b < init.len() && 0 <= j
                    < init[b].len() && init[a][i] == init[b][j] implies a == b && i == j by {
                assert(lists[a][i] == lists[b][j]);
            }
        }
        lemma_all_listed(init);
        let front = all_listed(init);
        assert forall|k: int, l: int|
            0 <= k < all.len() && 0 <= l < all.len() && k != l implies all[k] != all[l] by {
            if k >= front.len() && l >= front.len() {
                assert(lists[end][k - front.len()] == all[k]);
                assert(lists[end][l - front.len()] == all[l]);
            } else if k < front.len() && l < front.len() {
                assert(front[k] != front[l]);
            } else {
                let (x, y) = if k < front.len() {
                    (k, l)
                } else {
                    (l, k)
                };
                assert(front.contains(front[x]));
                let (a, i) = choose|a: int, i: int|
                    0 <= a < init.len() && 0 <= i < init[a].len() && #[trigger] init[a][i]
                        == front[x];
                assert(lists[a][i] == all[x]);
                assert(lists[end][y - front.len()] == all[y]);
            }
        }
        assert forall|slot: u32| #[trigger] all.contains(slot) implies model::listed(
            lists,
            slot,
        ) by {
            let k = choose|k: int| 0 <= k < all.len() && all[k] == slot;
            if k < front.len() {
                assert(front.contains(slot));
                let (a, i) = choose|a: int, i: int|
                    0 <= a < init.len() && 0 <= i < init[a].len() && #[trigger] init[a][i] == slot;
                assert(lists[a][i] == slot);
            } else {
                assert(lists[end][k - front.len()] == slot);
            }
        }
        assert forall|slot: u32| model::listed(lists, slot) implies #[trigger] all.contains(
            slot,
        ) by {
            let (a, i) = choose|a: int, i: int|
                0 <= a < lists.len() && 0 <= i < lists[a].len() && #[trigger] lists[a][i] == slot;
            if a == end {
                assert(all[front.len() + i] == slot);
            } else {
                assert(init[a][i] == slot);
                assert(front.contains(slot));
                let k = choose|k: int| 0 <= k < front.len() && front[k] == slot;
                assert(all[k] == slot);
            }
        }
    }
}

/// No slot is lost: the slots in use and the slots on the free lists are as
/// many as the pool has.
pub proof fn law_no_slot_is_lost(m: PoolModel)
    requires
        m.valid(),
        m.slots() <= u32::MAX,
    ensures
        m.in_use().finite(),
        m.in_use().len() + all_listed(m.lists).len() == m.slots(),
{
    let free = all_listed(m.lists);
    lemma_all_listed(m.lists);
    free.unique_seq_to_set();
    let slots = Seq::new(m.slots(), |i: int| i as u32);
    assert(slots.no_duplicates());
    slots.unique_seq_to_set();
    assert forall|slot: u32| slot < m.slots() implies slots.contains(slot) by {
        assert(slots[slot as int] == slot);
    }
    assert(m.in_use() =~= slots.to_set().difference(free.to_set())) by {
        assert forall|slot: u32| slots.to_set().contains(slot) implies slot < m.slots() by {
            let i = choose|i: int| 0 <= i < slots.len() && slots[i] == slot;
        }
    }
    assert(free.to_set().subset_of(slots.to_set())) by {
        assert forall|slot: u32| free.to_set().contains(slot) implies slots.to_set().contains(
            slot,
        ) by {
            assert(free.contains(slot));
            let (a, i) = choose|a: int, i: int|
                0 <= a < m.lists.len() && 0 <= i < m.lists[a].len() && #[trigger] m.lists[a][i]
                    == slot;
            assert(m.lists[a][i] < m.slots());
        }
    }
    assert(slots.to_set().intersect(free.to_set()) =~= free.to_set());
    vstd::set_lib::lemma_set_difference_len(slots.to_set(), free.to_set());
}

/// `after` has the lists of `m`, but for those at `a` and `b`.
pub open spec fn same_lists_but(m: PoolModel, after: PoolModel, a: int, b: int) -> bool {
    &&& after.cpus == m.cpus
    &&& after.lists.len() == m.lists.len()
    &&& forall|i: int|
        0 <= i < m.lists.len() && i != a && i != b ==> #[trigger] after.lists[i] == m.lists[i]
}

/// `after` has the home CPUs of `m`, but that of `slot`, which is `cpu`.
pub open spec fn new_home(m: PoolModel, after: PoolModel, slot: u32, cpu: int) -> bool {
    &&& after.home.len() == m.home.len()
    &&& after.home[slot as int] as int == cpu
    &&& forall|s: int|
        0 <= s < m.home.len() && s != slot ==> #[trigger] after.home[s] == m.home[s]
}

/// A pool of `n` CPUs has its local lists first, then its remote queues, then its
/// global stack, and none of these twice. A slot is in use if it is on none.
pub proof fn law_lists_of_a_pool(m: PoolModel, cpu: int, slot: u32)
    requires
        m.valid(),
        0 <= cpu < m.cpus,
    ensures
        m.lists.len() == m.cpus + m.cpus + 1,
        m.local(cpu) == m.lists[cpu],
        m.remote(cpu) == m.lists[m.cpus + cpu],
        m.global() == m.lists[(m.cpus + m.cpus) as int],
        m.slots() == m.home.len(),
        m.in_use().contains(slot) <==> slot < m.home.len() && forall|a: int, i: int|
            0 <= a < m.lists.len() && 0 <= i < m.lists[a].len() ==> #[trigger] m.lists[a][i]
                != slot,
{
    if model::listed(m.lists, slot) {
        let (a, i) = choose|a: int, i: int|
            0 <= a < m.lists.len() && 0 <= i < m.lists[a].len() && #[trigger] m.lists[a][i]
                == slot;
        assert(m.lists[a][i] == slot);
    }
}

/// A new pool has all its slots on the global stack, in ascending order, and CPU
/// 0 is their home.
pub proof fn law_fresh_pool_is_stacked_up(cpus: nat, slots: nat)
    requires
        slots <= u32::MAX,
    ensures
        ({
            let m = PoolModel::fresh(cpus, slots);
            &&& m.cpus == cpus
            &&& m.home.len() == slots
            &&& forall|s: int| 0 <= s < slots ==> #[trigger] m.home[s] == 0
            &&& m.lists.len() == cpus + cpus + 1
            &&& m.lists[(cpus + cpus) as int].len() == slots
            &&& forall|i: int|
                0 <= i < slots ==> #[trigger] m.lists[(cpus + cpus) as int][i] as int == i
            &&& forall|a: int| 0 <= a < cpus + cpus ==> (#[trigger] m.lists[a]).len() == 0
        }),
{
}

/// CPU indices beyond the last CPU stand for the last one.
pub proof fn law_cpus_beyond_the_last_are_the_last(m: PoolModel, cpu: usize, slot: u32)
    requires
        m.valid(),
        slot < m.home.len(),
    ensures
        cpu < m.cpus ==> m.clamp(cpu) == cpu,
        cpu >= m.cpus ==> m.clamp(cpu) + 1 == m.cpus,
        m.home[slot as int] < m.cpus ==> m.home_of(slot) == m.home[slot as int],
        m.home[slot as int] >= m.cpus ==> m.home_of(slot) + 1 == m.cpus,
{
}

/// An allocation that finds a local list that is not empty takes its first slot.
/// The others move up, no other list changes, and the CPU of the list is the home
/// of the slot from now on. The list that the critical section finds comes first.
pub proof fn law_allocation_pops_the_local_list(
    m: PoolModel,
    fast: Option<int>,
    pop: int,
    slow: int,
    batch: u32,
    cpu: int,
)
    requires
        m.valid(),
        m.cpus <= u16::MAX,
        on_cpus(m, fast, pop, slow),
        fast == Some(cpu) || (pop == cpu && (fast matches Some(c) ==> m.lists[c].len() == 0)),
        m.lists[cpu].len() > 0,
    ensures
        ({
            let (slot, after) = m.allocate(fast, pop, slow, batch);
            &&& slot == Some(m.lists[cpu][0])
            &&& after.lists[cpu].len() + 1 == m.lists[cpu].len()
            &&& forall|i: int|
                0 <= i < after.lists[cpu].len() ==> #[trigger] after.lists[cpu][i]
                    == m.lists[cpu][i + 1]
            &&& same_lists_but(m, after, cpu, cpu)
            &&& new_home(m, after, m.lists[cpu][0], cpu)
        }),
{
    assert(m.lists[cpu][0] < m.slots());
}

/// The list that an allocation on CPU `slow` takes a batch from, where the local
/// lists that it looked at are empty: the remote queue of that CPU, if that holds
/// more than its sentinel, else the global stack.
pub open spec fn batch_source(m: PoolModel, slow: int) -> int {
    if m.lists[m.cpus + slow].len() >= 2 {
        m.cpus + slow
    } else {
        (m.cpus + m.cpus) as int
    }
}

/// How many slots it could take there: all, but for the sentinel of a queue.
pub open spec fn batch_supply(m: PoolModel, slow: int) -> int {
    if m.lists[m.cpus + slow].len() >= 2 {
        m.lists[m.cpus + slow].len() - 1
    } else {
        m.lists[(m.cpus + m.cpus) as int].len() as int
    }
}

/// An allocation that takes a batch hands out the oldest slot of the queue, or the
/// top slot of the stack. The rest of the batch goes to the local list of the CPU
/// that allocates, in front of what is there, and nowhere else. A batch is
/// as many slots as there are, up to the batch size.
pub proof fn law_allocation_takes_a_batch_to_its_own_cpu(
    m: PoolModel,
    fast: Option<int>,
    pop: int,
    slow: int,
    batch: u32,
    count: int,
)
    requires
        m.valid(),
        m.cpus <= u16::MAX,
        on_cpus(m, fast, pop, slow),
        fast matches Some(c) ==> m.lists[c].len() == 0,
        m.lists[pop].len() == 0,
        1 <= count <= batch,
        count == batch || count == batch_supply(m, slow),
        count <= batch_supply(m, slow),
    ensures
        ({
            let (slot, after) = m.allocate(fast, pop, slow, batch);
            let from = batch_source(m, slow);
            &&& slot == Some(m.lists[from][0])
            &&& after.lists[from].len() == m.lists[from].len() - count
            &&& forall|i: int|
                0 <= i < after.lists[from].len() ==> #[trigger] after.lists[from][i]
                    == m.lists[from][i + count]
            &&& after.lists[slow].len() == m.lists[slow].len() + (count - 1)
            &&& forall|i: int|
                0 < i < count ==> after.lists[slow][count - 1 - i] == #[trigger] m.lists[from][i]
            &&& forall|i: int|
                0 < i < count ==> after.lists[slow].contains(#[trigger] m.lists[from][i])
            &&& forall|i: int|
                0 <= i < m.lists[slow].len() ==> after.lists[slow][i + (count - 1)]
                    == #[trigger] m.lists[slow][i]
            &&& same_lists_but(m, after, from, slow)
            &&& new_home(m, after, m.lists[from][0], slow)
        }),
{
    let (slot, after) = m.allocate(fast, pop, slow, batch);
    let from = batch_source(m, slow);
    assert(m.lists[from][0] < m.slots());
    assert forall|i: int| 0 < i < count implies after.lists[slow][count - 1 - i]
        == #[trigger] m.lists[from][i] && after.lists[slow].contains(m.lists[from][i]) by {
        assert(after.lists[slow][count - 1 - i] == m.lists[from][i]);
    }
    assert forall|i: int| 0 <= i < m.lists[slow].len() implies after.lists[slow][i + (count - 1)]
        == #[trigger] m.lists[slow][i] by {}
}

/// With batches of no slots, an allocation still takes one slot from a remote
/// queue, to nobody's local list, and none from the global stack.
pub proof fn law_allocation_without_batches(
    m: PoolModel,
    fast: Option<int>,
    pop: int,
    slow: int,
)
    requires
        m.valid(),
        m.cpus <= u16::MAX,
        on_cpus(m, fast, pop, slow),
        fast matches Some(c) ==> m.lists[c].len() == 0,
        m.lists[pop].len() == 0,
    ensures
        ({
            let (slot, after) = m.allocate(fast, pop, slow, 0);
            let queue = m.cpus + slow;
            if m.lists[queue].len() >= 2 {
                &&& slot == Some(m.lists[queue][0])
                &&& after.lists[queue].len() + 1 == m.lists[queue].len()
                &&& forall|i: int|
                    0 <= i < after.lists[queue].len() ==> #[trigger] after.lists[queue][i]
                        == m.lists[queue][i + 1]
                &&& same_lists_but(m, after, queue, queue)
                &&& new_home(m, after, m.lists[queue][0], slow)
            } else {
                slot is None && after == m
            }
        }),
{
    let (slot, after) = m.allocate(fast, pop, slow, 0);
    let queue = m.cpus + slow;
    if m.lists[queue].len() >= 2 {
        assert(m.lists[queue][0] < m.slots());
        assert(after.lists[slow] =~= m.lists[slow]);
    }
}

/// An allocation that finds the local lists empty, no slot but a sentinel in the
/// remote queue, and nothing on the global stack, gets nothing and changes nothing.
pub proof fn law_allocation_finds_nothing(
    m: PoolModel,
    fast: Option<int>,
    pop: int,
    slow: int,
    batch: u32,
)
    requires
        m.valid(),
        on_cpus(m, fast, pop, slow),
        fast matches Some(c) ==> m.lists[c].len() == 0,
        m.lists[pop].len() == 0,
        m.lists[m.cpus + slow].len() <= 1,
        m.lists[(m.cpus + m.cpus) as int].len() == 0,
    ensures
        m.allocate(fast, pop, slow, batch) == (None::<u32>, m),
{
}

/// A slot freed on its home CPU, while the local list there is shorter than its
/// capacity, goes in front of the local list of the CPU that the thread is on when
/// it pushes. Nothing else changes.
pub proof fn law_freeing_at_home_pushes_the_local_list(
    m: PoolModel,
    slot: u32,
    cpu: int,
    fast: Option<int>,
    to: int,
    local_limit: int,
    remote_limit: int,
)
    requires
        m.valid(),
        m.in_use().contains(slot),
        0 <= cpu < m.cpus,
        m.home[slot as int] as int == cpu || (m.home[slot as int] >= m.cpus && cpu + 1 == m.cpus),
        m.lists[cpu].len() < local_limit,
        0 <= to < m.cpus,
        fast == Some(to) || (fast is None && to == cpu),
    ensures
        ({
            let after = m.free(slot, cpu, fast, local_limit, remote_limit);
            &&& after.lists[to].len() == m.lists[to].len() + 1
            &&& after.lists[to][0] == slot
            &&& forall|i: int|
                0 <= i < m.lists[to].len() ==> after.lists[to][i + 1] == #[trigger] m.lists[to][i]
            &&& same_lists_but(m, after, to, to)
            &&& after.home == m.home
        }),
{
}

/// A slot freed elsewhere, or while the local list is full, goes behind the remote
/// queue of its home CPU, if that is shorter than its capacity, and else on top of
/// the global stack. Nothing else changes.
pub proof fn law_freeing_otherwise_sends_the_slot_home(
    m: PoolModel,
    slot: u32,
    cpu: int,
    fast: Option<int>,
    home: int,
    local_limit: int,
    remote_limit: int,
)
    requires
        m.valid(),
        m.in_use().contains(slot),
        0 <= cpu < m.cpus,
        0 <= home < m.cpus,
        m.home[slot as int] as int == home || (m.home[slot as int] >= m.cpus && home + 1 == m.cpus),
        home != cpu || m.lists[cpu].len() >= local_limit,
    ensures
        ({
            let after = m.free(slot, cpu, fast, local_limit, remote_limit);
            let queue = m.cpus + home;
            let stack = (m.cpus + m.cpus) as int;
            if m.lists[queue].len() < remote_limit {
                &&& after.lists[queue].len() == m.lists[queue].len() + 1
                &&& after.lists[queue][m.lists[queue].len() as int] == slot
                &&& forall|i: int|
                    0 <= i < m.lists[queue].len() ==> after.lists[queue][i]
                        == #[trigger] m.lists[queue][i]
                &&& same_lists_but(m, after, queue, queue)
                &&& after.home == m.home
            } else {
                &&& after.lists[stack].len() == m.lists[stack].len() + 1
                &&& after.lists[stack][0] == slot
                &&& forall|i: int|
                    0 <= i < m.lists[stack].len() ==> after.lists[stack][i + 1]
                        == #[trigger] m.lists[stack][i]
                &&& same_lists_but(m, after, stack, stack)
                &&& after.home == m.home
            }
        }),
{
}

/// The number of slots that CPU `cpu` finds on its own local list and in its remote
/// queue, but for the sentinel.
pub open spec fn own_supply(m: PoolModel, cpu: int) -> nat {
    m.lists[cpu].len() + if m.lists[m.cpus + cpu].len() >= 1 {
        (m.lists[m.cpus + cpu].len() - 1) as nat
    } else {
        0
    }
}

/// `slot` is on the local list of `cpu` or in its remote queue.
pub open spec fn owns(m: PoolModel, cpu: int, slot: u32) -> bool {
    m.lists[cpu].contains(slot) || m.lists[m.cpus + cpu].contains(slot)
}

/// As long as a thread that stays on its CPU finds slots there, an allocation gives
/// it one of these, and leaves it the others.
pub proof fn law_allocation_uses_up_its_own_slots_one_by_one(
    m: PoolModel,
    cpu: int,
    fast: Option<int>,
    batch: u32,
)
    requires
        m.valid(),
        0 <= cpu < m.cpus,
        fast matches Some(c) ==> c == cpu,
        own_supply(m, cpu) > 0,
    ensures
        ({
            let (slot, after) = m.allocate(fast, cpu, cpu, batch);
            &&& slot is Some
            &&& owns(m, cpu, slot->0)
            &&& own_supply(after, cpu) + 1 == own_supply(m, cpu)
            &&& forall|s: u32|
                s != slot->0 && #[trigger] owns(m, cpu, s) ==> owns(after, cpu, s)
            &&& after.valid()
            &&& after.cpus == m.cpus
        }),
{
    let (slot, after) = m.allocate(fast, cpu, cpu, batch);
    m.law_allocate_hands_out_a_free_slot(fast, cpu, cpu, batch);
    let local = m.lists[cpu];
    let queue = m.lists[m.cpus + cpu];
    if local.len() > 0 {
        assert(local.contains(local[0]));
        assert forall|s: u32| s != slot->0 && #[trigger] owns(m, cpu, s) implies owns(
            after,
            cpu,
            s,
        ) by {
            if local.contains(s) {
                let i = choose|i: int| 0 <= i < local.len() && local[i] == s;
                assert(after.lists[cpu][i - 1] == s);
            } else {
                assert(after.lists[m.cpus + cpu] == queue);
            }
        }
    } else {
        assert(queue.contains(queue[0]));
        let count = m.drainable(cpu, batch);
        assert forall|s: u32| s != slot->0 && #[trigger] owns(m, cpu, s) implies owns(
            after,
            cpu,
            s,
        ) by {
            let i = choose|i: int| 0 <= i < queue.len() && queue[i] == s;
            if i >= count {
                assert(after.lists[m.cpus + cpu][i - count] == s);
            } else {
                assert(after.lists[cpu][count - 1 - i] == s);
            }
        }
    }
}

/// A thread that stays on its CPU and finds `q` slots in its remote queue, and none
/// on its local list, gets a slot from its next `q - 1` allocations: these slots,
/// and no others.
pub proof fn law_queue_gives_all_but_its_sentinel(m: PoolModel, cpu: int, batch: u32, times: nat)
    requires
        m.valid(),
        0 <= cpu < m.cpus,
        times <= own_supply(m, cpu),
    ensures
        ({
            let (got, after) = allocations(m, cpu, batch, times);
            &&& got.len() == times
            &&& got.no_duplicates()
            &&& forall|i: int| 0 <= i < got.len() ==> owns(m, cpu, #[trigger] got[i])
            &&& own_supply(after, cpu) + times == own_supply(m, cpu)
            &&& after.valid()
            &&& after.cpus == m.cpus
            &&& forall|s: u32| #[trigger] owns(after, cpu, s) ==> owns(m, cpu, s)
            &&& forall|i: int| 0 <= i < got.len() ==> after.in_use().contains(#[trigger] got[i])
        }),
    decreases times,
{
    if times > 0 {
        law_queue_gives_all_but_its_sentinel(m, cpu, batch, (times - 1) as nat);
        let (got, before) = allocations(m, cpu, batch, (times - 1) as nat);
        law_allocation_uses_up_its_own_slots_one_by_one(before, cpu, Some(cpu), batch);
        before.law_allocate_hands_out_a_free_slot(Some(cpu), cpu, cpu, batch);
        let (slot, after) = before.allocate(Some(cpu), cpu, cpu, batch);
        let more = got.push(slot->0);
        assert forall|i: int| 0 <= i < got.len() implies got[i] != slot->0 by {
            assert(before.in_use().contains(got[i]));
        }
        assert forall|i: int| 0 <= i < more.len() implies owns(m, cpu, #[trigger] more[i])
            && after.in_use().contains(more[i]) by {
            if i < got.len() {
                assert(before.in_use().contains(got[i]));
                assert(owns(m, cpu, got[i]));
            } else {
                assert(owns(before, cpu, slot->0));
            }
        }
        assert forall|s: u32| #[trigger] owns(after, cpu, s) implies owns(m, cpu, s) by {
            lemma_owns_less(before, cpu, batch, s);
            assert(owns(before, cpu, s));
        }
    }
}

proof fn lemma_owns_less(m: PoolModel, cpu: int, batch: u32, s: u32)
    requires
        m.valid(),
        0 <= cpu < m.cpus,
        own_supply(m, cpu) > 0,
        owns(m.allocate(Some(cpu), cpu, cpu, batch).1, cpu, s),
    ensures
        owns(m, cpu, s),
{
    let after = m.allocate(Some(cpu), cpu, cpu, batch).1;
    let local = m.lists[cpu];
    let queue = m.lists[m.cpus + cpu];
    if local.len() > 0 {
        if after.lists[cpu].contains(s) {
            let i = choose|i: int| 0 <= i < after.lists[cpu].len() && after.lists[cpu][i] == s;
            assert(local[i + 1] == s);
        } else {
            assert(after.lists[m.cpus + cpu] == queue);
        }
    } else {
        let count = m.drainable(cpu, batch);
        if after.lists[cpu].contains(s) {
            let i = choose|i: int| 0 <= i < after.lists[cpu].len() && after.lists[cpu][i] == s;
            assert(queue[count - 1 - i] == s);
        } else {
            let rest = after.lists[m.cpus + cpu];
            let i = choose|i: int| 0 <= i < rest.len() && rest[i] == s;
            assert(queue[i + count] == s);
        }
    }
}

/// A pool of a configuration of `n` slots gives a CPU that allocates alone `n`
/// different slots, and no more.
pub proof fn law_configured_pool_gives_its_slots<T: 'static + Send + Sync>(
    config: PoolConfig<T>,
    cpus: nat,
    cpu: int,
    times: nat,
)
    requires
        0 <= cpu < cpus,
        config.batch_size >= 1,
    ensures
        ({
            let fresh = PoolModel::fresh(cpus, config.slots() as nat);
            let (got, after) = allocations(fresh, cpu, config.batch(), times);
            &&& fresh.home.len() == config.slot_count
            &&& times <= config.slot_count ==> got.len() == times
            &&& times >= config.slot_count ==> got.len() == config.slot_count
            &&& got.no_duplicates()
            &&& forall|i: int| 0 <= i < got.len() ==> #[trigger] got[i] < config.slot_count
        }),
{
    law_fresh_pool_gives_every_slot_once(cpus, config.slots() as nat, cpu, config.batch(), times);
    let fresh = PoolModel::fresh(cpus, config.slots() as nat);
    let (got, after) = allocations(fresh, cpu, config.batch(), times);
    assert forall|i: int| 0 <= i < got.len() implies #[trigger] got[i] < config.slot_count by {
        assert(after.in_use().contains(got[i]));
    }
}

/// In a pool of a configuration, a slot that is freed at home while the local list
/// holds less than two batches is what that CPU allocates next; one that is freed
/// elsewhere goes to the remote queue of its home while that holds less than four.
pub proof fn law_configured_pool_caches_its_batches<T: 'static + Send + Sync>(
    config: PoolConfig<T>,
    m: PoolModel,
    slot: u32,
    home: int,
    cpu: int,
)
    requires
        m.valid(),
        m.in_use().contains(slot),
        0 <= home < m.cpus,
        0 <= cpu < m.cpus,
        m.home[slot as int] as int == home,
    ensures
        ({
            let freed = m.free(slot, cpu, None, config.local_limit(), config.remote_limit());
            &&& cpu == home && m.lists[cpu].len() < 2 * config.batch_size ==> freed.allocate(
                None,
                cpu,
                cpu,
                config.batch(),
            ).0 == Some(slot)
            &&& cpu == home && m.lists[cpu].len() >= 2 * config.batch_size ==> freed.lists[cpu]
                == m.lists[cpu]
            &&& cpu != home && m.lists[m.cpus + home].len() < 4 * config.batch_size
                ==> freed.lists[m.cpus + home].last() == slot && freed.lists[m.cpus + home].len()
                == m.lists[m.cpus + home].len() + 1
            &&& cpu != home && m.lists[m.cpus + home].len() >= 4 * config.batch_size
                ==> freed.lists[(m.cpus + m.cpus) as int][0] == slot && freed.lists[m.cpus + home]
                == m.lists[m.cpus + home]
        }),
{
}

} // verus!
