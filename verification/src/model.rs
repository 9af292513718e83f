//! What a pool is, as a mathematical object, and what its operations do to it.
//!
//! A pool of `n` CPUs keeps its free slots on `2 * n + 1` lists: one local
//! list per CPU, one remote queue per CPU, and the global stack. A slot that
//! is on no list is in use.

use vstd::prelude::*;

verus! {

/// No slot stands twice on the lists, neither on one list nor on two.
pub open spec fn unique(lists: Seq<Seq<u32>>) -> bool {
    forall|a: int, i: int, b: int, j: int|
        #![trigger lists[a][i], lists[b][j]]
        0 <= a < lists.len() && 0 <= i < lists[a].len() && 0 <= b < lists.len() && 0 <= j
            < lists[b].len() && lists[a][i] == lists[b][j] ==> a == b && i == j
}

/// `slot` stands on one of the lists.
pub open spec fn listed(lists: Seq<Seq<u32>>, slot: u32) -> bool {
    exists|a: int, i: int|
        0 <= a < lists.len() && 0 <= i < lists[a].len() && #[trigger] lists[a][i] == slot
}

/// The smaller of two numbers.
pub open spec fn smaller(a: int, b: int) -> int {
    if a <= b {
        a
    } else {
        b
    }
}

/// Where a freed slot goes.
#[derive(Clone, Copy, PartialEq, Eq, Structural)]
pub enum FreeTarget {
    /// To the local list of the CPU that frees it.
    Local,
    /// To the remote queue of its home CPU.
    Remote,
    /// To the global stack.
    Global,
}

/// Where a freed slot goes: a CPU keeps its own slots while its local list has
/// room. Other slots go to the remote queue of their home CPU while that has
/// room, else to the global stack.
pub open spec fn choose_target(
    at_home: bool,
    local_len: int,
    local_limit: int,
    remote_len: int,
    remote_limit: int,
) -> FreeTarget {
    if at_home && local_len < local_limit {
        FreeTarget::Local
    } else if remote_len < remote_limit {
        FreeTarget::Remote
    } else {
        FreeTarget::Global
    }
}

/// The state of a pool.
#[verifier::ext_equal]
pub struct PoolModel {
    /// Number of CPUs.
    pub cpus: nat,
    /// The free lists: local lists first, then remote queues, then the global
    /// stack.
    pub lists: Seq<Seq<u32>>,
    /// The CPU that each slot was most recently allocated on.
    pub home: Seq<u16>,
}

impl PoolModel {
    /// The local list of a CPU, the slot to be allocated next first.
    pub open spec fn local(self, cpu: int) -> Seq<u32> {
        self.lists[cpu]
    }

    /// The remote queue of a CPU, oldest slot first.
    pub open spec fn remote(self, cpu: int) -> Seq<u32> {
        self.lists[self.cpus + cpu]
    }

    /// The position of the global stack among the lists.
    pub open spec fn global_at(self) -> int {
        2 * self.cpus as int
    }

    /// The global stack, top first.
    pub open spec fn global(self) -> Seq<u32> {
        self.lists[self.global_at()]
    }

    /// Number of slots.
    pub open spec fn slots(self) -> nat {
        self.home.len()
    }

    /// The slots that are allocated: those on no list.
    pub open spec fn in_use(self) -> Set<u32> {
        Set::new(|slot: u32| slot < self.slots() && !listed(self.lists, slot))
    }

    /// The lists hold slots of the pool, and none of them twice.
    pub open spec fn valid(self) -> bool {
        &&& self.cpus >= 1
        &&& self.lists.len() == 2 * self.cpus + 1
        &&& unique(self.lists)
        &&& forall|a: int, i: int|
            0 <= a < self.lists.len() && 0 <= i < self.lists[a].len() ==> #[trigger] self.lists[a][i]
                < self.slots()
    }

    /// A new pool: all slots are on the global stack, in ascending order.
    pub open spec fn fresh(cpus: nat, slots: nat) -> PoolModel {
        PoolModel {
            cpus,
            lists: Seq::new(
                2 * cpus + 1,
                |a: int|
                    if a == 2 * cpus {
                        Seq::new(slots, |i: int| i as u32)
                    } else {
                        Seq::empty()
                    },
            ),
            home: Seq::new(slots, |i: int| 0u16),
        }
    }

    /// One of the lists replaced.
    pub open spec fn with_list(self, a: int, list: Seq<u32>) -> PoolModel {
        PoolModel { lists: self.lists.update(a, list), ..self }
    }

    /// `cpu` recorded as the home of `slot`.
    pub open spec fn with_home(self, slot: u32, cpu: int) -> PoolModel {
        PoolModel { home: self.home.update(slot as int, cpu as u16), ..self }
    }

    /// The CPU that stands for CPU index `cpu`: the last one stands for all
    /// beyond it.
    pub open spec fn clamp(self, cpu: usize) -> int {
        smaller(cpu as int, self.cpus - 1)
    }

    /// The first slot of a local list is allocated.
    pub open spec fn pop_local(self, cpu: int) -> (Option<u32>, PoolModel) {
        let list = self.local(cpu);
        (
            Some(list[0]),
            self.with_list(cpu, list.subrange(1, list.len() as int)).with_home(list[0], cpu),
        )
    }

    /// The first `count` slots leave the list at `a`. The first of them goes to
    /// no list. The others go to the local list of `cpu`, one by one.
    pub open spec fn move_batch(self, a: int, cpu: int, count: int) -> PoolModel {
        let list = self.lists[a];
        self.with_list(a, list.subrange(count, list.len() as int)).with_list(
            cpu,
            list.subrange(1, count).reverse() + self.local(cpu),
        )
    }

    /// The first `count` slots leave the list at `a`. The first of them is
    /// allocated, and the others go to the local list of `cpu`.
    pub open spec fn take_batch(self, a: int, cpu: int, count: int) -> (Option<u32>, PoolModel) {
        let first = self.lists[a][0];
        (Some(first), self.move_batch(a, cpu, count).with_home(first, cpu))
    }

    /// How many slots the slow path takes from a remote queue: all but the
    /// last, a batch at most.
    pub open spec fn drainable(self, cpu: int, batch: u32) -> int {
        if self.remote(cpu).len() <= 1 {
            0
        } else {
            smaller(
                self.remote(cpu).len() - 1,
                if batch == 0 {
                    1
                } else {
                    batch as int
                },
            )
        }
    }

    /// How many slots the slow path takes from the global stack: a batch at most.
    pub open spec fn refillable(self, batch: u32) -> int {
        smaller(batch as int, self.global().len() as int)
    }

    /// Allocation from the global stack. `None` if it is empty.
    pub open spec fn refill(self, cpu: int, batch: u32) -> (Option<u32>, PoolModel) {
        let count = self.refillable(batch);
        if count > 0 {
            self.take_batch(self.global_at(), cpu, count)
        } else {
            (None, self)
        }
    }

    /// Allocation where the local list has nothing to give: from the remote
    /// queue, else from the global stack.
    pub open spec fn alloc_slow(self, cpu: int, batch: u32) -> (Option<u32>, PoolModel) {
        let count = self.drainable(cpu, batch);
        if count > 0 {
            self.take_batch(self.cpus + cpu, cpu, count)
        } else {
            self.refill(cpu, batch)
        }
    }

    /// Allocation by a thread that was seen on CPU `fast` in its critical
    /// section (`None` if that failed), then on CPU `pop`, then on CPU `slow`.
    pub open spec fn allocate(self, fast: Option<int>, pop: int, slow: int, batch: u32) -> (
        Option<u32>,
        PoolModel,
    ) {
        if fast matches Some(cpu) && self.local(cpu).len() > 0 {
            self.pop_local(fast->0)
        } else if self.local(pop).len() > 0 {
            self.pop_local(pop)
        } else {
            self.alloc_slow(slow, batch)
        }
    }

    /// The CPU whose remote queue a slot belongs to.
    pub open spec fn home_of(self, slot: u32) -> int {
        smaller(self.home[slot as int] as int, self.cpus - 1)
    }

    /// Where a thread on CPU `cpu` frees `slot` to.
    pub open spec fn target_of(
        self,
        slot: u32,
        cpu: int,
        local_limit: int,
        remote_limit: int,
    ) -> FreeTarget {
        choose_target(
            self.home_of(slot) == cpu,
            self.local(cpu).len() as int,
            local_limit,
            self.remote(self.home_of(slot)).len() as int,
            remote_limit,
        )
    }

    /// Freeing `slot` by a thread that was seen on CPU `cpu`, then on CPU
    /// `fast` in its critical section (`None` if that failed).
    pub open spec fn free(
        self,
        slot: u32,
        cpu: int,
        fast: Option<int>,
        local_limit: int,
        remote_limit: int,
    ) -> PoolModel {
        match self.target_of(slot, cpu, local_limit, remote_limit) {
            FreeTarget::Local => {
                let to = match fast {
                    Some(c) => c,
                    None => cpu,
                };
                self.with_list(to, seq![slot] + self.local(to))
            },
            FreeTarget::Remote => self.with_list(
                self.cpus + self.home_of(slot),
                self.remote(self.home_of(slot)).push(slot),
            ),
            FreeTarget::Global => self.with_list(
                self.global_at(),
                seq![slot] + self.global(),
            ),
        }
    }
}

impl PoolModel {
    /// What allocation hands out was free and is in use then, and nothing else
    /// changes between free and in use. Where it hands out nothing, nothing
    /// changes at all.
    pub proof fn law_allocate_hands_out_a_free_slot(
        self,
        fast: Option<int>,
        pop: int,
        slow: int,
        batch: u32,
    )
        requires
            self.valid(),
            fast matches Some(cpu) ==> 0 <= cpu < self.cpus,
            0 <= pop < self.cpus,
            0 <= slow < self.cpus,
        ensures
            ({
                let (slot, after) = self.allocate(fast, pop, slow, batch);
                &&& after.valid()
                &&& after.cpus == self.cpus && after.slots() == self.slots()
                &&& match slot {
                    Some(s) => {
                        &&& s < self.slots()
                        &&& !self.in_use().contains(s)
                        &&& after.in_use() == self.in_use().insert(s)
                    },
                    None => after == self,
                }
            }),
    {
        if fast matches Some(cpu) && self.local(cpu).len() > 0 {
            self.lemma_pop_local(fast->0);
        } else if self.local(pop).len() > 0 {
            self.lemma_pop_local(pop);
        } else if self.drainable(slow, batch) > 0 {
            self.lemma_take_batch(self.cpus + slow, slow, self.drainable(slow, batch));
        } else {
            let count = smaller(batch as int, self.global().len() as int);
            if count > 0 {
                self.lemma_take_batch(self.global_at(), slow, count);
            }
        }
    }

    /// Freeing a slot makes it free, and nothing else changes between free and
    /// in use.
    pub proof fn law_free_returns_the_slot(
        self,
        slot: u32,
        cpu: int,
        fast: Option<int>,
        local_limit: int,
        remote_limit: int,
    )
        requires
            self.valid(),
            self.in_use().contains(slot),
            0 <= cpu < self.cpus,
            fast matches Some(c) ==> 0 <= c < self.cpus,
        ensures
            ({
                let after = self.free(slot, cpu, fast, local_limit, remote_limit);
                &&& after.valid()
                &&& after.cpus == self.cpus && after.slots() == self.slots()
                &&& after.home == self.home
                &&& after.in_use() == self.in_use().remove(slot)
            }),
    {
        let after = self.free(slot, cpu, fast, local_limit, remote_limit);
        let to = match fast {
            Some(c) => c,
            None => cpu,
        };
        let home = self.cpus + self.home_of(slot);
        lemma_put_first(self.lists, to, slot);
        lemma_put_first(self.lists, self.global_at(), slot);
        lemma_put_last(self.lists, home, slot);
        assert forall|a: int, i: int|
            0 <= a < after.lists.len() && 0 <= i < after.lists[a].len() implies
            #[trigger] after.lists[a][i] < after.slots() by {
            if after.lists[a][i] != slot {
                assert(listed(after.lists, after.lists[a][i]));
                assert(listed(self.lists, after.lists[a][i]));
                let (b, j) = choose|b: int, j: int|
                    0 <= b < self.lists.len() && 0 <= j < self.lists[b].len()
                        && #[trigger] self.lists[b][j] == after.lists[a][i];
                assert(self.lists[b][j] < self.slots());
            }
        }
        assert(after.in_use() =~= self.in_use().remove(slot));
    }

    proof fn lemma_pop_local(self, cpu: int)
        requires
            self.valid(),
            0 <= cpu < self.cpus,
            self.local(cpu).len() > 0,
        ensures
            self.pop_local(cpu).1.valid(),
            self.local(cpu)[0] < self.slots(),
            !self.in_use().contains(self.local(cpu)[0]),
            self.pop_local(cpu).1.in_use() == self.in_use().insert(self.local(cpu)[0]),
    {
        let after = self.pop_local(cpu).1;
        lemma_take_first(self.lists, cpu);
        assert(self.lists[cpu][0] < self.slots());
        assert forall|a: int, i: int|
            0 <= a < after.lists.len() && 0 <= i < after.lists[a].len() implies
            #[trigger] after.lists[a][i] < after.slots() by {
            assert(after.lists[a][i] == self.lists[a][if a == cpu {
                i + 1
            } else {
                i
            }]);
        }
        assert(after.in_use() =~= self.in_use().insert(self.local(cpu)[0]));
    }

    proof fn lemma_take_batch(self, a: int, cpu: int, count: int)
        requires
            self.valid(),
            0 <= cpu < self.cpus <= a < self.lists.len(),
            1 <= count <= self.lists[a].len(),
        ensures
            self.take_batch(a, cpu, count).1.valid(),
            self.lists[a][0] < self.slots(),
            !self.in_use().contains(self.lists[a][0]),
            self.take_batch(a, cpu, count).1.in_use() == self.in_use().insert(self.lists[a][0]),
    {
        let after = self.take_batch(a, cpu, count).1;
        lemma_move_batch(self.lists, a, cpu, count);
        assert(self.lists[a][0] < self.slots());
        assert forall|b: int, i: int|
            0 <= b < after.lists.len() && 0 <= i < after.lists[b].len() implies
            #[trigger] after.lists[b][i] < after.slots() by {
            let o = origin(count, a, cpu, b, i);
            assert(after.lists[b][i] == self.lists[o.0][o.1]);
        }
        assert(after.in_use() =~= self.in_use().insert(self.lists[a][0]));
    }
}

/// Where the slot at position `j` of list `b` stood before a batch of `count`
/// slots went from list `a` to list `c`.
spec fn origin(count: int, a: int, c: int, b: int, j: int) -> (int, int) {
    if b == a {
        (a, j + count)
    } else if b == c {
        if j < count - 1 {
            (a, count - 1 - j)
        } else {
            (c, j - (count - 1))
        }
    } else {
        (b, j)
    }
}

/// Moving a batch between two lists, the first slot of it to no list.
pub proof fn lemma_move_batch(lists: Seq<Seq<u32>>, a: int, c: int, count: int)
    requires
        unique(lists),
        0 <= a < lists.len(),
        0 <= c < lists.len(),
        a != c,
        1 <= count <= lists[a].len(),
    ensures
        ({
            let moved = lists.update(a, lists[a].subrange(count, lists[a].len() as int)).update(
                c,
                lists[a].subrange(1, count).reverse() + lists[c],
            );
            &&& unique(moved)
            &&& listed(lists, lists[a][0])
            &&& forall|slot: u32| #[trigger]
                listed(moved, slot) <==> listed(lists, slot) && slot != lists[a][0]
        }),
{
    let moved = lists.update(a, lists[a].subrange(count, lists[a].len() as int)).update(
        c,
        lists[a].subrange(1, count).reverse() + lists[c],
    );
    assert forall|b: int, j: int|
        0 <= b < moved.len() && 0 <= j < moved[b].len() implies #[trigger] moved[b][j]
        == lists[origin(count, a, c, b, j).0][origin(count, a, c, b, j).1] by {}
    assert forall|b: int, j: int, d: int, k: int|
        #![trigger moved[b][j], moved[d][k]]
        0 <= b < moved.len() && 0 <= j < moved[b].len() && 0 <= d < moved.len() && 0 <= k
            < moved[d].len() && moved[b][j] == moved[d][k] implies b == d && j == k by {
        let o = origin(count, a, c, b, j);
        let p = origin(count, a, c, d, k);
        assert(lists[o.0][o.1] == lists[p.0][p.1]);
    }
    let first = lists[a][0];
    assert forall|slot: u32| #[trigger]
        listed(moved, slot) implies listed(lists, slot) && slot != first by {
        let (b, j) = choose|b: int, j: int|
            0 <= b < moved.len() && 0 <= j < moved[b].len() && #[trigger] moved[b][j] == slot;
        let o = origin(count, a, c, b, j);
        assert(lists[o.0][o.1] == slot);
        assert(lists[a][0] == first);
    }
    assert forall|slot: u32| listed(lists, slot) && slot != first implies #[trigger] listed(
        moved,
        slot,
    ) by {
        let (b, j) = choose|b: int, j: int|
            0 <= b < lists.len() && 0 <= j < lists[b].len() && #[trigger] lists[b][j] == slot;
        if b == a {
            if j >= count {
                assert(moved[a][j - count] == slot);
            } else {
                assert(moved[c][count - 1 - j] == slot);
            }
        } else if b == c {
            assert(moved[c][j + count - 1] == slot);
        } else {
            assert(moved[b][j] == slot);
        }
    }
}

/// Taking the first slot off a list.
pub proof fn lemma_take_first(lists: Seq<Seq<u32>>, a: int)
    requires
        unique(lists),
        0 <= a < lists.len(),
        lists[a].len() > 0,
    ensures
        ({
            let left = lists.update(a, lists[a].subrange(1, lists[a].len() as int));
            &&& unique(left)
            &&& listed(lists, lists[a][0])
            &&& forall|slot: u32| #[trigger]
                listed(left, slot) <==> listed(lists, slot) && slot != lists[a][0]
        }),
{
    lemma_drop_first(lists, a, 1);
    let left = lists.update(a, lists[a].subrange(1, lists[a].len() as int));
    let first = lists[a][0];
    assert forall|slot: u32| listed(lists, slot) && slot != first implies #[trigger] listed(
        left,
        slot,
    ) by {
        if lists[a].subrange(0, 1).contains(slot) {
            assert(lists[a].subrange(0, 1)[0] == slot);
        }
    }
    assert(lists[a].subrange(0, 1)[0] == first);
}

/// Taking the first `count` slots off a list.
pub proof fn lemma_drop_first(lists: Seq<Seq<u32>>, a: int, count: int)
    requires
        unique(lists),
        0 <= a < lists.len(),
        0 <= count <= lists[a].len(),
    ensures
        ({
            let left = lists.update(a, lists[a].subrange(count, lists[a].len() as int));
            &&& unique(left)
            &&& forall|slot: u32|
                lists[a].subrange(0, count).contains(slot) ==> #[trigger] listed(lists, slot)
            &&& forall|slot: u32| #[trigger]
                listed(left, slot) <==> listed(lists, slot) && !lists[a].subrange(
                    0,
                    count,
                ).contains(slot)
        }),
{
    let left = lists.update(a, lists[a].subrange(count, lists[a].len() as int));
    let gone = lists[a].subrange(0, count);
    assert forall|b: int, j: int|
        0 <= b < left.len() && 0 <= j < left[b].len() implies #[trigger] left[b][j]
        == lists[b][if b == a {
        j + count
    } else {
        j
    }] by {}
    assert forall|b: int, j: int, d: int, k: int|
        #![trigger left[b][j], left[d][k]]
        0 <= b < left.len() && 0 <= j < left[b].len() && 0 <= d < left.len() && 0 <= k
            < left[d].len() && left[b][j] == left[d][k] implies b == d && j == k by {
        let o = if b == a {
            j + count
        } else {
            j
        };
        let p = if d == a {
            k + count
        } else {
            k
        };
        assert(lists[b][o] == lists[d][p]);
    }
    assert forall|slot: u32| gone.contains(slot) implies #[trigger] listed(lists, slot) by {
        let i = choose|i: int| 0 <= i < gone.len() && gone[i] == slot;
        assert(lists[a][i] == slot);
    }
    assert forall|slot: u32| #[trigger]
        listed(left, slot) implies listed(lists, slot) && !gone.contains(slot) by {
        let (b, j) = choose|b: int, j: int|
            0 <= b < left.len() && 0 <= j < left[b].len() && #[trigger] left[b][j] == slot;
        let o = if b == a {
            j + count
        } else {
            j
        };
        assert(lists[b][o] == slot);
        if gone.contains(slot) {
            let i = choose|i: int| 0 <= i < gone.len() && gone[i] == slot;
            assert(lists[a][i] == slot);
        }
    }
    assert forall|slot: u32| listed(lists, slot) && !gone.contains(slot) implies #[trigger] listed(
        left,
        slot,
    ) by {
        let (b, j) = choose|b: int, j: int|
            0 <= b < lists.len() && 0 <= j < lists[b].len() && #[trigger] lists[b][j] == slot;
        if b == a {
            if j < count {
                assert(gone[j] == slot);
            }
            assert(left[a][j - count] == slot);
        } else {
            assert(left[b][j] == slot);
        }
    }
}

/// Putting a slot that is on no list in front of a list.
pub proof fn lemma_put_first(lists: Seq<Seq<u32>>, a: int, slot: u32)
    requires
        unique(lists),
        0 <= a < lists.len(),
        !listed(lists, slot),
    ensures
        unique(lists.update(a, seq![slot] + lists[a])),
        forall|s: u32| #[trigger]
            listed(lists.update(a, seq![slot] + lists[a]), s) <==> listed(lists, s) || s == slot,
{
    let more = lists.update(a, seq![slot] + lists[a]);
    assert forall|b: int, j: int|
        0 <= b < more.len() && 0 <= j < more[b].len() && !(b == a && j == 0) implies
        #[trigger] more[b][j] == lists[b][if b == a {
        j - 1
    } else {
        j
    }] && more[b][j] != slot by {
        assert(more[b][j] == lists[b][if b == a {
            j - 1
        } else {
            j
        }]);
    }
    assert(more[a][0] == slot);
    assert forall|b: int, j: int, d: int, k: int|
        #![trigger more[b][j], more[d][k]]
        0 <= b < more.len() && 0 <= j < more[b].len() && 0 <= d < more.len() && 0 <= k
            < more[d].len() && more[b][j] == more[d][k] implies b == d && j == k by {
        if !(b == a && j == 0) && !(d == a && k == 0) {
            let o = if b == a {
                j - 1
            } else {
                j
            };
            let p = if d == a {
                k - 1
            } else {
                k
            };
            assert(lists[b][o] == lists[d][p]);
        }
    }
    assert forall|s: u32| #[trigger] listed(more, s) implies listed(lists, s) || s == slot by {
        let (b, j) = choose|b: int, j: int|
            0 <= b < more.len() && 0 <= j < more[b].len() && #[trigger] more[b][j] == s;
        if !(b == a && j == 0) {
            assert(lists[b][if b == a {
                j - 1
            } else {
                j
            }] == s);
        }
    }
    assert forall|s: u32| listed(lists, s) || s == slot implies #[trigger] listed(more, s) by {
        if s != slot {
            let (b, j) = choose|b: int, j: int|
                0 <= b < lists.len() && 0 <= j < lists[b].len() && #[trigger] lists[b][j] == s;
            assert(more[b][if b == a {
                j + 1
            } else {
                j
            }] == s);
        }
    }
}

/// Putting a slot that is on no list behind a list.
pub proof fn lemma_put_last(lists: Seq<Seq<u32>>, a: int, slot: u32)
    requires
        unique(lists),
        0 <= a < lists.len(),
        !listed(lists, slot),
    ensures
        unique(lists.update(a, lists[a].push(slot))),
        forall|s: u32| #[trigger]
            listed(lists.update(a, lists[a].push(slot)), s) <==> listed(lists, s) || s == slot,
{
    let more = lists.update(a, lists[a].push(slot));
    let end = lists[a].len() as int;
    assert forall|b: int, j: int|
        0 <= b < more.len() && 0 <= j < more[b].len() && !(b == a && j == end) implies
        #[trigger] more[b][j] == lists[b][j] && more[b][j] != slot by {
        assert(more[b][j] == lists[b][j]);
    }
    assert(more[a][end] == slot);
    assert forall|b: int, j: int, d: int, k: int|
        #![trigger more[b][j], more[d][k]]
        0 <= b < more.len() && 0 <= j < more[b].len() && 0 <= d < more.len() && 0 <= k
            < more[d].len() && more[b][j] == more[d][k] implies b == d && j == k by {
        if !(b == a && j == end) && !(d == a && k == end) {
            assert(lists[b][j] == lists[d][k]);
        }
    }
    assert forall|s: u32| #[trigger] listed(more, s) implies listed(lists, s) || s == slot by {
        let (b, j) = choose|b: int, j: int|
            0 <= b < more.len() && 0 <= j < more[b].len() && #[trigger] more[b][j] == s;
        if !(b == a && j == end) {
            assert(lists[b][j] == s);
        }
    }
    assert forall|s: u32| listed(lists, s) || s == slot implies #[trigger] listed(more, s) by {
        if s != slot {
            let (b, j) = choose|b: int, j: int|
                0 <= b < lists.len() && 0 <= j < lists[b].len() && #[trigger] lists[b][j] == s;
            assert(more[b][j] == s);
        }
    }
}

/// A freed slot goes to the local list exactly if it is at home and that has room,
/// to the global stack exactly if neither that nor the remote queue takes it, and
/// to the remote queue otherwise.
pub proof fn law_target_goes_by_home_and_room(
    at_home: bool,
    local_len: int,
    local_limit: int,
    remote_len: int,
    remote_limit: int,
)
    ensures
        ({
            let target = choose_target(at_home, local_len, local_limit, remote_len, remote_limit);
            let local = at_home && local_len < local_limit;
            &&& target is Local <==> local
            &&& target is Global <==> !local && remote_len >= remote_limit
            &&& target is Remote <==> !local && remote_len < remote_limit
        }),
{
}

} // verus!
