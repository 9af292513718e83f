use seqpool::chain::NULL;
use seqpool::model::FreeTarget;
use seqpool::pool::{
    alloc_next, batch_full, batch_use, clamp_cpu, free_target, has_room, AllocStep, BatchUse,
};
use seqpool::rseq::{Rseq, Sightings};
use seqpool::slot::SlotMeta;
use seqpool::{Pool, PoolConfig, SendPtr, SlotPtr, Storage};
use std::collections::VecDeque;

/// An address that slots may start at.
const BASE: usize = 0x10_0000;

fn pool_config<T: 'static + Send + Sync>(slot_count: u32, batch_size: u32) -> PoolConfig<T> {
    PoolConfig::new(slot_count, batch_size)
}

fn on(cpu: usize) -> Sightings {
    Sightings::steady(None, cpu)
}

fn area_on(cpu: u32) -> Option<Rseq> {
    Some(Rseq { cpu_id_start: cpu, cpu_id: cpu, rseq_cs: 0, flags: 0 })
}

fn looks_on(cpu: u32) -> Option<[Rseq; 5]> {
    area_on(cpu).map(|area| [area; 5])
}

fn slot<T>(ptr: SlotPtr<T>) -> usize {
    (ptr.addr - BASE) / std::mem::size_of::<T>()
}

#[test]
fn basic_alloc_free() {
    let mut pool = Pool::new(pool_config::<[u8; 1500]>(16, 4), 4, BASE);
    let mut memory = vec![0u8; 16 * 1500];

    let ptr = pool.allocate(on(0)).expect("should allocate");
    let at = ptr.addr - BASE;
    memory[at..at + 1500].fill(0xAB);
    pool.free(ptr, on(0));

    let ptr2 = pool.allocate(on(0)).expect("should re-allocate");
    pool.free(ptr2, on(0));
}

#[test]
fn exhaust_pool() {
    let mut pool = Pool::new(pool_config::<u64>(4, 2), 4, BASE);

    let mut ptrs = vec![];
    for _ in 0..4 {
        ptrs.push(pool.allocate(on(0)).expect("should allocate"));
    }
    assert!(pool.allocate(on(0)).is_none(), "pool should be exhausted");

    pool.free(ptrs.pop().unwrap(), on(0));
    let p = pool.allocate(on(0)).expect("should allocate after free");
    pool.free(p, on(0));
}

#[test]
fn all_ptrs_unique() {
    let mut pool = Pool::new(pool_config::<u64>(100, 16), 4, BASE);

    let mut ptrs: Vec<SlotPtr<u64>> = (0..100)
        .map(|_| pool.allocate(on(0)).expect("should allocate"))
        .collect();

    let mut addrs: Vec<usize> = ptrs.iter().map(|p| p.addr).collect();
    addrs.sort();
    addrs.dedup();
    assert_eq!(addrs.len(), 100);

    for ptr in ptrs.drain(..) {
        pool.free(ptr, on(0));
    }
}

#[test]
fn global_stack_initial_distribution() {
    let mut pool = Pool::new(pool_config::<u64>(64, 8), 4, BASE);

    let mut ptrs = vec![];
    for _ in 0..64 {
        ptrs.push(pool.allocate(on(0)).expect("should allocate from global"));
    }
    assert!(pool.allocate(on(0)).is_none());

    for ptr in ptrs {
        pool.free(ptr, on(0));
    }
}

#[test]
fn cross_thread_alloc_free() {
    let slot_count = 1024;
    let iterations = 8;

    let mut pool = Pool::new(pool_config::<[u8; 1500]>(slot_count, 32), 4, BASE);
    // Bounded channel creates backpressure so the producer can't
    // outrun the consumer by more than the pool capacity.
    let bound = slot_count as usize / 2;
    let mut channel: VecDeque<SendPtr<[u8; 1500]>> = VecDeque::new();

    let (mut sent, mut received) = (0, 0);
    while received < slot_count * iterations {
        // The producer runs until the channel is full.
        while sent < slot_count * iterations && channel.len() < bound {
            let ptr = pool.allocate(on(0)).expect("should allocate");
            channel.push_back(SendPtr::new(ptr));
            sent += 1;
        }
        // The consumer, on another CPU, runs until it is empty.
        while let Some(sptr) = channel.pop_front() {
            pool.free(sptr.into_inner(), on(1));
            received += 1;
        }
    }
    assert_eq!(sent, slot_count * iterations);
}

#[test]
fn concurrent_alloc_free_stress() {
    let mut pool = Pool::new(pool_config::<u64>(256, 16), 4, BASE);
    let num_threads = 4;
    let ops_per_thread = 10_000;

    // Threads on different CPUs, which take turns
    let mut taken = vec![false; 256];
    let mut held: Vec<Vec<SlotPtr<u64>>> = (0..num_threads).map(|_| Vec::new()).collect();
    for i in 0..ops_per_thread {
        for cpu in 0..num_threads {
            if i % 3 != 0 && held[cpu].len() < 60 {
                if let Some(ptr) = pool.allocate(on(cpu)) {
                    assert!(!taken[slot(ptr)]);
                    taken[slot(ptr)] = true;
                    held[cpu].push(ptr);
                }
            } else if let Some(ptr) = held[cpu].pop() {
                taken[slot(ptr)] = false;
                pool.free(ptr, on(cpu));
            }
        }
    }
    for cpu in 0..num_threads {
        for ptr in held[cpu].drain(..) {
            pool.free(ptr, on(cpu));
        }
    }
}

#[test]
fn slots_come_in_batches() {
    let mut pool = Pool::new(pool_config::<u64>(8, 3), 2, BASE);
    // The batch 0, 1, 2: the first is handed out, the others are pushed to the
    // local list one by one.
    assert_eq!(pool.allocate(on(0)).map(slot), Some(0));
    assert_eq!(pool.allocate(on(0)).map(slot), Some(2));
    // The other CPU has a batch of its own.
    assert_eq!(pool.allocate(on(1)).map(slot), Some(3));
    assert_eq!(pool.allocate(on(0)).map(slot), Some(1));
    // What is left for CPU 0 is less than a batch.
    assert_eq!(pool.allocate(on(0)).map(slot), Some(6));
    assert_eq!(pool.allocate(on(0)).map(slot), Some(7));
    // Slots 4 and 5 are on the local list of CPU 1.
    assert_eq!(pool.allocate(on(0)).map(slot), None);
    assert_eq!(pool.allocate(on(1)).map(slot), Some(5));
    assert_eq!(pool.allocate(on(1)).map(slot), Some(4));
    assert_eq!(pool.allocate(on(1)).map(slot), None);
}

#[test]
fn freed_slot_is_reused_first() {
    let mut pool = Pool::new(pool_config::<u64>(8, 4), 2, BASE);
    let a = pool.allocate(on(0)).unwrap();
    let b = pool.allocate(on(0)).unwrap();
    pool.free(a, on(0));
    assert_eq!(pool.allocate(on(0)).map(slot), Some(slot(a)));
    pool.free(b, on(0));
    assert_eq!(pool.allocate(on(0)).map(slot), Some(slot(b)));
}

#[test]
fn freed_slots_overflow_to_home_and_to_global() {
    // Batches of one: local lists take 2 slots, remote queues 4.
    let mut pool = Pool::new(pool_config::<u64>(9, 1), 3, BASE);
    let ptrs: Vec<SlotPtr<u64>> = (0..9).map(|_| pool.allocate(on(2)).unwrap()).collect();
    assert!(pool.allocate(on(0)).is_none());

    // Freed on CPU 0: four to the remote queue of CPU 2, then to the global
    // stack.
    for ptr in &ptrs[0..6] {
        pool.free(*ptr, on(0));
    }
    // Freed at home: two to the local list, then, as the remote queue is full,
    // to the global stack.
    for ptr in &ptrs[6..9] {
        pool.free(*ptr, on(2));
    }
    // Nothing has come to the local list or the queue of CPU 0: it finds the
    // global stack, last freed first.
    assert_eq!(pool.allocate(on(0)).map(slot), Some(8));
    assert_eq!(pool.allocate(on(1)).map(slot), Some(5));
    // Local list of CPU 2, last freed first
    assert_eq!(pool.allocate(on(2)).map(slot), Some(7));
    assert_eq!(pool.allocate(on(2)).map(slot), Some(6));
    // Remote queue of CPU 2, first freed first, but not the last one; then the
    // rest of the global stack
    assert_eq!(pool.allocate(on(2)).map(slot), Some(0));
    assert_eq!(pool.allocate(on(2)).map(slot), Some(1));
    assert_eq!(pool.allocate(on(2)).map(slot), Some(2));
    assert_eq!(pool.allocate(on(2)).map(slot), Some(4));
    assert_eq!(pool.allocate(on(2)).map(slot), None);
    assert_eq!(pool.allocate(on(0)).map(slot), None);
}

#[test]
fn slot_freed_elsewhere_goes_home() {
    let mut pool = Pool::new(pool_config::<u64>(4, 1), 2, BASE);
    let ptrs: Vec<SlotPtr<u64>> = (0..4).map(|_| pool.allocate(on(0)).unwrap()).collect();
    pool.free(ptrs[0], on(1));
    pool.free(ptrs[1], on(1));
    // Both are in the queue of CPU 0, where the second is the sentinel.
    assert_eq!(pool.allocate(on(1)).map(slot), None);
    assert_eq!(pool.allocate(on(0)).map(slot), Some(0));
    assert_eq!(pool.allocate(on(0)).map(slot), None);
}

#[test]
fn rounds_on_one_cpu_never_run_dry() {
    let mut pool = Pool::new(pool_config::<u64>(1, 1), 1, BASE);
    let first = pool.allocate(on(0)).unwrap();
    pool.free(first, on(0));
    for _ in 0..100 {
        let ptr = pool.allocate(on(0)).expect("no slot is in use");
        assert_eq!(ptr.addr, first.addr);
        pool.free(ptr, on(0));
    }
}

#[test]
fn local_list_is_bounded_by_what_is_on_it() {
    // Batches of two: local lists take 4 slots.
    let mut pool = Pool::new(pool_config::<u64>(8, 2), 1, BASE);
    let ptrs: Vec<SlotPtr<u64>> = (0..7).map(|_| pool.allocate(on(0)).unwrap()).collect();
    // Slot 7 has come with slot 6. Three more fit, and two go to the queue.
    for ptr in &ptrs[0..5] {
        pool.free(*ptr, on(0));
    }
    let got: Vec<Option<usize>> = (0..6).map(|_| pool.allocate(on(0)).map(slot)).collect();
    // The local list, then the queue but for its sentinel
    assert_eq!(got, vec![Some(2), Some(1), Some(0), Some(7), Some(3), None]);
}

#[test]
fn remote_queue_is_drained_in_batches() {
    // Batches of two: local lists take 4 slots, remote queues 8.
    let mut pool = Pool::new(pool_config::<u64>(10, 2), 2, BASE);
    let ptrs: Vec<SlotPtr<u64>> = (0..10).map(|_| pool.allocate(on(1)).unwrap()).collect();
    let order: Vec<usize> = ptrs.iter().map(|p| slot(*p)).collect();
    assert_eq!(order, vec![0, 1, 2, 3, 4, 5, 6, 7, 8, 9]);
    for ptr in &ptrs[0..6] {
        pool.free(*ptr, on(0));
    }
    // The queue of CPU 1 holds 0, 1, 2, 3, 4, 5; 5 is the sentinel.
    let got: Vec<Option<usize>> = (0..6).map(|_| pool.allocate(on(1)).map(slot)).collect();
    assert_eq!(got, vec![Some(0), Some(1), Some(2), Some(3), Some(4), None]);
}

#[test]
fn critical_section_and_fallback_agree() {
    for area in [None, area_on(1)] {
        let seen = Sightings::steady(area, 1);
        let mut pool = Pool::new(pool_config::<u64>(6, 3), 2, BASE);
        let a = pool.allocate(seen).unwrap();
        let b = pool.allocate(seen).unwrap();
        assert_eq!((slot(a), slot(b)), (0, 2));
        pool.free(a, seen);
        pool.free(b, seen);
        let got: Vec<Option<usize>> = (0..7).map(|_| pool.allocate(seen).map(slot)).collect();
        assert_eq!(
            got,
            vec![Some(2), Some(0), Some(1), Some(3), Some(5), Some(4), None]
        );
    }
}

#[test]
fn migration_between_looks() {
    let mut pool = Pool::new(pool_config::<u64>(6, 2), 2, BASE);
    let a = pool.allocate(on(0)).unwrap();
    // Local list of CPU 0: slot 1. Seen on CPU 1 first, then on CPU 0.
    let moved = Sightings {
        fallback_cpu: 0,
        section: looks_on(1),
        first: area_on(0),
        second: None,
    };
    assert_eq!(pool.allocate(moved).map(slot), Some(1));
    // Seen at home on CPU 0, committed on CPU 1.
    let moved = Sightings {
        fallback_cpu: 0,
        section: looks_on(1),
        first: area_on(0),
        second: None,
    };
    pool.free(a, moved);
    assert_eq!(pool.allocate(on(1)).map(slot), Some(0));
    // Now at home on CPU 1. Seen on CPU 0: it goes to the queue of CPU 1.
    pool.free(a, on(0));
    assert_eq!(pool.allocate(on(0)).map(slot), Some(2));
}

#[test]
fn cpus_beyond_the_last_share_it() {
    let mut pool = Pool::new(pool_config::<u64>(4, 2), 2, BASE);
    assert_eq!(pool.allocate(on(7)).map(slot), Some(0));
    assert_eq!(pool.allocate(on(1)).map(slot), Some(1));
    assert_eq!(clamp_cpu(7, 2), 1);
    assert_eq!(clamp_cpu(0, 2), 0);
}

#[test]
fn sizes_of_a_pool() {
    let pool = Pool::new(pool_config::<u64>(12, 2), 3, BASE);
    assert_eq!(pool.capacity(), 12);
    assert_eq!(pool.num_cpus(), 3);
    let pool = Pool::new(pool_config::<u64>(1, 2), 70_000, BASE);
    assert_eq!(pool.capacity(), 1);
    assert_eq!(pool.num_cpus(), u16::MAX);
}

#[test]
fn slots_stand_side_by_side() {
    let mut pool = Pool::new(pool_config::<[u16; 3]>(3, 1), 1, BASE);
    let addrs: Vec<usize> = (0..3).map(|_| pool.allocate(on(0)).unwrap().addr).collect();
    assert_eq!(addrs, vec![BASE, BASE + 6, BASE + 12]);
}

#[test]
fn slots_without_size() {
    let mut pool = Pool::new(pool_config::<()>(2, 1), 1, 1);
    let p = pool.allocate(on(0)).unwrap();
    let q = pool.allocate(on(0)).unwrap();
    assert_eq!((p.addr, q.addr), (1, 2));
    assert!(pool.allocate(on(0)).is_none());
    pool.free(p, on(0));
    pool.free(q, on(0));
    assert!(pool.allocate(on(0)).is_some());
    assert!(pool.allocate(on(0)).is_some());
    assert!(pool.allocate(on(0)).is_none());

    let mut pool = Pool::new(pool_config::<[u64; 0]>(2, 1), 1, 8);
    assert_eq!(pool.allocate(on(0)).map(|p| p.addr), Some(8));
    assert_eq!(pool.allocate(on(0)).map(|p| p.addr), Some(16));
}

#[test]
fn slots_are_aligned() {
    let mut pool = Pool::new(pool_config::<(u64, u8)>(5, 2), 1, BASE + 8);
    for _ in 0..5 {
        assert_eq!(pool.allocate(on(0)).unwrap().addr % std::mem::align_of::<(u64, u8)>(), 0);
    }
}

#[test]
fn order_of_the_sources() {
    let order = [
        AllocStep::SectionPop,
        AllocStep::ListPop,
        AllocStep::Drain,
        AllocStep::Refill,
        AllocStep::GiveUp,
        AllocStep::GiveUp,
    ];
    for i in 0..5 {
        assert!(alloc_next(order[i], None) == order[i + 1]);
    }
    let end = AllocStep::HandOut { index: 7, cpu: 2 };
    for at in &order[0..4] {
        assert!(alloc_next(*at, Some((7, 2))) == end);
    }
    assert!(alloc_next(end, None) == end);
    assert!(batch_use(0) == BatchUse::HandOut);
    assert!(batch_use(1) == BatchUse::Keep);
}

#[test]
fn restarted_section_finds_the_new_cpu() {
    let mut pool = Pool::new(pool_config::<u64>(6, 2), 2, BASE);
    let a = pool.allocate(on(1)).unwrap();
    // Local list of CPU 1: slot 1. Seen on CPU 0, which it leaves, then on CPU 1.
    let mut looks = looks_on(1).unwrap();
    looks[0] = Rseq { cpu_id_start: 0, cpu_id: 1, rseq_cs: 0, flags: 0 };
    let seen = Sightings { fallback_cpu: 0, section: Some(looks), first: None, second: None };
    assert_eq!(pool.allocate(seen).map(slot), Some(1));
    assert_eq!(slot(a), 0);
}

#[test]
fn target_of_a_freed_slot() {
    // Local lists take 4 slots, remote queues 8.
    let target = |home, cpu, local, remote| free_target(home, cpu, local, || 4, remote, || 8);
    assert!(target(1, 1, 3, 8) == FreeTarget::Local);
    assert!(target(1, 1, 4, 7) == FreeTarget::Remote);
    assert!(target(1, 1, 4, 8) == FreeTarget::Global);
    assert!(target(1, 0, 0, 7) == FreeTarget::Remote);
    assert!(target(1, 0, 0, 8) == FreeTarget::Global);
    // What does not matter is not asked for.
    assert!(free_target(1, 1, 0, || 1, 0, || panic!("not asked")) == FreeTarget::Local);
    assert!(free_target(1, 0, 0, || panic!("not asked"), 0, || 1) == FreeTarget::Remote);
}

#[test]
fn layout_of_the_slots() {
    type P = Pool<PoolConfig<[u32; 5]>>;
    assert_eq!(P::data_layout(&pool_config::<[u32; 5]>(7, 1)), Some((140, 4)));
    assert_eq!(P::data_layout(&pool_config::<[u32; 5]>(0, 1)), Some((0, 4)));
    type Huge = Pool<PoolConfig<[u8; 1 << 40]>>;
    assert_eq!(Huge::data_layout(&pool_config::<[u8; 1 << 40]>(NULL - 1, 1)), None);
    assert_eq!(Huge::data_layout(&pool_config::<[u8; 1 << 40]>(1 << 23, 1)), None);
    assert_eq!(
        Huge::data_layout(&pool_config::<[u8; 1 << 40]>((1 << 23) - 1, 1)),
        Some((((1 << 23) - 1) << 40, 1))
    );
}

#[test]
fn config_has_batches_of_at_least_one() {
    let config = pool_config::<u64>(5, 0);
    assert_eq!(config.slot_count(), 5);
    assert_eq!(config.batch_size(), 1);
    let config = pool_config::<u64>(5, 8);
    assert_eq!(config.batch_size(), 8);
    assert_eq!(config.local_cache_capacity(), 16);
    assert_eq!(config.remote_cache_capacity(), 32);
}

#[test]
fn rules_of_the_caches() {
    assert!(has_room(3, 4));
    assert!(!has_room(4, 4));
    assert!(!batch_full(3, 4));
    assert!(batch_full(4, 4));
    assert!(batch_full(1, 0));
}

#[test]
fn slot_meta_keeps_its_home() {
    let mut meta = SlotMeta::new();
    assert_eq!(meta.home_cpu(), 0);
    meta.set_home_cpu(9);
    assert_eq!(meta.home_cpu(), 9);
}

#[test]
fn send_ptr_gives_back_what_it_got() {
    let ptr: SlotPtr<u64> = SlotPtr::at(4711);
    assert_eq!(SendPtr::new(ptr).into_inner().addr, 4711);
}
