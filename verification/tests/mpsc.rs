use seqpool::chain::NULL;
use seqpool::mpsc::{drain_step, enqueue_step, EnqueueLink, MpscQueue};
use std::ops::ControlFlow;

fn all(_index: u32, _count: usize) -> ControlFlow<()> {
    ControlFlow::Continue(())
}

#[test]
fn single_thread_enqueue_drain() {
    let mut queue = MpscQueue::new();
    let mut next: Vec<u32> = vec![NULL; 8];

    // Empty drain
    assert_eq!(queue.drain(&next, all).len(), 0);

    // Enqueue 3 items
    queue.enqueue(&mut next, 3);
    queue.enqueue(&mut next, 1);
    queue.enqueue(&mut next, 5);

    // Drain: should get first 2 (3 and 1). Item 5 is the sentinel at back.
    let items = queue.drain(&next, all);
    assert_eq!(items.len(), 2);
    assert_eq!(items, vec![3, 1]);

    // Enqueue one more so 5 is no longer the sentinel.
    queue.enqueue(&mut next, 7);

    // Now drain gets 5 (old sentinel), 7 is the new sentinel.
    let items = queue.drain(&next, all);
    assert_eq!(items.len(), 1);
    assert_eq!(items, vec![5]);

    // Enqueue another to free 7.
    queue.enqueue(&mut next, 2);
    let items = queue.drain(&next, all);
    assert_eq!(items, vec![7]);
}

#[test]
fn concurrent_enqueue_drain() {
    // We need N+1 indices because one is always the sentinel.
    const N: u32 = 10_000;
    const TOTAL: u32 = N + 1;
    let mut next: Vec<u32> = vec![NULL; TOTAL as usize];
    let mut queue = MpscQueue::new();

    // Multiple producer threads, which take turns
    let threads = 4u32;
    let per_thread = N / threads;
    let mut producers: Vec<std::ops::Range<u32>> = (0..threads)
        .map(|t| {
            let start = t * per_thread;
            let end = if t == threads - 1 {
                N
            } else {
                start + per_thread
            };
            start..end
        })
        .collect();
    let mut enqueued = true;
    while enqueued {
        enqueued = false;
        for producer in producers.iter_mut() {
            if let Some(i) = producer.next() {
                queue.enqueue(&mut next, i);
                enqueued = true;
            }
        }
    }

    // Enqueue one final item to release the sentinel.
    queue.enqueue(&mut next, N);

    // Single consumer drains
    let mut seen = vec![false; TOTAL as usize];
    let mut count = 0;
    for _ in 0..100 {
        for idx in queue.drain(&next, all) {
            assert!(!seen[idx as usize], "duplicate index {idx}");
            seen[idx as usize] = true;
            count += 1;
        }
        if count >= N {
            break;
        }
    }
    // We should have all N items (the final sentinel N is not consumed).
    assert_eq!(count, N);
}

#[test]
fn drain_stops_at_break() {
    let mut queue = MpscQueue::new();
    let mut next: Vec<u32> = vec![NULL; 8];
    for i in [4, 0, 6, 2, 1] {
        queue.enqueue(&mut next, i);
    }
    assert_eq!(queue.approx_len(), 5);
    // The element that the callback stops at is still consumed.
    let items = queue.drain(&next, |_, count| {
        if count >= 2 {
            ControlFlow::Break(())
        } else {
            ControlFlow::Continue(())
        }
    });
    assert_eq!(items, vec![4, 0]);
    assert_eq!(queue.approx_len(), 3);
    assert_eq!(queue.drain(&next, all), vec![6, 2]);
    assert_eq!(queue.approx_len(), 1);
    assert_eq!(queue.drain(&next, all), Vec::<u32>::new());
    assert_eq!(queue.approx_len(), 1);
}

#[test]
fn drain_can_stop_by_index() {
    let mut queue = MpscQueue::new();
    let mut next: Vec<u32> = vec![NULL; 8];
    for i in [4, 0, 6, 2, 1] {
        queue.enqueue(&mut next, i);
    }
    let items = queue.drain(&next, |index, _| {
        if index == 6 {
            ControlFlow::Break(())
        } else {
            ControlFlow::Continue(())
        }
    });
    assert_eq!(items, vec![4, 0, 6]);
}

#[test]
fn enqueue_links_the_previous_back() {
    let mut queue = MpscQueue::new();
    let mut next: Vec<u32> = vec![0; 4];
    queue.enqueue(&mut next, 3);
    assert_eq!(next, vec![0, 0, 0, NULL]);
    queue.enqueue(&mut next, 1);
    assert_eq!(next, vec![0, NULL, 0, 1]);
}

#[test]
fn enqueue_step_tells_where_to_record() {
    assert!(enqueue_step(NULL) == EnqueueLink::Front);
    assert!(enqueue_step(6) == EnqueueLink::After(6));
}

#[test]
fn drain_step_keeps_sentinel_and_unlinked() {
    assert_eq!(drain_step(3, 3, 5), None);
    assert_eq!(drain_step(3, 4, NULL), None);
    assert_eq!(drain_step(3, 4, 5), Some(5));
}

#[test]
fn interleaved_steps_lose_no_slot() {
    let mut next: Vec<u32> = vec![NULL; 6];
    let (mut front, mut back) = (NULL, NULL);

    // Three producers have swapped the back, none has recorded its slot.
    let mut pending: Vec<(u32, EnqueueLink)> = vec![];
    for index in [4, 1, 3] {
        next[index as usize] = NULL;
        let prev = back;
        back = index;
        pending.push((index, enqueue_step(prev)));
    }
    assert_eq!(front, NULL);

    // The last one is the first to finish: the consumer still finds nothing.
    // Then the first one: the consumer finds the front, and stops at once.
    for at in [2, 0] {
        let (index, link) = pending[at];
        match link {
            EnqueueLink::Front => front = index,
            EnqueueLink::After(prev) => next[prev as usize] = index,
        }
    }
    assert_eq!(front, 4);
    assert_eq!(drain_step(front, back, next[front as usize]), None);

    // All have finished: the consumer gets to the sentinel.
    let (index, link) = pending[1];
    match link {
        EnqueueLink::Front => front = index,
        EnqueueLink::After(prev) => next[prev as usize] = index,
    }
    let mut consumed = vec![];
    while let Some(onward) = drain_step(front, back, next[front as usize]) {
        consumed.push(front);
        front = onward;
    }
    assert_eq!(consumed, vec![4, 1]);
    assert_eq!(front, 3);
}
