use seqpool::chain::NULL;
use seqpool::treiber::{pack, pop_candidate, pop_step, push_step, unpack, TreiberStack, EMPTY};

fn links(n: usize) -> Vec<u32> {
    vec![NULL; n]
}

#[test]
fn push_pop_single() {
    let mut stack = TreiberStack::new();
    let mut next = links(4);

    assert_eq!(stack.pop(&next), None);

    stack.push(&mut next, 2);
    stack.push(&mut next, 0);
    stack.push(&mut next, 3);

    // LIFO order
    assert_eq!(stack.pop(&next), Some(3));
    assert_eq!(stack.pop(&next), Some(0));
    assert_eq!(stack.pop(&next), Some(2));
    assert_eq!(stack.pop(&next), None);
}

#[test]
fn push_pop_batch() {
    let mut stack = TreiberStack::new();
    let mut next = links(8);

    for i in 0..8u32 {
        stack.push(&mut next, i);
    }

    let mut buf = [0u32; 4];
    let n = stack.pop_batch(&next, &mut buf);
    assert_eq!(n, 4);

    let n2 = stack.pop_batch(&next, &mut buf);
    assert_eq!(n2, 4);

    assert_eq!(stack.pop(&next), None);
}

#[test]
fn concurrent_push_pop() {
    const N: u32 = 1000;
    let mut next = links(N as usize);
    let mut stack = TreiberStack::new();

    // Push all indices from multiple threads, which take turns
    let mut threads: Vec<std::ops::Range<u32>> = (0..N)
        .step_by(100)
        .map(|chunk_start| chunk_start..(chunk_start + 100).min(N))
        .collect();
    let mut pushed = true;
    while pushed {
        pushed = false;
        for thread in threads.iter_mut() {
            if let Some(i) = thread.next() {
                stack.push(&mut next, i);
                pushed = true;
            }
        }
    }

    // Pop all: we should get exactly N unique indices
    let mut seen = vec![false; N as usize];
    let mut count = 0;
    while let Some(idx) = stack.pop(&next) {
        assert!(!seen[idx as usize], "duplicate index {idx}");
        seen[idx as usize] = true;
        count += 1;
    }
    assert_eq!(count, N);
}

/// A thread that pushes by single steps: what is left to push, and the head
/// that it has read for the slot it is at.
struct Pusher {
    left: Vec<u32>,
    read: Option<u64>,
}

#[test]
fn interleaved_steps_push_and_pop_everything() {
    const N: u32 = 60;
    let mut head = EMPTY;
    let mut next = links(N as usize);
    let mut pushers: Vec<Pusher> = (0..6)
        .map(|t| Pusher { left: (t * 10..t * 10 + 10).collect(), read: None })
        .collect();
    let mut lost_races = 0;
    while pushers.iter().any(|p| !p.left.is_empty()) {
        // All threads read the head, then all of them try to swing it.
        for p in pushers.iter_mut() {
            p.read.get_or_insert(head);
        }
        for p in pushers.iter_mut() {
            let Some(index) = p.left.last().copied() else {
                continue;
            };
            let seen = p.read.unwrap();
            let (link, new_head) = push_step(seen, index);
            next[index as usize] = link;
            if head == seen {
                head = new_head;
                p.left.pop();
                p.read = None;
            } else {
                p.read = Some(head);
                lost_races += 1;
            }
        }
    }
    assert!(lost_races > 0);

    let mut seen = vec![false; N as usize];
    let mut count = 0;
    while let Some(idx) = pop_candidate(head) {
        head = pop_step(head, next[idx as usize]);
        assert!(!seen[idx as usize], "duplicate index {idx}");
        seen[idx as usize] = true;
        count += 1;
    }
    assert_eq!(count, N);
}

#[test]
fn pop_batch_fills_from_the_top() {
    let mut stack = TreiberStack::new();
    let mut next = links(8);
    stack.push(&mut next, 5);
    stack.push(&mut next, 1);
    stack.push(&mut next, 6);

    let mut none: [u32; 0] = [];
    assert_eq!(stack.pop_batch(&next, &mut none), 0);
    let mut two = [99u32; 2];
    assert_eq!(stack.pop_batch(&next, &mut two), 2);
    assert_eq!(two, [6, 1]);
    let mut three = [99u32; 3];
    assert_eq!(stack.pop_batch(&next, &mut three), 1);
    assert_eq!(three, [5, 99, 99]);
}

#[test]
fn push_writes_the_link() {
    let mut stack = TreiberStack::new();
    let mut next = links(3);
    stack.push(&mut next, 2);
    stack.push(&mut next, 0);
    assert_eq!(next, vec![2, NULL, NULL]);
}

#[test]
fn pack_puts_the_generation_on_top() {
    assert_eq!(pack(7, 2), 0x2_0000_0007);
    assert_eq!(unpack(0x2_0000_0007), (7, 2));
    assert_eq!(pack(NULL, 0), EMPTY);
    assert_eq!(unpack(EMPTY), (NULL, 0));
    assert_eq!(unpack(u64::MAX), (u32::MAX, u32::MAX));
}

#[test]
fn steps_bump_the_generation() {
    assert_eq!(push_step(EMPTY, 4), (NULL, pack(4, 1)));
    assert_eq!(push_step(pack(4, 1), 9), (4, pack(9, 2)));
    assert_eq!(pop_candidate(EMPTY), None);
    assert_eq!(pop_candidate(pack(9, 2)), Some(9));
    assert_eq!(pop_step(pack(9, 2), 4), pack(4, 3));
    // The generation wraps around.
    assert_eq!(pop_step(pack(9, u32::MAX), 4), pack(4, 0));
}

#[test]
fn a_stale_head_is_told_apart() {
    // Pop 9, push 9 again: the same slot is on top, under another head value.
    let seen = pack(9, 2);
    let popped = pop_step(seen, 4);
    let (_, again) = push_step(popped, 9);
    assert_eq!(unpack(again).0, 9);
    assert_ne!(again, seen);
}
