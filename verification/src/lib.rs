//! # seqpool
//!
//! A pre-allocated object pool designed for cross-thread allocation patterns
//! common in network protocol implementations.
//!
//! ## Design
//!
//! - **Fixed layout per pool**: The allocation size is baked into the type via generics.
//! - **Pre-allocated**: All memory is allocated up front, giving predictable memory usage.
//! - **Cross-thread optimized**: Designed for the pattern where one thread allocates
//!   and another thread frees (e.g., packet TX/RX pipelines).
//! - **CPU local data structures**: On Linux, RSEQ is used for fast CPU-local cache lookups.
//!
//! ## Architecture
//!
//! The pool uses a message-passing pattern with three levels:
//!
//! 1. **Per-CPU local free list**: Each CPU has a local singly-linked free list.
//!    Allocation pops from this list. This is the fast path.
//!
//! 2. **Per-CPU remote MPSC queue**: Each CPU has a multi-producer
//!    single-consumer queue. When thread B frees a slot that was allocated on
//!    CPU A, it pushes to CPU A's remote queue. When CPU A's local list is empty,
//!    it drains its remote queue, recovering a whole batch of freed slots at once.
//!
//! 3. **Global free stack**: A Treiber stack used for initial slot distribution
//!    and as a fallback when both the local list and remote queue are empty,
//!    or, on free, full.
//!
//! This design means freed slots flow back to the CPU that allocated them.
//!
//! ## Sharing a pool between threads
//!
//! The types here are the pool for one thread at a time: `&mut self` stands for
//! an operation that nothing interferes with. What an operation decides between
//! two accesses to shared words is a function of its own
//! ([`pool::alloc_next`], [`pool::free_target`], [`rseq::section_retry`],
//! [`rseq::list_candidate`], [`treiber::push_step`], [`treiber::pop_step`],
//! [`mpsc::enqueue_step`], [`mpsc::drain_step`] and others), on plain values, and
//! a pool whose words are atomic runs the same decisions.
//!
//! [`stack_interleaving`], [`queue_interleaving`] and [`local_interleaving`] prove
//! what holds of the lists in any interleaving of such accesses, and
//! [`pool_interleaving`] that no slot of a pool is held twice. They also say in
//! which sense the lists are lock-free: no thread ever waits for another, and a
//! change has to be tried again only after another thread has completed one.
//! Steps take effect one after the other: memory is taken to be sequentially
//! consistent.
//!
//! Of the global stack they take that fewer than 2^32 changes of its head happen
//! in the middle of one change. A remote queue has one consumer at a time by a
//! flag. The heads of the local lists have no generation, so that a pop may
//! succeed with a stale link, if its slot has left the list and come back
//! meanwhile. The laws leave such steps out.

pub mod address;
pub mod chain;
pub mod cpulist;
pub mod fallback;
pub mod laws;
pub mod local_interleaving;
pub mod model;
pub mod mpsc;
pub mod padded;
pub mod pool;
pub mod pool_interleaving;
pub mod queue_interleaving;
pub mod registration;
pub mod rseq;
pub mod slot;
pub mod stack_interleaving;
pub mod storage;
pub mod treiber;

pub use address::{SendPtr, SlotPtr};
pub use pool::Pool;
pub use storage::{PoolConfig, Storage};
