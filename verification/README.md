# seqpool

A pre-allocated object pool for cross-thread allocation. The library is verified
with Verus; the program text around it is not.

- `src/` is the library. `Pool` keeps its free slots on one local list and one
  remote queue per CPU and on one global stack. `model.rs` says what a pool is
  as a mathematical object, the contracts say what each operation does to it,
  and `laws.rs` what holds across operations. The `*_interleaving.rs`
  modules prove what holds of the lists, and of a whole pool, when threads
  interleave.
- `app/` is the lock-free pool: memory, atomic words, and the kernel's RSEQ
  areas. Its stack, its queues and the choice of CPU and cache run on the
  library's decisions.
- `tests/` runs the library on concrete values.
