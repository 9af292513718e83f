//! Slot metadata for tracking which CPU a slot was allocated from.
//!
//! Each slot in the pool has a small metadata entry that records its "home" CPU.
//! When a slot is freed (possibly from a different thread/CPU), this metadata
//! tells us which CPU's MPSC queue to push to.

use vstd::prelude::*;

verus! {

/// Per-slot metadata. Stored in a separate compact array from the slot data.
///
/// Its view is the home CPU.
pub struct SlotMeta {
    /// The CPU index this slot was most recently allocated from.
    /// Used to route frees back to the correct MPSC queue.
    home_cpu: u16,
}

impl View for SlotMeta {
    type V = u16;

    closed spec fn view(&self) -> u16 {
        self.home_cpu
    }
}

impl SlotMeta {
    /// Metadata of a slot that was not allocated yet.
    pub fn new() -> (meta: Self)
        ensures
            meta@ == 0,
    {
        SlotMeta { home_cpu: 0 }
    }

    /// Set the home CPU for this slot (called on allocation).
    #[inline]
    pub fn set_home_cpu(&mut self, cpu: u16)
        ensures
            final(self)@ == cpu,
    {
        self.home_cpu = cpu;
    }

    /// Get the home CPU for this slot (called on free).
    #[inline]
    pub fn home_cpu(&self) -> (cpu: u16)
        ensures
            cpu == self@,
    {
        self.home_cpu
    }
}

} // verus!
