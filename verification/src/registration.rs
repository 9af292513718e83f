//! How a thread comes by its RSEQ area, and how it gives it back.
//!
//! A thread looks its area up on first use. It adopts the area that the C
//! library has registered for it, if there is one. Otherwise it sets up an area
//! of its own and asks the kernel to register it. Only an area of its own that
//! the kernel has registered is deregistered when the thread ends.

use crate::rseq::Rseq;
use crate::rseq::UNREGISTERED;
use vstd::prelude::*;

verus! {

/// What a thread knows of its RSEQ area.
#[derive(Clone, Copy)]
pub struct RseqThread {
    /// The address of the area, once there is one.
    pub area: Option<usize>,
    /// Whether this thread has registered the area with the kernel.
    pub registered: bool,
}

/// What a thread that needs its RSEQ area has to do.
#[derive(Clone, Copy)]
pub enum RseqLookup {
    /// Use the area at this address.
    Ready(usize),
    /// Do without: initialization has failed before.
    Unavailable,
    /// Initialize.
    MustInit,
}

/// How initialization goes on.
#[derive(Clone, Copy)]
pub enum InitStep {
    /// The area of the C library at this address is adopted: done.
    Adopted(usize),
    /// The kernel has to be asked to register the area at this address.
    Register(usize),
}

impl RseqThread {
    /// A thread that has not looked for its area.
    pub open spec fn initial() -> RseqThread {
        RseqThread { area: None, registered: false }
    }

    /// The thread after it has chosen its area.
    pub open spec fn after_init(libc_area: Option<usize>, own_area: usize) -> RseqThread {
        RseqThread {
            area: Some(
                match libc_area {
                    Some(addr) if addr != 0 => addr,
                    _ => own_area,
                },
            ),
            registered: false,
        }
    }

    /// The thread after the kernel has answered.
    pub open spec fn after_answer(self, accepted: bool) -> RseqThread {
        RseqThread { area: self.area, registered: accepted }
    }

    /// The area that the thread has to deregister when it ends.
    pub open spec fn to_release(self) -> Option<usize> {
        if self.registered {
            self.area
        } else {
            None
        }
    }

    /// A thread that has not looked for its area.
    pub fn new() -> (thread: RseqThread)
        ensures
            thread == RseqThread::initial(),
    {
        RseqThread { area: None, registered: false }
    }
}

/// The contents of an area of one's own before it is registered.
pub fn unregistered_area() -> (area: Rseq)
    ensures
        area == (Rseq { cpu_id_start: UNREGISTERED, cpu_id: UNREGISTERED, rseq_cs: 0, flags: 0 }),
{
    Rseq { cpu_id_start: UNREGISTERED, cpu_id: UNREGISTERED, rseq_cs: 0, flags: 0 }
}

/// Look up the area of a thread. `init_failed` tells whether initialization
/// has failed on any thread.
#[inline]
pub fn rseq(thread: &RseqThread, init_failed: bool) -> (lookup: RseqLookup)
    ensures
        lookup == (match thread.area {
            Some(addr) => RseqLookup::Ready(addr),
            None => if init_failed {
                RseqLookup::Unavailable
            } else {
                RseqLookup::MustInit
            },
        }),
{
    match thread.area {
        Some(addr) => RseqLookup::Ready(addr),
        None => if init_failed {
            RseqLookup::Unavailable
        } else {
            RseqLookup::MustInit
        },
    }
}

/// Choose the area of a thread: that of the C library, if it has one that is
/// not null, else the thread's own.
pub fn rseq_init(thread: &mut RseqThread, libc_area: Option<usize>, own_area: usize) -> (step:
    InitStep)
    ensures
        *final(thread) == RseqThread::after_init(libc_area, own_area),
        step == (match libc_area {
            Some(addr) if addr != 0 => InitStep::Adopted(addr),
            _ => InitStep::Register(own_area),
        }),
{
    thread.registered = false;
    match libc_area {
        Some(addr) if addr != 0 => {
            thread.area = Some(addr);
            InitStep::Adopted(addr)
        },
        _ => {
            thread.area = Some(own_area);
            InitStep::Register(own_area)
        },
    }
}

/// Take the kernel's answer to a registration. Returns the area to use; `None`
/// if initialization has failed.
pub fn rseq_registered(thread: &mut RseqThread, accepted: bool) -> (area: Option<usize>)
    ensures
        *final(thread) == old(thread).after_answer(accepted),
        area == (if accepted {
            old(thread).area
        } else {
            None
        }),
{
    thread.registered = accepted;
    if accepted {
        thread.area
    } else {
        None
    }
}

/// Give up the area of a thread that ends. Returns the area to deregister.
pub fn release(thread: &mut RseqThread) -> (area: Option<usize>)
    ensures
        area == old(thread).to_release(),
        *final(thread) == RseqThread::initial(),
{
    let area = if thread.registered {
        thread.area
    } else {
        None
    };
    thread.area = None;
    thread.registered = false;
    area
}

/// The address at `offset` bytes from the thread pointer. It wraps around.
pub fn thread_plus_offset(thread_pointer: usize, offset: isize) -> (addr: usize)
    ensures
        addr == (if thread_pointer + offset > usize::MAX {
            thread_pointer + offset - (usize::MAX + 1)
        } else if thread_pointer + offset < 0 {
            thread_pointer + offset + (usize::MAX + 1)
        } else {
            thread_pointer + offset
        }),
{
    thread_pointer.wrapping_add_signed(offset)
}

/// A thread deregisters its own area, once, and only if the kernel has
/// registered it; an area of the C library it leaves alone.
pub proof fn law_only_registered_areas_are_released(
    libc_area: Option<usize>,
    own_area: usize,
    accepted: bool,
)
    ensures
        RseqThread::after_init(libc_area, own_area).to_release() is None,
        libc_area is None || libc_area == Some(0usize) ==> RseqThread::after_init(libc_area, own_area).after_answer(
            accepted,
        ).to_release() == (if accepted {
            Some(own_area)
        } else {
            None
        }),
        RseqThread::initial().to_release() is None,
{
}

/// A thread uses the area of the C library, if that has one that is not null,
/// else its own. It has registered nothing yet.
pub proof fn law_area_of_the_c_library_comes_first(libc_area: Option<usize>, own_area: usize)
    ensures
        ({
            let thread = RseqThread::after_init(libc_area, own_area);
            &&& !thread.registered
            &&& thread.area is Some
            &&& libc_area is Some && libc_area != Some(0usize) ==> thread.area == libc_area
            &&& libc_area is None || libc_area == Some(0usize) ==> thread.area == Some(own_area)
        }),
{
}

/// The answer of the kernel is remembered, and changes nothing else. An area has
/// to be deregistered exactly if the kernel has accepted it.
pub proof fn law_answer_is_remembered(thread: RseqThread, accepted: bool)
    ensures
        thread.after_answer(accepted).area == thread.area,
        thread.after_answer(accepted).registered == accepted,
        thread.after_answer(true).to_release() == thread.area,
        thread.after_answer(false).to_release() is None,
        RseqThread::initial().area is None,
        !RseqThread::initial().registered,
{
}

} // verus!
