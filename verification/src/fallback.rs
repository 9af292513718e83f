//! CPU indices for threads that the kernel does not tell where they run.

use vstd::prelude::*;

verus! {

/// How many CPUs are taken to exist where their number is not known.
pub const DEFAULT_CPUS: usize = 4;

/// The number of CPU indices, given the parallelism that the system reports.
pub open spec fn count(parallelism: Option<usize>) -> usize {
    match parallelism {
        Some(n) => n,
        None => DEFAULT_CPUS,
    }
}

/// The CPU index that a thread goes by: threads take tickets, counted from 0,
/// and are dealt out over the CPUs in turn.
#[inline]
pub fn cpu_id(ticket: usize, cpus: usize) -> (id: usize)
    requires
        cpus > 0,
    ensures
        id == ticket as int % cpus as int,
        id < cpus,
{
    ticket % cpus
}

/// Number of CPU indices, given the parallelism that the system reports, if it
/// reports any.
pub fn possible_cpus(parallelism: Option<usize>) -> (cpus: usize)
    ensures
        cpus == count(parallelism),
{
    match parallelism {
        Some(n) => n,
        None => DEFAULT_CPUS,
    }
}

/// As many CPUs as the system reports, and four if it reports none.
pub proof fn law_reported_parallelism_counts(n: usize)
    ensures
        count(Some(n)) == n,
        count(None) == 4,
{
}

} // verus!
