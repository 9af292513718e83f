//! How a pool is configured.

use core::marker::PhantomData;
use vstd::prelude::*;

verus! {

/// Describes the storage configuration for a pool.
///
/// The capacities are stated as mathematical numbers: a configuration may ask
/// for more than a `u32` can hold, and then has no capacity to return.
pub trait Storage: 'static + Send + Sync {
    /// The element type stored in each slot.
    type T: 'static;

    /// What `slot_count` returns.
    spec fn slots(&self) -> u32;

    /// What `batch_size` returns.
    spec fn batch(&self) -> u32;

    /// What `local_cache_capacity` returns.
    spec fn local_limit(&self) -> int;

    /// What `remote_cache_capacity` returns.
    spec fn remote_limit(&self) -> int;

    /// Total number of pre-allocated slots.
    fn slot_count(&self) -> (count: u32)
        ensures
            count == self.slots(),
    ;

    /// How many slots to transfer in a batch when refilling from
    /// remote queues or the global stack. Also caps how many items
    /// are drained from the remote queue per alloc slow path.
    fn batch_size(&self) -> (size: u32)
        ensures
            size == self.batch(),
    ;

    /// Max items in a per-CPU local free list before overflow to remote/global.
    ///
    /// See [`default_local_capacity`] for the usual choice.
    fn local_cache_capacity(&self) -> (capacity: u32)
        requires
            self.local_limit() <= u32::MAX,
        ensures
            capacity == self.local_limit(),
    ;

    /// Max items in a per-CPU remote MPSC queue before overflow to global.
    ///
    /// See [`default_remote_capacity`] for the usual choice.
    fn remote_cache_capacity(&self) -> (capacity: u32)
        requires
            self.remote_limit() <= u32::MAX,
        ensures
            capacity == self.remote_limit(),
    ;
}

/// The usual capacity of a local free list: two batches.
pub fn default_local_capacity(batch_size: u32) -> (capacity: u32)
    requires
        batch_size * 2 <= u32::MAX,
    ensures
        capacity == batch_size * 2,
{
    batch_size * 2
}

/// The usual capacity of a remote queue: four batches.
pub fn default_remote_capacity(batch_size: u32) -> (capacity: u32)
    requires
        batch_size * 4 <= u32::MAX,
    ensures
        capacity == batch_size * 4,
{
    batch_size * 4
}

/// Compile-time-known fixed-type pool configuration.
///
/// Use this when the element type and size are known at compile time
/// (the common case for packet pools).
pub struct PoolConfig<T: 'static> {
    pub slot_count: u32,
    pub batch_size: u32,
    pub _marker: PhantomData<T>,
}

impl<T: 'static + Send + Sync> PoolConfig<T> {
    /// A configuration of `slot_count` slots, with batches of at least one.
    pub fn new(slot_count: u32, batch_size: u32) -> (config: Self)
        ensures
            config.slot_count == slot_count,
            config.batch_size == (if batch_size == 0 {
                1
            } else {
                batch_size
            }),
            config.slots() == slot_count,
            batch_size >= 1 ==> config.batch() == batch_size,
            batch_size == 0 ==> config.batch() == 1,
            config.local_limit() == 2 * config.batch_size,
            config.remote_limit() == 4 * config.batch_size,
    {
        PoolConfig {
            slot_count,
            batch_size: if batch_size == 0 {
                1
            } else {
                batch_size
            },
            _marker: PhantomData,
        }
    }
}

impl<T: 'static + Send + Sync> Storage for PoolConfig<T> {
    type T = T;

    open spec fn slots(&self) -> u32 {
        self.slot_count
    }

    open spec fn batch(&self) -> u32 {
        self.batch_size
    }

    open spec fn local_limit(&self) -> int {
        self.batch_size * 2
    }

    open spec fn remote_limit(&self) -> int {
        self.batch_size * 4
    }

    #[inline]
    fn slot_count(&self) -> (count: u32)
        ensures
            count == self.slot_count,
    {
        self.slot_count
    }

    #[inline]
    fn batch_size(&self) -> (size: u32)
        ensures
            size == self.batch_size,
    {
        self.batch_size
    }

    #[inline]
    fn local_cache_capacity(&self) -> (capacity: u32)
        ensures
            capacity == self.batch_size * 2,
    {
        default_local_capacity(self.batch_size)
    }

    #[inline]
    fn remote_cache_capacity(&self) -> (capacity: u32)
        ensures
            capacity == self.batch_size * 4,
    {
        default_remote_capacity(self.batch_size)
    }
}

/// A configuration says what its fields say: that many slots, batches of that
/// many slots, local lists of two batches and remote queues of four.
pub proof fn law_config_says_what_its_fields_say<T: 'static + Send + Sync>(config: PoolConfig<T>)
    ensures
        config.slots() == config.slot_count,
        config.batch() == config.batch_size,
        config.local_limit() == config.batch_size + config.batch_size,
        config.remote_limit() == config.local_limit() + config.local_limit(),
{
}

/// Two configurations of the same number of slots and the same batches are the
/// same to a pool. More slots are more slots, and larger batches make larger
/// caches.
pub proof fn law_configs_are_told_apart<T: 'static + Send + Sync>(
    a: PoolConfig<T>,
    b: PoolConfig<T>,
)
    ensures
        a.slots() < b.slots() <==> a.slot_count < b.slot_count,
        a.batch() < b.batch() <==> a.batch_size < b.batch_size,
        b.local_limit() - a.local_limit() == 2 * (b.batch_size - a.batch_size),
        b.remote_limit() - a.remote_limit() == 4 * (b.batch_size - a.batch_size),
{
}

} // verus!
