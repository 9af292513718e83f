//! Where the slots of a pool stand in memory.

use core::marker::PhantomData;
use vstd::arithmetic::div_mod::lemma_div_multiples_vanish;
use vstd::arithmetic::div_mod::lemma_fundamental_div_mod;
use vstd::arithmetic::div_mod::lemma_fundamental_div_mod_converse;
use vstd::arithmetic::div_mod::lemma_mod_multiples_basic;
use vstd::arithmetic::div_mod::lemma_mod_self_0;
use vstd::arithmetic::mul::lemma_mul_inequality;
use vstd::prelude::*;

verus! {

/// The address of a slot of type `T`.
///
/// Whoever owns the memory turns it into a pointer.
pub struct SlotPtr<T> {
    pub addr: usize,
    pub _marker: PhantomData<T>,
}

impl<T> SlotPtr<T> {
    /// The slot at `addr`.
    pub fn at(addr: usize) -> (ptr: Self)
        ensures
            ptr.addr == addr,
    {
        SlotPtr { addr, _marker: PhantomData }
    }
}

impl<T> Clone for SlotPtr<T> {
    fn clone(&self) -> (ptr: Self)
        ensures
            ptr == *self,
    {
        SlotPtr { addr: self.addr, _marker: PhantomData }
    }
}

impl<T> Copy for SlotPtr<T> {

}

/// A slot pointer on its way to another thread.
pub struct SendPtr<T>(pub SlotPtr<T>);

impl<T> SendPtr<T> {
    pub fn new(ptr: SlotPtr<T>) -> (sent: Self)
        ensures
            sent.0 == ptr,
    {
        SendPtr(ptr)
    }

    pub fn into_inner(self) -> (ptr: SlotPtr<T>)
        ensures
            ptr == self.0,
    {
        self.0
    }
}

/// The distance between slots of `size` bytes with alignment `align`: they stand
/// side by side. Slots without size stand an alignment apart, so that their
/// pointers are aligned and tell them apart.
pub open spec fn slot_stride(size: nat, align: nat) -> nat {
    if size == 0 {
        align
    } else {
        size
    }
}

/// The distance between slots of type `T`.
pub open spec fn stride_of<T>() -> nat {
    slot_stride(vstd::layout::size_of::<T>(), vstd::layout::align_of::<T>())
}

/// The address of slot `index`, if slots start at `base`, `stride` apart.
pub open spec fn slot_addr(base: int, stride: nat, index: int) -> int {
    base + index * stride
}

/// The index of the slot that `addr` points to.
pub open spec fn slot_index(base: int, stride: nat, addr: int) -> int {
    (addr - base) / stride as int
}

/// `addr` points to the start of a slot, if slots start at `base`.
pub open spec fn on_slot_boundary(base: int, stride: nat, addr: int) -> bool {
    base <= addr && (addr - base) % stride as int == 0
}

/// Slots stand apart, by a multiple of their alignment.
pub proof fn lemma_stride<T>()
    ensures
        stride_of::<T>() > 0,
        vstd::layout::align_of::<T>() > 0,
        stride_of::<T>() % vstd::layout::align_of::<T>() == 0,
        vstd::layout::size_of::<T>() <= stride_of::<T>(),
{
    broadcast use vstd::layout::align_properties;
    broadcast use vstd::layout::align_nonzero;

    assert(vstd::layout::align_of::<T>() > 0);
    lemma_mod_self_0(vstd::layout::align_of::<T>() as int);
}

/// A slot does not end behind its pool.
pub proof fn lemma_slot_inside(base: int, stride: nat, slots: int, index: int)
    requires
        0 <= index < slots,
    ensures
        base <= slot_addr(base, stride, index),
        slot_addr(base, stride, index) + stride <= slot_addr(base, stride, slots),
{
    lemma_mul_inequality(0, index, stride as int);
    lemma_mul_inequality(index + 1, slots, stride as int);
    assert((index + 1) * stride == index * stride + stride) by (nonlinear_arith);
}

/// The index of a slot can be read off its address.
pub proof fn law_index_after_address(base: int, stride: nat, index: int)
    requires
        0 < stride,
        0 <= index,
    ensures
        slot_index(base, stride, slot_addr(base, stride, index)) == index,
        on_slot_boundary(base, stride, slot_addr(base, stride, index)),
{
    lemma_mul_inequality(0, index, stride as int);
    lemma_div_multiples_vanish(index, stride as int);
    lemma_mod_multiples_basic(index, stride as int);
    assert(stride * index == index * stride) by (nonlinear_arith);
}

/// The distance between slots of type `T`.
#[inline]
pub fn stride_of_slots<T>() -> (stride: usize)
    ensures
        stride == stride_of::<T>(),
        vstd::layout::size_of::<T>() > 0 ==> stride == vstd::layout::size_of::<T>(),
        vstd::layout::size_of::<T>() == 0 ==> stride == vstd::layout::align_of::<T>(),
{
    let size: usize = core::mem::size_of::<T>();
    if size == 0 {
        core::mem::align_of::<T>()
    } else {
        size
    }
}

/// The address of slot `index`, if slots start at `base`, `stride` apart.
#[inline]
pub fn addr_of_slot(base: usize, stride: usize, index: u32) -> (addr: usize)
    requires
        slot_addr(base as int, stride as nat, index as int) <= usize::MAX,
    ensures
        addr == slot_addr(base as int, stride as nat, index as int),
        addr == base + index * stride,
{
    proof {
        lemma_mul_inequality(0, index as int, stride as int);
    }
    base + index as usize * stride
}

/// The index of the slot at `addr`, if slots start at `base`, `stride` apart.
#[inline]
pub fn index_of_addr(base: usize, stride: usize, addr: usize) -> (index: usize)
    requires
        0 < stride,
        base <= addr,
    ensures
        index == slot_index(base as int, stride as nat, addr as int),
        base + index * stride <= addr < base + index * stride + stride,
{
    proof {
        lemma_fundamental_div_mod(addr - base, stride as int);
        assert(stride * ((addr - base) / stride as int) == ((addr - base) / stride as int) * stride)
            by (nonlinear_arith);
    }
    (addr - base) / stride
}

/// Size and alignment of the memory of `count` slots of type `T`. `None` if that
/// is more than can be allocated.
#[inline]
pub fn layout_of_slots<T>(count: u32) -> (layout: Option<(usize, usize)>)
    ensures
        layout matches Some(l) ==> l.0 == count * vstd::layout::size_of::<T>() && l.1
            == vstd::layout::align_of::<T>(),
        layout is Some <==> count * vstd::layout::size_of::<T>() <= isize::MAX,
{
    let size: usize = core::mem::size_of::<T>();
    let align: usize = core::mem::align_of::<T>();
    let total: Option<usize> = (count as usize).checked_mul(size);
    match total {
        Some(bytes) => if bytes <= isize::MAX as usize {
            Some((bytes, align))
        } else {
            None
        },
        None => None,
    }
}

/// Two slots share no byte, and have different addresses.
pub proof fn law_slots_do_not_overlap<T>(base: int, a: int, b: int)
    requires
        a < b,
    ensures
        slot_addr(base, stride_of::<T>(), a) + vstd::layout::size_of::<T>() <= slot_addr(
            base,
            stride_of::<T>(),
            b,
        ),
        slot_addr(base, stride_of::<T>(), a) < slot_addr(base, stride_of::<T>(), b),
{
    let stride = stride_of::<T>();
    lemma_stride::<T>();
    lemma_mul_inequality(a + 1, b, stride as int);
    assert((a + 1) * stride == a * stride + stride) by (nonlinear_arith);
}

/// Slots are aligned for their type, if their pool is.
pub proof fn law_slots_are_aligned<T>(base: int, index: int)
    requires
        base % vstd::layout::align_of::<T>() as int == 0,
    ensures
        slot_addr(base, stride_of::<T>(), index) % vstd::layout::align_of::<T>() as int == 0,
{
    let align = vstd::layout::align_of::<T>() as int;
    let stride = stride_of::<T>() as int;
    lemma_stride::<T>();
    let p = base / align;
    let q = stride / align;
    lemma_fundamental_div_mod(base, align);
    lemma_fundamental_div_mod(stride, align);
    assert(align * p + index * (align * q) == (p + index * q) * align) by (nonlinear_arith);
    lemma_mod_multiples_basic(p + index * q, align);
}

/// Slots stand side by side: slot `index` is `index` times the size of a slot
/// behind the first one. Slots without size stand an alignment apart.
pub proof fn law_slots_stand_side_by_side<T>(base: int, index: int)
    ensures
        vstd::layout::size_of::<T>() > 0 ==> slot_addr(base, stride_of::<T>(), index) == base
            + index * vstd::layout::size_of::<T>(),
        vstd::layout::size_of::<T>() == 0 ==> slot_addr(base, stride_of::<T>(), index) == base
            + index * vstd::layout::align_of::<T>(),
{
}

/// Slots lie in their memory: `slots` of them take as many bytes as they have
/// together.
pub proof fn law_slots_lie_in_their_memory<T>(base: int, slots: int, index: int)
    requires
        vstd::layout::size_of::<T>() > 0,
        0 <= index < slots,
    ensures
        base <= slot_addr(base, stride_of::<T>(), index),
        slot_addr(base, stride_of::<T>(), index) + vstd::layout::size_of::<T>() <= base + slots
            * vstd::layout::size_of::<T>(),
{
    let size = vstd::layout::size_of::<T>() as int;
    lemma_mul_inequality(0, index, size);
    lemma_mul_inequality(index + 1, slots, size);
    assert((index + 1) * size == index * size + size) by (nonlinear_arith);
}

/// Every byte of a slot belongs to that slot, and the first one is where it
/// starts.
pub proof fn law_every_byte_tells_its_slot(base: int, stride: nat, index: int, byte: int)
    requires
        0 <= byte < stride,
        0 <= index,
    ensures
        slot_index(base, stride, base + index * stride + byte) == index,
        on_slot_boundary(base, stride, base + index * stride + byte) <==> byte == 0,
{
    lemma_mul_inequality(0, index, stride as int);
    lemma_fundamental_div_mod_converse(index * stride + byte, stride as int, index, byte);
    assert(base + index * stride + byte - base == index * stride + byte);
}

} // verus!
