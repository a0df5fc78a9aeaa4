//! Typed handles on physical addresses, translated to kernel-visible virtual
//! addresses through the fixed linear-map (HHDM) offset.

use vstd::prelude::*;

use crate::mem::{HIGHER_HALF_ADDR, MAX_PHYS_ADDR};

verus! {

/// What a physical address may point at. Verus cannot read a real type's
/// layout, so each pointee type states its own alignment here; the handle
/// validates every address it is built from against it.
pub trait Pointee {
    /// The pointee's alignment in bytes.
    spec fn spec_align() -> u64;
}

impl Pointee for () {
    open spec fn spec_align() -> u64 {
        1
    }
}

impl Pointee for u64 {
    open spec fn spec_align() -> u64 {
        8
    }
}

/// A validated physical byte address, typed by the kind of value it points
/// at.
///
/// Invariant: the address is below [`MAX_PHYS_ADDR`] and aligned for the
/// pointee; construction validates both, and so does every derived handle.
#[derive(Debug)]
pub struct PhysPtr<T> {
    addr: u64,
    _phantom: core::marker::PhantomData<T>,
}

impl<T> Clone for PhysPtr<T> {
    fn clone(&self) -> (r: Self)
        ensures
            r == *self,
    {
        *self
    }
}

impl<T> Copy for PhysPtr<T> {

}

/// The [`PhysPtr`] with the given numeric address, at spec level.
pub closed spec fn spec_phys_ptr<T>(addr: u64) -> PhysPtr<T> {
    PhysPtr { addr, _phantom: core::marker::PhantomData }
}

/// What [`spec_phys_ptr`] builds: the handle whose address is its argument.
pub broadcast proof fn lemma_spec_phys_ptr_addr<T>(addr: u64)
    ensures
        (#[trigger] spec_phys_ptr::<T>(addr)).addr_spec() == addr,
{
}

/// Two handles on the same pointee type with one address are one value.
pub proof fn lemma_phys_ptr_ext<T>(p: PhysPtr<T>, q: PhysPtr<T>)
    requires
        p.addr_spec() == q.addr_spec(),
    ensures
        p == q,
{
}

impl<T> PhysPtr<T> {
    /// The numeric physical address, at spec level.
    pub closed spec fn addr_spec(&self) -> u64 {
        self.addr
    }

    /// The numeric physical address.
    pub fn addr(&self) -> (r: u64)
        ensures
            r == self.addr_spec(),
    {
        self.addr
    }
}

impl<T: Pointee> PhysPtr<T> {
    /// Whether the handle satisfies its invariant: in range and aligned for
    /// the pointee.
    pub open spec fn wf(&self) -> bool {
        &&& self.addr_spec() < MAX_PHYS_ADDR
        &&& self.addr_spec() % T::spec_align() == 0
    }

    /// Makes a handle on `addr`. The bound and the pointee's alignment are
    /// preconditions, so a verified caller can never hold an out-of-range
    /// or misaligned address.
    pub fn new(addr: u64) -> (r: Self)
        requires
            addr < MAX_PHYS_ADDR,
            addr % T::spec_align() == 0,
        ensures
            r == spec_phys_ptr::<T>(addr),
            r.addr_spec() == addr,
            r.wf(),
    {
        PhysPtr { addr, _phantom: core::marker::PhantomData }
    }

    /// Reinterprets the same numeric address as pointing at a `U`,
    /// re-validated against `U`'s alignment: the caller must show the
    /// address fits the new pointee.
    pub fn cast<U: Pointee>(&self) -> (r: PhysPtr<U>)
        requires
            self.wf(),
            self.addr_spec() % U::spec_align() == 0,
        ensures
            r == spec_phys_ptr::<U>(self.addr_spec()),
            r.addr_spec() == self.addr_spec(),
            r.wf(),
    {
        PhysPtr { addr: self.addr, _phantom: core::marker::PhantomData }
    }

    /// The kernel-visible virtual address of the pointee: the physical
    /// address plus the linear-map offset.
    pub fn as_ptr(&self, hhdm_offset: u64) -> (r: u64)
        requires
            self.wf(),
            hhdm_offset + self.addr_spec() <= u64::MAX,
        ensures
            r == hhdm_offset + self.addr_spec(),
    {
        hhdm_offset + self.addr
    }

    /// The same translation for a mutable access; the address is identical.
    pub fn as_mut_ptr(&self, hhdm_offset: u64) -> (r: u64)
        requires
            self.wf(),
            hhdm_offset + self.addr_spec() <= u64::MAX,
        ensures
            r == hhdm_offset + self.addr_spec(),
    {
        self.as_ptr(hhdm_offset)
    }

    /// The translated address, known non-null because the linear map sits in
    /// the higher half.
    pub fn as_nonnull(&self, hhdm_offset: u64) -> (r: u64)
        requires
            self.wf(),
            hhdm_offset >= HIGHER_HALF_ADDR,
            hhdm_offset + self.addr_spec() <= u64::MAX,
        ensures
            r == hhdm_offset + self.addr_spec(),
            r != 0,
    {
        self.as_ptr(hhdm_offset)
    }

    /// A handle `count` typed strides further on, re-validated as a fresh
    /// construction.
    pub fn add(&self, count: u64) -> (r: Self)
        requires
            self.wf(),
            count * vstd::layout::size_of::<T>() <= u64::MAX,
            self.addr_spec() + count * vstd::layout::size_of::<T>() < MAX_PHYS_ADDR,
            ((self.addr_spec() + count * vstd::layout::size_of::<T>()) as u64) % T::spec_align() == 0,
        ensures
            r == spec_phys_ptr::<T>(
                (self.addr_spec() + count * vstd::layout::size_of::<T>()) as u64,
            ),
            r.addr_spec() == self.addr_spec() + count * vstd::layout::size_of::<T>(),
            r.wf(),
    {
        PhysPtr {
            addr: self.addr + count * (core::mem::size_of::<T>() as u64),
            _phantom: core::marker::PhantomData,
        }
    }

    /// A handle `count` bytes further on, re-validated as a fresh
    /// construction.
    pub fn byte_add(&self, count: u64) -> (r: Self)
        requires
            self.wf(),
            self.addr_spec() + count < MAX_PHYS_ADDR,
            ((self.addr_spec() + count) as u64) % T::spec_align() == 0,
        ensures
            r == spec_phys_ptr::<T>((self.addr_spec() + count) as u64),
            r.addr_spec() == self.addr_spec() + count,
            r.wf(),
    {
        PhysPtr { addr: self.addr + count, _phantom: core::marker::PhantomData }
    }
}

/// Casting to another pointee type and back never changes the numeric
/// address: both casts leave it untouched.
pub proof fn lemma_cast_identity<T, U>(p: PhysPtr<T>)
    ensures
        spec_phys_ptr::<T>(spec_phys_ptr::<U>(p.addr_spec()).addr_spec()).addr_spec()
            == p.addr_spec(),
{
}

} // verus!
