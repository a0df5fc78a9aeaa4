//! Constants and alignment helpers shared by the whole memory subsystem.

pub mod mapping;
pub mod paging;
pub mod phys;
pub mod physmem;
pub mod physptr;

use vstd::prelude::*;

verus! {

use vstd::arithmetic::div_mod::{lemma_fundamental_div_mod, lemma_mod_multiples_basic};
use vstd::arithmetic::power2::{lemma2_to64, lemma2_to64_rest, lemma_pow2_strictly_increases, lemma_pow2_unfold, pow2};

/// Size of one physical page frame, in bytes.
pub const PAGE_SIZE: u64 = 4096;

/// Highest supported physical address (exclusive): 1 TiB.
pub const MAX_PHYS_ADDR: u64 = 0x100_0000_0000;

/// First virtual address of the higher half; every kernel mapping lies at or
/// above it.
pub const HIGHER_HALF_ADDR: u64 = 0x8000_0000_0000_0000;

/// A power of two: 1, 2, 4, ...
pub open spec fn is_power_of_two(x: int) -> bool
    decreases x,
{
    if x <= 0 {
        false
    } else if x == 1 {
        true
    } else {
        x % 2 == 0 && is_power_of_two(x / 2)
    }
}

/// The exponent of a power of two.
proof fn lemma_pow2_exponent(a: u64) -> (k: nat)
    requires
        is_power_of_two(a as int),
    ensures
        a == pow2(k),
        k < 64,
    decreases a,
{
    lemma2_to64();
    lemma2_to64_rest();
    if a == 1 {
        let k: nat = 0;
        k
    } else {
        let k0 = lemma_pow2_exponent(a / 2);
        lemma_pow2_unfold(k0 + 1);
        assert(a == 2 * (a / 2));
        let k = k0 + 1;
        if k > 64 {
            lemma_pow2_strictly_increases(64, k);
        }
        k
    }
}

proof fn lemma_align_down_properties(addr: u64, align: u64)
    requires
        is_power_of_two(align as int),
    ensures
        (addr & !((align - 1) as u64)) % align == 0,
        addr & !((align - 1) as u64) <= addr,
        addr < (addr & !((align - 1) as u64)) + align,
{
    let a = align;
    let m = (a - 1) as u64;
    let k = lemma_pow2_exponent(a);
    assert(m == vstd::bits::low_bits_mask(k) as u64);
    vstd::bits::lemma_u64_low_bits_mask_is_mod(addr, k);
    assert((addr & !m) + (addr & m) == addr) by (bit_vector);
    lemma_fundamental_div_mod(addr as int, a as int);
    assert((addr & !m) == (addr / a) * a);
    lemma_mod_multiples_basic(addr as int / a as int, a as int);
}

/// Rounds `addr` up to the next multiple of `align`; `align` must be a power
/// of two.
pub fn align_up(addr: u64, align: u64) -> (r: u64)
    requires
        is_power_of_two(align as int),
        addr + align <= u64::MAX,
    ensures
        r % align == 0,
        addr <= r < addr + align,
{
    proof {
        lemma_align_down_properties((addr + align - 1) as u64, align);
    }
    (addr + align - 1) & !(align - 1)
}

/// Rounds `addr` down to the previous multiple of `align`; `align` must be a
/// power of two.
pub fn align_down(addr: u64, align: u64) -> (r: u64)
    requires
        is_power_of_two(align as int),
    ensures
        r % align == 0,
        r <= addr < r + align,
{
    proof {
        lemma_align_down_properties(addr, align);
    }
    addr & !(align - 1)
}

/// One usable physical memory range reported by the bootloader.
#[derive(Clone, Copy, Debug)]
pub struct MemoryEntry {
    pub ptr: crate::mem::physptr::PhysPtr<()>,
    pub size: u64,
}

} // verus!
