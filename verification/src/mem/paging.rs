//! The page frame unit.

use vstd::prelude::*;

use crate::mem::phys::lemma_slot_in_frame;
use crate::mem::physmem::{in_frame, mem_word, PhysMemory};
use crate::mem::physptr::PhysPtr;
use crate::mem::MAX_PHYS_ADDR;

verus! {

/// An opaque 4096-byte unit of physical storage; never constructed by
/// value, only referenced through a `PhysPtr<Page>`.
#[derive(Debug)]
pub struct Page {
    _opaque: (),
}

impl crate::mem::physptr::Pointee for Page {
    open spec fn spec_align() -> u64 {
        4096
    }
}

impl Page {
    /// Overwrites the whole frame at `frame` with zero bytes.
    pub fn fill_zero(mem: &mut PhysMemory, frame: PhysPtr<Page>)
        requires
            frame.addr_spec() % 4096 == 0,
            frame.addr_spec() < MAX_PHYS_ADDR,
        ensures
            forall|q: int|
                0 <= q < 512 ==> #[trigger] mem_word(final(mem)@, frame.addr_spec() + 8 * q) == 0,
            forall|a: int|
                !in_frame(frame.addr_spec(), a) ==> #[trigger] mem_word(final(mem)@, a)
                    == mem_word(old(mem)@, a),
    {
        let base = frame.addr();
        let mut q: u64 = 0;
        while q < 512
            invariant
                0 <= q <= 512,
                base == frame.addr_spec(),
                base % 4096 == 0,
                base < MAX_PHYS_ADDR,
                forall|x: int| 0 <= x < q ==> #[trigger] mem_word(mem@, base + 8 * x) == 0,
                forall|a: int|
                    !in_frame(base, a) ==> #[trigger] mem_word(mem@, a) == mem_word(old(mem)@, a),
            decreases 512 - q,
        {
            proof {
                lemma_slot_in_frame(base, q);
            }
            mem.write_word(base + 8 * q, 0);
            q = q + 1;
        }
    }
}

} // verus!
