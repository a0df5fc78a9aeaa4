//! An explicit model of the machine's physical memory, as seen through the
//! kernel's linear map: a sparse store of aligned 64-bit words, where a word
//! never written reads as zero (boot-time RAM contents are taken as zeroed).
//!
//! Every structure of this subsystem that lives *in* physical memory — the
//! intrusive free list of the frame allocator and the page tables of the
//! mapper — is read and written through this store, so their invariants are
//! stated over one common view.

use std::collections::HashMap;

use vstd::prelude::*;

verus! {

broadcast use vstd::std_specs::hash::group_hash_axioms;

/// The word of `m` at byte address `a`, taking absent entries as zero and
/// out-of-range addresses as zero.
pub open spec fn mem_word(m: Map<u64, u64>, a: int) -> u64 {
    if 0 <= a <= u64::MAX && m.contains_key(a as u64) {
        m[a as u64]
    } else {
        0
    }
}

/// Whether byte address `a` lies in the 4096-byte frame based at `base`.
pub open spec fn in_frame(base: u64, a: int) -> bool {
    base <= a < base + 4096
}

/// Kernel-visible physical memory: a sparse map from 8-byte-aligned byte
/// addresses to the 64-bit words stored there.
pub struct PhysMemory {
    words: HashMap<u64, u64>,
}

impl View for PhysMemory {
    type V = Map<u64, u64>;

    closed spec fn view(&self) -> Map<u64, u64> {
        self.words@
    }
}

impl PhysMemory {
    /// Fresh memory: every word reads as zero.
    pub fn new() -> (r: Self)
        ensures
            forall|a: int| mem_word(r@, a) == 0,
    {
        PhysMemory { words: HashMap::new() }
    }

    /// Reads the word at byte address `a`, which must be 8-byte aligned.
    pub fn read_word(&self, a: u64) -> (r: u64)
        requires
            a % 8 == 0,
        ensures
            r == mem_word(self@, a as int),
    {
        match self.words.get(&a) {
            Some(w) => *w,
            None => 0,
        }
    }

    /// Writes the word at byte address `a`, which must be 8-byte aligned.
    pub fn write_word(&mut self, a: u64, w: u64)
        requires
            a % 8 == 0,
        ensures
            final(self)@ == old(self)@.insert(a, w),
            mem_word(final(self)@, a as int) == w,
            forall|b: int| b != a ==> mem_word(final(self)@, b) == mem_word(old(self)@, b),
    {
        self.words.insert(a, w);
        proof {
            assert forall|b: int| b != a implies mem_word(self@, b) == mem_word(old(self)@, b) by {
                if 0 <= b <= u64::MAX {
                    assert(self@.contains_key(b as u64) == old(self)@.contains_key(b as u64));
                }
            }
        }
    }
}

} // verus!
