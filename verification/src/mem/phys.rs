//! The physical frame allocator: a singly linked free list written into the
//! free frames themselves. The first word of a free frame links to the next
//! free frame (or holds [`NIL_LINK`] at the end of the list); the second word
//! holds the frame's own physical address. A frame's bytes belong to the
//! list only while the frame is free, and are overwritten by the client once
//! allocated.

use vstd::prelude::*;

use crate::mem::mapping::OutOfMemory;
use crate::mem::paging::Page;
use crate::mem::physmem::{in_frame, mem_word, PhysMemory};
use crate::mem::physptr::PhysPtr;
use crate::mem::{MemoryEntry, MAX_PHYS_ADDR};

verus! {

/// Marks the end of the free list; never a valid frame address.
pub const NIL_LINK: u64 = 0xFFFF_FFFF_FFFF_FFFF;

/// A frame address this allocator can manage: page-aligned and below the
/// physical limit.
pub open spec fn frame_ok(f: u64) -> bool {
    f % 4096 == 0 && f < MAX_PHYS_ADDR
}

/// Page alignment gives word alignment.
pub proof fn lemma_frame_word_aligned(f: u64)
    requires
        f % 4096 == 0,
    ensures
        f % 8 == 0,
        f < 0xFFFF_FFFF_FFFF_FFF8 ==> (f + 8) % 8 == 0,
{
    assert(f % 8 == 0) by (bit_vector)
        requires
            f % 4096 == 0,
    ;
}

/// A word slot inside a frame stays inside the frame and keeps word
/// alignment.
pub proof fn lemma_slot_in_frame(base: u64, q: u64)
    requires
        base % 4096 == 0,
        base < MAX_PHYS_ADDR,
        q < 512,
    ensures
        (base + 8 * q) % 8 == 0,
        in_frame(base, base + 8 * q),
        base + 8 * q <= u64::MAX,
{
    assert(base % 8 == 0) by (bit_vector)
        requires
            base % 4096 == 0,
    ;
}

/// Two distinct page-aligned frames never overlap.
pub proof fn lemma_frames_disjoint(f: u64, g: u64)
    requires
        f % 4096 == 0,
        g % 4096 == 0,
        f != g,
    ensures
        forall|a: int| in_frame(f, a) ==> !in_frame(g, a),
{
    assert(f + 4096 <= g || g + 4096 <= f) by (bit_vector)
        requires
            f % 4096 == 0,
            g % 4096 == 0,
            f != g,
    ;
}

/// The free-list allocator over physical page frames.
pub struct FrameAllocator {
    head: Option<u64>,
    free: Ghost<Seq<u64>>,
}

impl FrameAllocator {
    /// The addresses of the currently free frames, first to be handed out
    /// first.
    pub closed spec fn free_seq(&self) -> Seq<u64> {
        self.free@
    }

    /// Well-formedness against the memory `m` that holds the list nodes:
    /// every free frame is a valid, distinct frame, the head names the first
    /// one, and the link words stored in the frames spell out exactly the
    /// ghost sequence.
    pub closed spec fn wf(&self, m: Map<u64, u64>) -> bool {
        let s = self.free_seq();
        &&& match self.head {
            None => s.len() == 0,
            Some(h) => s.len() > 0 && s[0] == h,
        }
        &&& forall|i: int| 0 <= i < s.len() ==> frame_ok(#[trigger] s[i])
        &&& forall|i: int|
            0 <= i < s.len() ==> mem_word(m, #[trigger] s[i] as int) == (if i + 1 < s.len() {
                s[i + 1]
            } else {
                NIL_LINK
            })
        &&& forall|i: int| 0 <= i < s.len() ==> mem_word(m, #[trigger] s[i] as int + 8) == s[i]
        &&& forall|i: int, j: int|
            0 <= i < j < s.len() ==> #[trigger] s[i] != #[trigger] s[j]
    }

    /// The free list never holds one frame twice; handing frames out from
    /// the front therefore never hands out one frame twice before it has
    /// been given back.
    pub proof fn lemma_no_double_allocation(&self, m: Map<u64, u64>)
        requires
            self.wf(m),
        ensures
            forall|i: int, j: int|
                0 <= i < j < self.free_seq().len() ==> #[trigger] self.free_seq()[i]
                    != #[trigger] self.free_seq()[j],
    {
    }


    /// Every frame on the free list is a valid, page-aligned frame.
    pub proof fn lemma_free_frames_ok(&self, m: Map<u64, u64>)
        requires
            self.wf(m),
        ensures
            forall|i: int| 0 <= i < self.free_seq().len() ==> frame_ok(#[trigger] self.free_seq()[i]),
    {
    }

    /// Well-formedness depends only on the words inside the free frames:
    /// whatever else changes in memory, the list stays intact.
    pub proof fn lemma_wf_preserved(&self, m1: Map<u64, u64>, m2: Map<u64, u64>)
        requires
            self.wf(m1),
            forall|i: int, a: int|
                0 <= i < self.free_seq().len() && in_frame(#[trigger] self.free_seq()[i], a)
                    ==> #[trigger] mem_word(m2, a) == mem_word(m1, a),
        ensures
            self.wf(m2),
    {
        let s = self.free_seq();
        assert forall|i: int| 0 <= i < s.len() implies mem_word(m2, #[trigger] s[i] as int) == (if i
            + 1 < s.len() {
            s[i + 1]
        } else {
            NIL_LINK
        }) by {
            assert(in_frame(s[i], s[i] as int));
            assert(mem_word(m2, s[i] as int) == mem_word(m1, s[i] as int));
        }
        assert forall|i: int| 0 <= i < s.len() implies mem_word(m2, #[trigger] s[i] as int + 8)
            == s[i] by {
            assert(in_frame(s[i], s[i] as int + 8));
            assert(mem_word(m2, s[i] as int + 8) == mem_word(m1, s[i] as int + 8));
        }
    }

    /// An allocator with nothing to hand out yet.
    pub fn new() -> (r: Self)
        ensures
            r.free_seq().len() == 0,
            forall|m: Map<u64, u64>| r.wf(m),
    {
        FrameAllocator { head: None, free: Ghost(Seq::empty()) }
    }

    /// Pops the frame at the head of the free list, or reports exhaustion.
    /// Only list words are read; memory is not changed.
    pub fn allocate(&mut self, mem: &PhysMemory) -> (r: Result<PhysPtr<Page>, OutOfMemory>)
        requires
            old(self).wf(mem@),
        ensures
            final(self).wf(mem@),
            old(self).free_seq().len() == 0 ==> r is Err && *final(self) == *old(self),
            old(self).free_seq().len() > 0 ==> (r matches Ok(p) && p.addr_spec() == old(
                self,
            ).free_seq()[0] && frame_ok(p.addr_spec()) && p.wf() && final(self).free_seq() == old(
                self,
            ).free_seq().skip(1)),
    {
        match self.head {
            None => {
                proof {
                    assert(old(self).free_seq().len() == 0);
                }
                Err(OutOfMemory)
            },
            Some(h) => {
                proof {
                    let s = old(self).free_seq();
                    assert(s[0] == h);
                    assert(frame_ok(s[0]));
                    lemma_frame_word_aligned(h);
                }
                let next = mem.read_word(h);
                let phys = mem.read_word(h + 8);
                self.head = if next == NIL_LINK {
                    None
                } else {
                    Some(next)
                };
                proof {
                    self.free = Ghost(old(self).free_seq().skip(1));
                    let s = old(self).free_seq();
                    let s2 = self.free_seq();
                    assert(phys == s[0]);
                    if s.len() > 1 {
                        assert(next == s[1]);
                        assert(frame_ok(s[1]));
                        assert(s[1] != NIL_LINK);
                        assert(s2[0] == s[1]);
                    }
                    assert forall|i: int| 0 <= i < s2.len() implies frame_ok(
                        #[trigger] s2[i],
                    ) by {
                        assert(s2[i] == s[i + 1]);
                    }
                    assert forall|i: int| 0 <= i < s2.len() implies mem_word(
                        mem@,
                        #[trigger] s2[i] as int,
                    ) == (if i + 1 < s2.len() {
                        s2[i + 1]
                    } else {
                        NIL_LINK
                    }) by {
                        assert(s2[i] == s[i + 1]);
                        assert(mem_word(mem@, s[i + 1] as int) == (if i + 2 < s.len() {
                            s[i + 2]
                        } else {
                            NIL_LINK
                        }));
                    }
                    assert forall|i: int| 0 <= i < s2.len() implies mem_word(
                        mem@,
                        #[trigger] s2[i] as int + 8,
                    ) == s2[i] by {
                        assert(s2[i] == s[i + 1]);
                    }
                    assert forall|i: int, j: int| 0 <= i < j < s2.len() implies #[trigger] s2[i]
                        != #[trigger] s2[j] by {
                        assert(s2[i] == s[i + 1] && s2[j] == s[j + 1]);
                    }
                }
                Ok(PhysPtr::new(phys))
            },
        }
    }

    /// Pops a frame and overwrites all of it with zero words before handing
    /// it out.
    pub fn alloc_zeroed(&mut self, mem: &mut PhysMemory) -> (r: Result<PhysPtr<Page>, OutOfMemory>)
        requires
            old(self).wf(old(mem)@),
        ensures
            final(self).wf(final(mem)@),
            old(self).free_seq().len() == 0 ==> r is Err && *final(self) == *old(self)
                && *final(mem) == *old(mem),
            old(self).free_seq().len() > 0 ==> (r matches Ok(p) && p.addr_spec() == old(
                self,
            ).free_seq()[0] && frame_ok(p.addr_spec()) && p.wf() && final(self).free_seq() == old(
                self,
            ).free_seq().skip(1) && (forall|q: int|
                0 <= q < 512 ==> #[trigger] mem_word(final(mem)@, p.addr_spec() + 8 * q) == 0) && (
            forall|a: int|
                !in_frame(p.addr_spec(), a) ==> #[trigger] mem_word(final(mem)@, a) == mem_word(
                    old(mem)@,
                    a,
                ))),
    {
        let page = self.allocate(mem)?;
        let base = page.addr();
        let ghost m_after_alloc = mem@;
        let mut q: u64 = 0;
        while q < 512
            invariant
                0 <= q <= 512,
                base % 4096 == 0,
                base < MAX_PHYS_ADDR,
                forall|x: int| 0 <= x < q ==> #[trigger] mem_word(mem@, base + 8 * x) == 0,
                forall|a: int|
                    !in_frame(base, a) ==> #[trigger] mem_word(mem@, a) == mem_word(
                        m_after_alloc,
                        a,
                    ),
            decreases 512 - q,
        {
            proof {
                lemma_slot_in_frame(base, q);
            }
            mem.write_word(base + 8 * q, 0);
            q = q + 1;
        }
        proof {
            let olds = old(self).free_seq();
            let s2 = self.free_seq();
            assert forall|i: int, a: int|
                0 <= i < s2.len() && in_frame(#[trigger] s2[i], a) implies #[trigger] mem_word(
                mem@,
                a,
            ) == mem_word(m_after_alloc, a) by {
                assert(s2[i] == olds[i + 1]);
                assert(olds[i + 1] != olds[0]);
                lemma_frames_disjoint(base, s2[i]);
            }
            self.lemma_wf_preserved(m_after_alloc, mem@);
        }
        Ok(page)
    }

    /// Pushes `page` back to the front of the free list, writing the list
    /// node into the frame itself; the next allocation hands exactly this
    /// frame out again. The caller guarantees the frame is no longer used
    /// anywhere: that is the unchecked contract of freeing.
    pub fn dealloc(&mut self, mem: &mut PhysMemory, page: PhysPtr<Page>)
        requires
            old(self).wf(old(mem)@),
            frame_ok(page.addr_spec()),
            forall|i: int|
                0 <= i < old(self).free_seq().len() ==> #[trigger] old(self).free_seq()[i]
                    != page.addr_spec(),
        ensures
            final(self).wf(final(mem)@),
            final(self).free_seq() == seq![page.addr_spec()] + old(self).free_seq(),
            forall|a: int|
                !in_frame(page.addr_spec(), a) ==> #[trigger] mem_word(final(mem)@, a) == mem_word(
                    old(mem)@,
                    a,
                ),
    {
        let f = page.addr();
        proof {
            lemma_frame_word_aligned(f);
            assert(in_frame(f, f as int));
            assert(in_frame(f, f as int + 8));
        }
        let link = match self.head {
            None => NIL_LINK,
            Some(h) => h,
        };
        mem.write_word(f, link);
        mem.write_word(f + 8, f);
        self.head = Some(f);
        proof {
            let olds = old(self).free_seq();
            self.free = Ghost(seq![f] + olds);
            let s = self.free_seq();
            assert(s[0] == f);
            assert forall|i: int| 0 <= i < s.len() implies frame_ok(#[trigger] s[i]) by {
                if i > 0 {
                    assert(s[i] == olds[i - 1]);
                }
            }
            if olds.len() > 0 {
                assert(frame_ok(olds[0]));
                assert(olds[0] != NIL_LINK);
            }
            assert forall|i: int| 0 <= i < s.len() implies mem_word(mem@, #[trigger] s[i] as int)
                == (if i + 1 < s.len() {
                s[i + 1]
            } else {
                NIL_LINK
            }) by {
                if i == 0 {
                } else {
                    assert(s[i] == olds[i - 1]);
                    assert(olds[i - 1] != f);
                    lemma_frames_disjoint(f, s[i]);
                    assert(!in_frame(f, s[i] as int));
                    assert(mem_word(mem@, s[i] as int) == mem_word(old(mem)@, s[i] as int));
                }
            }
            assert forall|i: int| 0 <= i < s.len() implies mem_word(
                mem@,
                #[trigger] s[i] as int + 8,
            ) == s[i] by {
                if i == 0 {
                } else {
                    assert(s[i] == olds[i - 1]);
                    assert(olds[i - 1] != f);
                    lemma_frames_disjoint(f, s[i]);
                    assert(!in_frame(f, s[i] as int + 8));
                    assert(mem_word(mem@, s[i] as int + 8) == mem_word(old(mem)@, s[i] as int + 8));
                }
            }
            assert forall|i: int, j: int| 0 <= i < j < s.len() implies #[trigger] s[i]
                != #[trigger] s[j] by {
                if i > 0 {
                    assert(s[i] == olds[i - 1] && s[j] == olds[j - 1]);
                } else {
                    assert(s[j] == olds[j - 1]);
                    assert(olds[j - 1] != f);
                }
            }
        }
    }
}

/// A usable range the allocator can swallow: page-aligned and in bounds.
pub open spec fn entry_ok(e: MemoryEntry) -> bool {
    &&& e.ptr.addr_spec() % 4096 == 0
    &&& e.size % 4096 == 0
    &&& e.ptr.addr_spec() + e.size <= MAX_PHYS_ADDR
}

/// Two ranges of the boot map never overlap.
pub open spec fn entries_disjoint_ranges(s: Seq<MemoryEntry>) -> bool {
    forall|k1: int, k2: int|
        0 <= k1 < k2 < s.len() ==> (#[trigger] s[k1]).ptr.addr_spec() + s[k1].size
            <= (#[trigger] s[k2]).ptr.addr_spec() || s[k2].ptr.addr_spec() + s[k2].size
            <= s[k1].ptr.addr_spec()
}

/// How many page frames a sequence of usable ranges holds.
pub open spec fn total_range_frames(s: Seq<MemoryEntry>) -> int
    decreases s.len(),
{
    if s.len() == 0 {
        0
    } else {
        total_range_frames(s.drop_last()) + s.last().size / 4096
    }
}

/// Whether frame `f` lies in one of the first `k` ranges, or in range `k`
/// below frame index `q`.
pub open spec fn in_prefix(s: Seq<MemoryEntry>, k: int, q: int, f: u64) -> bool {
    ||| exists|x: int|
        0 <= x < k && (#[trigger] s[x]).ptr.addr_spec() <= f < s[x].ptr.addr_spec() + s[x].size
    ||| (0 <= k < s.len() && s[k].ptr.addr_spec() <= f < s[k].ptr.addr_spec() + 4096 * q)
}

impl FrameAllocator {
    /// Builds the free list from the boot-provided usable ranges by pushing
    /// every contained frame, exactly as the kernel does once at first use.
    #[verifier::loop_isolation(false)]
    pub fn from_usable(mem: &mut PhysMemory, usable: &Vec<MemoryEntry>) -> (r: Self)
        requires
            forall|k: int| 0 <= k < usable@.len() ==> entry_ok(#[trigger] usable@[k]),
            entries_disjoint_ranges(usable@),
        ensures
            r.wf(final(mem)@),
            r.free_seq().len() == total_range_frames(usable@),
            forall|i: int|
                0 <= i < r.free_seq().len() ==> in_prefix(
                    usable@,
                    usable@.len() as int,
                    0,
                    #[trigger] r.free_seq()[i],
                ),
    {
        let mut r = FrameAllocator::new();
        let mut k: usize = 0;
        while k < usable.len()
            invariant
                0 <= k <= usable@.len(),
                r.wf(mem@),
                r.free_seq().len() == total_range_frames(usable@.take(k as int)),
                forall|i: int|
                    0 <= i < r.free_seq().len() ==> in_prefix(
                        usable@,
                        k as int,
                        0,
                        #[trigger] r.free_seq()[i],
                    ),
            decreases usable@.len() - k,
        {
            let e = usable[k];
            let base = e.ptr.addr();
            let frames = e.size / 4096;
            let mut q: u64 = 0;
            while q < frames
                invariant
                    0 <= k < usable@.len(),
                    e == usable@[k as int],
                    base == e.ptr.addr_spec(),
                    frames == e.size / 4096,
                    0 <= q <= frames,
                    r.wf(mem@),
                    r.free_seq().len() == total_range_frames(usable@.take(k as int)) + q,
                    forall|i: int|
                        0 <= i < r.free_seq().len() ==> in_prefix(
                            usable@,
                            k as int,
                            q as int,
                            #[trigger] r.free_seq()[i],
                        ),
                decreases frames - q,
            {
                proof {
                    vstd::arithmetic::div_mod::lemma_fundamental_div_mod(e.size as int, 4096);
                    assert(4096 * (e.size as int / 4096) == e.size);
                    assert(4096 * q + 4096 <= e.size) by (nonlinear_arith)
                        requires
                            0 <= q < frames,
                            frames == e.size as int / 4096,
                            4096 * (e.size as int / 4096) == e.size,
                    ;
                }
                proof {
                    assert(e.size / 4096 <= e.size);
                }
                let f = PhysPtr::<Page>::new(base + 4096 * q);
                let ghost faddr = f.addr_spec();
                proof {
                    assert(faddr % 4096 == 0) by (bit_vector)
                        requires
                            faddr == base + 4096 * q,
                            base % 4096 == 0,
                            q < 0x1_0000_0000_0000u64,
                    ;
                    assert forall|i: int| 0 <= i < r.free_seq().len() implies #[trigger] r.free_seq()[i]
                        != f.addr_spec() by {
                        assert(in_prefix(usable@, k as int, q as int, r.free_seq()[i]));
                    }
                }
                let ghost pre_free = r.free_seq();
                r.dealloc(mem, f);
                proof {
                    assert forall|i: int| 0 <= i < r.free_seq().len() implies in_prefix(
                        usable@,
                        k as int,
                        q as int + 1,
                        #[trigger] r.free_seq()[i],
                    ) by {
                        if i > 0 {
                            assert(r.free_seq()[i] == pre_free[i - 1]);
                            assert(in_prefix(usable@, k as int, q as int, pre_free[i - 1]));
                        } else {
                            assert(r.free_seq()[0] == faddr);
                        }
                    }
                }
                q = q + 1;
            }
            proof {
                assert(usable@.take(k as int + 1).drop_last() =~= usable@.take(k as int));
                assert forall|i: int| 0 <= i < r.free_seq().len() implies in_prefix(
                    usable@,
                    k as int + 1,
                    0,
                    #[trigger] r.free_seq()[i],
                ) by {
                    let f = r.free_seq()[i];
                    assert(in_prefix(usable@, k as int, frames as int, f));
                    if !(exists|x: int|
                        0 <= x < k as int && (#[trigger] usable@[x]).ptr.addr_spec() <= f
                            < usable@[x].ptr.addr_spec() + usable@[x].size) {
                        vstd::arithmetic::div_mod::lemma_fundamental_div_mod(e.size as int, 4096);
                        assert(usable@[k as int].ptr.addr_spec() <= f < usable@[k as int].ptr.addr_spec()
                            + usable@[k as int].size);
                    }
                }
            }
            k = k + 1;
        }
        proof {
            assert(usable@.take(usable@.len() as int) =~= usable@);
        }
        r
    }
}

} // verus!
