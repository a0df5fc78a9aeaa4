//! Kernel stacks: a read-write stack range fenced by one guard page on each
//! side, so that an overflow or underflow faults instead of corrupting the
//! neighbours.

use vstd::prelude::*;

use crate::mem::mapping::x86_64::{
    covered, in_window, leaf_at, lemma_pages_distinct, page_va, query_of, same_page,
};
use crate::mem::mapping::{KernelMapper, Mapper, MappingError, MappingKind};
use crate::mem::phys::FrameAllocator;
use crate::mem::physmem::PhysMemory;
use crate::mem::{HIGHER_HALF_ADDR, PAGE_SIZE};

verus! {

/// Usable bytes of one kernel stack.
pub const STACK_SIZE: u64 = 256 * 1024;

/// One mapped kernel stack, identified by the base of its low guard page.
#[derive(Debug, Clone, Copy)]
pub struct Stack {
    vaddr: u64,
}

/// A subrange at a page offset inside a window stays inside a window of its
/// own.
proof fn lemma_window_shift(ptr: u64, off: u64, size: u64)
    requires
        in_window(ptr, (off + size) as u64),
        off + size <= 0x1_0000_0000_0000,
        ptr + off <= u64::MAX,
    ensures
        in_window((ptr + off) as u64, size),
{
    let p2 = (ptr + off) as u64;
    assert(p2 % 0x1_0000_0000_0000 <= ptr % 0x1_0000_0000_0000 + off) by (bit_vector)
        requires
            p2 == ptr + off,
            off <= 0x1_0000_0000_0000,
    ;
}

impl Stack {
    /// The base virtual address of the low guard page.
    pub closed spec fn vaddr_spec(&self) -> u64 {
        self.vaddr
    }

    /// A stack whose guard pages and range fit below the address-space top.
    pub open spec fn wf(&self) -> bool {
        &&& self.vaddr_spec() >= HIGHER_HALF_ADDR
        &&& self.vaddr_spec() % PAGE_SIZE == 0
        &&& self.vaddr_spec() + STACK_SIZE + 2 * PAGE_SIZE <= u64::MAX
    }

    /// Maps a new stack at `vaddr`: one guard page, `STACK_SIZE` bytes of
    /// fresh read-write pages, and one more guard page. On failure the
    /// parts mapped by the earlier steps stay mapped; the caller treats the
    /// error as fatal.
    #[verifier::rlimit(60)]
    pub fn new(
        mapper: &mut KernelMapper,
        mem: &mut PhysMemory,
        alloc: &mut FrameAllocator,
        vaddr: u64,
    ) -> (r: Result<Stack, MappingError>)
        requires
            old(mapper).wf(old(mem)@, *old(alloc)),
            vaddr >= HIGHER_HALF_ADDR,
            vaddr % PAGE_SIZE == 0,
            vaddr + STACK_SIZE + 2 * PAGE_SIZE <= 0x1_0000_0000_0000_0000 - 1,
            in_window(vaddr, (STACK_SIZE + 2 * PAGE_SIZE) as u64),
        ensures
            final(mapper).wf(final(mem)@, *final(alloc)),
            *final(mapper) == *old(mapper),
            r matches Ok(s) ==> s.vaddr_spec() == vaddr && s.wf() && query_of(
                final(mem)@,
                old(mapper).root_spec(),
                vaddr,
            ) == Some(MappingKind::Guard) && query_of(
                final(mem)@,
                old(mapper).root_spec(),
                (vaddr + PAGE_SIZE + STACK_SIZE) as u64,
            ) == Some(MappingKind::Guard) && (forall|n: int|
                0 <= n < STACK_SIZE / 4096 ==> #[trigger] query_of(
                    final(mem)@,
                    old(mapper).root_spec(),
                    page_va((vaddr + PAGE_SIZE) as u64, n),
                ) == Some(MappingKind::ReadWrite)),
            (forall|n: int|
                0 <= n < (STACK_SIZE + 2 * PAGE_SIZE) / 4096 ==> #[trigger] leaf_at(
                    old(mem)@,
                    old(mapper).root_spec(),
                    page_va(vaddr, n),
                ) == 0) && old(alloc).free_seq().len() >= 4 * ((STACK_SIZE + 2 * PAGE_SIZE)
                / 4096) ==> r is Ok,
    {
        let ghost root = mapper.root_spec();
        let ghost m0 = old(mem)@;
        let ghost total: u64 = (STACK_SIZE + 2 * PAGE_SIZE) as u64;
        proof {
            assert(STACK_SIZE / 4096 == 64);
            assert(total / 4096 == 66);
            lemma_window_shift(vaddr, PAGE_SIZE, STACK_SIZE);
            lemma_window_shift(vaddr, (PAGE_SIZE + STACK_SIZE) as u64, PAGE_SIZE);
            assert forall|n: int| 0 <= n < 64 implies !same_page(
                vaddr,
                #[trigger] page_va((vaddr + PAGE_SIZE) as u64, n),
            ) && !same_page(
                (vaddr + PAGE_SIZE + STACK_SIZE) as u64,
                page_va((vaddr + PAGE_SIZE) as u64, n),
            ) by {
                assert(page_va((vaddr + PAGE_SIZE) as u64, n) == page_va(vaddr, n + 1));
                assert(vaddr == page_va(vaddr, 0));
                assert((vaddr + PAGE_SIZE + STACK_SIZE) as u64 == page_va(vaddr, 65));
                lemma_pages_distinct(vaddr, total, 0, n + 1);
                lemma_pages_distinct(vaddr, total, 65, n + 1);
            }
            assert(!same_page(vaddr, (vaddr + PAGE_SIZE + STACK_SIZE) as u64)) by {
                assert(vaddr == page_va(vaddr, 0));
                assert((vaddr + PAGE_SIZE + STACK_SIZE) as u64 == page_va(vaddr, 65));
                lemma_pages_distinct(vaddr, total, 0, 65);
            }
        }
        let ghost hypothesis = (forall|n: int|
            0 <= n < 66 ==> #[trigger] leaf_at(m0, root, page_va(vaddr, n)) == 0)
            && old(alloc).free_seq().len() >= 264;
        proof {
            if hypothesis {
                assert(leaf_at(m0, root, page_va(vaddr, 0)) == 0);
            }
        }
        let r1 = mapper.map(mem, alloc, vaddr, PAGE_SIZE, MappingKind::Guard);
        match r1 {
            Ok(_) => {},
            Err(e) => {
                proof {
                    if hypothesis {
                        assert(forall|n: int|
                            0 <= n < 1 ==> #[trigger] leaf_at(m0, root, page_va(vaddr, n)) == 0);
                        assert(false);
                    }
                }
                return Err(e);
            },
        }
        let ghost m1 = mem@;
        proof {
            if hypothesis {
                assert forall|n: int| 0 <= n < 64 implies #[trigger] leaf_at(
                    m1,
                    root,
                    page_va((vaddr + PAGE_SIZE) as u64, n),
                ) == 0 by {
                    let p = page_va((vaddr + PAGE_SIZE) as u64, n);
                    assert(p == page_va(vaddr, n + 1));
                    assert(leaf_at(m0, root, p) == 0);
                    if covered(vaddr, PAGE_SIZE, p) {
                        let x = choose|x: int|
                            0 <= x < 1 && same_page(p, #[trigger] page_va(vaddr, x));
                        lemma_pages_distinct(vaddr, total, 0, n + 1);
                        assert(false);
                    }
                }
            }
        }
        let r2 = mapper.map(
            mem,
            alloc,
            vaddr + PAGE_SIZE,
            STACK_SIZE,
            MappingKind::ReadWrite,
        );
        match r2 {
            Ok(_) => {},
            Err(e) => {
                proof {
                    if hypothesis {
                        assert(false);
                    }
                }
                return Err(e);
            },
        }
        let ghost m2 = mem@;
        proof {
            if hypothesis {
                assert(leaf_at(m2, root, (vaddr + PAGE_SIZE + STACK_SIZE) as u64) == 0) by {
                    let p = (vaddr + PAGE_SIZE + STACK_SIZE) as u64;
                    assert(p == page_va(vaddr, 65));
                    assert(leaf_at(m0, root, p) == 0);
                    if covered(vaddr, PAGE_SIZE, p) {
                        let x = choose|x: int|
                            0 <= x < 1 && same_page(p, #[trigger] page_va(vaddr, x));
                        lemma_pages_distinct(vaddr, total, 0, 65);
                        assert(false);
                    }
                    if covered((vaddr + PAGE_SIZE) as u64, STACK_SIZE, p) {
                        let x = choose|x: int|
                            0 <= x < 64 && same_page(
                                p,
                                #[trigger] page_va((vaddr + PAGE_SIZE) as u64, x),
                            );
                        assert(false);
                    }
                }
                assert(forall|n: int|
                    0 <= n < 1 ==> #[trigger] leaf_at(
                        m2,
                        root,
                        page_va((vaddr + PAGE_SIZE + STACK_SIZE) as u64, n),
                    ) == 0);
            }
        }
        let r3 = mapper.map(
            mem,
            alloc,
            vaddr + PAGE_SIZE + STACK_SIZE,
            PAGE_SIZE,
            MappingKind::Guard,
        );
        match r3 {
            Ok(_) => {},
            Err(e) => {
                proof {
                    if hypothesis {
                        assert(false);
                    }
                }
                return Err(e);
            },
        }
        proof {
            assert(query_of(mem@, root, vaddr) == Some(MappingKind::Guard)) by {
                assert(vaddr == page_va(vaddr, 0));
                assert(query_of(m1, root, page_va(vaddr, 0)) == Some(MappingKind::Guard));
                assert(!covered((vaddr + PAGE_SIZE) as u64, STACK_SIZE, vaddr));
                assert(!covered((vaddr + PAGE_SIZE + STACK_SIZE) as u64, PAGE_SIZE, vaddr)) by {
                    if covered((vaddr + PAGE_SIZE + STACK_SIZE) as u64, PAGE_SIZE, vaddr) {
                        let x = choose|x: int|
                            0 <= x < 1 && same_page(
                                vaddr,
                                #[trigger] page_va((vaddr + PAGE_SIZE + STACK_SIZE) as u64, x),
                            );
                        assert(false);
                    }
                }
            }
            assert forall|n: int| 0 <= n < STACK_SIZE / 4096 implies #[trigger] query_of(
                mem@,
                root,
                page_va((vaddr + PAGE_SIZE) as u64, n),
            ) == Some(MappingKind::ReadWrite) by {
                let p = page_va((vaddr + PAGE_SIZE) as u64, n);
                assert(query_of(m2, root, p) == Some(MappingKind::ReadWrite));
                assert(!covered((vaddr + PAGE_SIZE + STACK_SIZE) as u64, PAGE_SIZE, p)) by {
                    if covered((vaddr + PAGE_SIZE + STACK_SIZE) as u64, PAGE_SIZE, p) {
                        let x = choose|x: int|
                            0 <= x < 1 && same_page(
                                p,
                                #[trigger] page_va((vaddr + PAGE_SIZE + STACK_SIZE) as u64, x),
                            );
                        assert(false);
                    }
                }
            }
            assert(query_of(mem@, root, (vaddr + PAGE_SIZE + STACK_SIZE) as u64) == Some(
                MappingKind::Guard,
            )) by {
                assert((vaddr + PAGE_SIZE + STACK_SIZE) as u64 == page_va(
                    (vaddr + PAGE_SIZE + STACK_SIZE) as u64,
                    0,
                ));
            }
        }
        Ok(Stack { vaddr })
    }

    /// The initial stack pointer: the top of the read-write range, just
    /// below the high guard page.
    pub fn stack_pointer(&self) -> (r: u64)
        requires
            self.wf(),
        ensures
            r == self.vaddr_spec() + STACK_SIZE + PAGE_SIZE,
    {
        self.vaddr + STACK_SIZE + PAGE_SIZE
    }
}

} // verus!
