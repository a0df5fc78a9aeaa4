//! The virtual memory mapper: permission taxonomy, error taxonomy, and the
//! kernel's address-space mapper built on 4-level page tables.

pub mod x86_64;

use vstd::prelude::*;

verus! {

use crate::mem::mapping::x86_64::{
    backing, covered, distinct_backings, find_pte, find_pte_or_create, in_window, inv_tree,
    l1_index, l2_index, l3_index, l4_index, leaf_at, lemma_guard_word_facts, lemma_index_bounds, lemma_kind_flags_wf,
    lemma_leaf_write, lemma_mapping_word, lemma_pages_distinct, lemma_present_of_masked,
    lemma_same_page_same_leaf, not_table, page_va, pinned_frame, query_of, same_page,
    is_table_link, spec_flags_of_kind, spec_to_u64, spec_word_valid, t1_at, t1_def, t3_def,
    table_ok, tw, zero_backed, FLAG_MASK, GUARD_WORD, PageTable, PageTableEntry, PageTableFlags,
    PageTableValue, SPECIAL_GUARD,
};
use crate::mem::paging::Page;
use crate::mem::phys::{lemma_frames_disjoint, lemma_slot_in_frame, FrameAllocator};
use crate::mem::physmem::{in_frame, mem_word, PhysMemory};
use crate::mem::physptr::PhysPtr;
use crate::mem::{HIGHER_HALF_ADDR, MAX_PHYS_ADDR, PAGE_SIZE};


/// Permission and caching intent of one mapping.
#[derive(Debug, Clone, Copy, PartialEq, Eq, Structural)]
pub enum MappingKind {
    /// perms: r-x
    Code,
    /// perms: r--
    ReadOnly,
    /// perms: rw-
    ReadWrite,
    /// perms: rwx, used only for intermediate tables and trusted identity
    /// mappings
    Full,
    /// perms: ---, a reserved-but-unmapped page that faults on access
    Guard,
    /// perms: rw-, caching disabled
    Mmio,
    /// perms: -w-, caching disabled / write-combining
    Framebuffer,
}

impl MappingKind {
    /// Whether the kind allows reads.
    pub fn can_read(&self) -> (r: bool)
        ensures
            r == self.spec_can_read(),
    {
        match self {
            MappingKind::Code => true,
            MappingKind::ReadOnly => true,
            MappingKind::ReadWrite => true,
            MappingKind::Full => true,
            MappingKind::Guard => false,
            MappingKind::Mmio => true,
            MappingKind::Framebuffer => false,
        }
    }

    /// Whether the kind allows writes.
    pub fn can_write(&self) -> (r: bool)
        ensures
            r == self.spec_can_write(),
    {
        match self {
            MappingKind::Code => false,
            MappingKind::ReadOnly => false,
            MappingKind::ReadWrite => true,
            MappingKind::Full => true,
            MappingKind::Guard => false,
            MappingKind::Mmio => true,
            MappingKind::Framebuffer => true,
        }
    }

    /// Whether the kind allows instruction fetches.
    pub fn can_execute(&self) -> (r: bool)
        ensures
            r == self.spec_can_execute(),
    {
        match self {
            MappingKind::Code => true,
            MappingKind::ReadOnly => false,
            MappingKind::ReadWrite => false,
            MappingKind::Full => true,
            MappingKind::Guard => false,
            MappingKind::Mmio => false,
            MappingKind::Framebuffer => false,
        }
    }

    /// Read permission, at spec level.
    pub open spec fn spec_can_read(&self) -> bool {
        match self {
            MappingKind::Guard => false,
            MappingKind::Framebuffer => false,
            _ => true,
        }
    }

    /// Write permission, at spec level.
    pub open spec fn spec_can_write(&self) -> bool {
        match self {
            MappingKind::ReadWrite => true,
            MappingKind::Full => true,
            MappingKind::Mmio => true,
            MappingKind::Framebuffer => true,
            _ => false,
        }
    }

    /// Execute permission, at spec level.
    pub open spec fn spec_can_execute(&self) -> bool {
        match self {
            MappingKind::Code => true,
            MappingKind::Full => true,
            _ => false,
        }
    }
}

/// The free list is exhausted; nothing at this layer can reclaim memory.
#[derive(Debug, Clone, Copy, PartialEq, Eq, Structural)]
pub struct OutOfMemory;

/// Why a `map` operation failed.
#[derive(Debug, Clone, Copy, PartialEq, Eq, Structural)]
pub enum MappingError {
    /// A leaf slot in the requested range was already occupied.
    AlreadyMapped,
    /// A frame allocation failed while walking or filling the tables.
    AllocError(OutOfMemory),
}

/// One region of the initial kernel mapping, as handed over by boot code.
#[derive(Debug, Clone, Copy)]
pub struct MappingInfo {
    pub virt: u64,
    pub phys: Option<crate::mem::physptr::PhysPtr<crate::mem::paging::Page>>,
    pub kind: MappingKind,
}

/// The argument discipline of every multi-page operation: a page-aligned,
/// non-wrapping range in the higher half, inside one 48-bit translation
/// window.
pub open spec fn range_ok(ptr: u64, size: u64) -> bool {
    &&& ptr >= HIGHER_HALF_ADDR
    &&& ptr % PAGE_SIZE == 0
    &&& size % PAGE_SIZE == 0
    &&& ptr + size <= 0x1_0000_0000_0000_0000
    &&& in_window(ptr, size)
}

/// After a successful `map`-family call: every page of the range now
/// answers `kind`, and every page was unmapped beforehand.
pub open spec fn mapped_post(
    m0: Map<u64, u64>,
    m1: Map<u64, u64>,
    root: u64,
    ptr: u64,
    size: u64,
    kind: MappingKind,
) -> bool {
    &&& forall|n: int|
        0 <= n < size / 4096 ==> #[trigger] query_of(m1, root, page_va(ptr, n)) == Some(kind)
    &&& forall|n: int| 0 <= n < size / 4096 ==> #[trigger] leaf_at(m0, root, page_va(ptr, n)) == 0
}

/// Pages outside the operated range translate exactly as before.
pub open spec fn untouched_outside(
    m0: Map<u64, u64>,
    m1: Map<u64, u64>,
    root: u64,
    ptr: u64,
    size: u64,
) -> bool {
    forall|va: u64|
        !covered(ptr, size, va) ==> #[trigger] leaf_at(m1, root, va) == leaf_at(m0, root, va)
}

/// After a failed `map`-family call: every translation in the whole space
/// is exactly as before the call.
pub open spec fn rolled_back(m0: Map<u64, u64>, m1: Map<u64, u64>, root: u64) -> bool {
    forall|va: u64| #[trigger] leaf_at(m1, root, va) == leaf_at(m0, root, va)
}

/// Sufficient resources for a `map`-family call over `size` bytes: at worst
/// each page takes three fresh intermediate tables and one data frame.
pub open spec fn enough_frames(alloc: FrameAllocator, size: u64) -> bool {
    alloc.free_seq().len() >= 4 * (size / 4096)
}

/// The single authority translating virtual ranges into leaf entries of a
/// 4-level page-table tree, and the inverse query. One instance stands for
/// one hardware address space; `KernelMapper` is the kernel's, and further
/// address spaces would implement the same interface.
pub trait Mapper: Sized {
    /// The physical address of the root (level-4) table.
    spec fn root_spec(&self) -> u64;

    /// Whole-system well-formedness: the tree under the root is intact, the
    /// frame allocator's list is intact, and no free frame doubles as a
    /// table frame.
    spec fn wf(&self, m: Map<u64, u64>, alloc: FrameAllocator) -> bool;

    /// Maps `[ptr, ptr + size)` page by page, drawing one fresh frame per
    /// page (none for a guard page): every page ends up backed by its own
    /// frame taken from the caller's free list. On any failure everything
    /// this call installed is unmapped again before the error is returned,
    /// so a caller never observes a partially applied range.
    fn map(
        &mut self,
        mem: &mut PhysMemory,
        alloc: &mut FrameAllocator,
        ptr: u64,
        size: u64,
        kind: MappingKind,
    ) -> (r: Result<(), MappingError>)
        requires
            old(self).wf(old(mem)@, *old(alloc)),
            range_ok(ptr, size),
            size > 0,
        ensures
            final(self).wf(final(mem)@, *final(alloc)),
            *final(self) == *old(self),
            forall|x: u64|
                x < 512 && t3_def(old(mem)@, old(self).root_spec(), x) ==> #[trigger] t3_def(
                    final(mem)@,
                    old(self).root_spec(),
                    x,
                ),
            r is Ok ==> mapped_post(old(mem)@, final(mem)@, old(self).root_spec(), ptr, size, kind),
            untouched_outside(old(mem)@, final(mem)@, old(self).root_spec(), ptr, size),
            r is Err ==> rolled_back(old(mem)@, final(mem)@, old(self).root_spec()),
            r == Result::<(), MappingError>::Err(MappingError::AlreadyMapped) ==> exists|n: int|
                0 <= n < size / 4096 && #[trigger] leaf_at(
                    old(mem)@,
                    old(self).root_spec(),
                    page_va(ptr, n),
                ) != 0,
            (r matches Err(e) && e matches MappingError::AllocError(_)) ==> final(alloc).free_seq().len()
                == 0,
            (forall|n: int|
                0 <= n < size / 4096 ==> #[trigger] leaf_at(
                    old(mem)@,
                    old(self).root_spec(),
                    page_va(ptr, n),
                ) == 0) && enough_frames(*old(alloc), size) ==> r is Ok,
            final(alloc).free_seq().len() <= old(alloc).free_seq().len(),
            old(alloc).free_seq().len() <= final(alloc).free_seq().len() + 4 * (size / 4096),
            kind != MappingKind::Guard && r is Ok ==> forall|n: int|
                0 <= n < size / 4096 ==> old(alloc).free_seq().contains(
                    #[trigger] backing(final(mem)@, old(self).root_spec(), ptr, n),
                ),
            kind != MappingKind::Guard && r is Ok ==> distinct_backings(
                final(mem)@,
                old(self).root_spec(),
                ptr,
                size as int / 4096,
            ),
    ;

    /// Like `map`, but each freshly drawn data frame is zeroed before it is
    /// installed.
    fn map_zeroed(
        &mut self,
        mem: &mut PhysMemory,
        alloc: &mut FrameAllocator,
        ptr: u64,
        size: u64,
        kind: MappingKind,
    ) -> (r: Result<(), MappingError>)
        requires
            old(self).wf(old(mem)@, *old(alloc)),
            range_ok(ptr, size),
            size > 0,
        ensures
            final(self).wf(final(mem)@, *final(alloc)),
            *final(self) == *old(self),
            forall|x: u64|
                x < 512 && t3_def(old(mem)@, old(self).root_spec(), x) ==> #[trigger] t3_def(
                    final(mem)@,
                    old(self).root_spec(),
                    x,
                ),
            r is Ok ==> mapped_post(old(mem)@, final(mem)@, old(self).root_spec(), ptr, size, kind),
            kind != MappingKind::Guard && r is Ok ==> forall|n: int|
                0 <= n < size / 4096 ==> #[trigger] zero_backed(
                    final(mem)@,
                    old(self).root_spec(),
                    ptr,
                    n,
                ),
            untouched_outside(old(mem)@, final(mem)@, old(self).root_spec(), ptr, size),
            r is Err ==> rolled_back(old(mem)@, final(mem)@, old(self).root_spec()),
            r == Result::<(), MappingError>::Err(MappingError::AlreadyMapped) ==> exists|n: int|
                0 <= n < size / 4096 && #[trigger] leaf_at(
                    old(mem)@,
                    old(self).root_spec(),
                    page_va(ptr, n),
                ) != 0,
            (r matches Err(e) && e matches MappingError::AllocError(_)) ==> final(alloc).free_seq().len()
                == 0,
            (forall|n: int|
                0 <= n < size / 4096 ==> #[trigger] leaf_at(
                    old(mem)@,
                    old(self).root_spec(),
                    page_va(ptr, n),
                ) == 0) && enough_frames(*old(alloc), size) ==> r is Ok,
            final(alloc).free_seq().len() <= old(alloc).free_seq().len(),
            old(alloc).free_seq().len() <= final(alloc).free_seq().len() + 4 * (size / 4096),
            kind != MappingKind::Guard && r is Ok ==> forall|n: int|
                0 <= n < size / 4096 ==> old(alloc).free_seq().contains(
                    #[trigger] backing(final(mem)@, old(self).root_spec(), ptr, n),
                ),
            kind != MappingKind::Guard && r is Ok ==> distinct_backings(
                final(mem)@,
                old(self).root_spec(),
                ptr,
                size as int / 4096,
            ),
    ;

    /// Maps `[virt, virt + size)` onto the caller-supplied physical range
    /// `[phys, phys + size)` page by page; frames are drawn only for
    /// missing intermediate tables.
    fn map_phys(
        &mut self,
        mem: &mut PhysMemory,
        alloc: &mut FrameAllocator,
        virt: u64,
        phys: PhysPtr<()>,
        size: u64,
        kind: MappingKind,
    ) -> (r: Result<(), MappingError>)
        requires
            old(self).wf(old(mem)@, *old(alloc)),
            range_ok(virt, size),
            size > 0,
            phys.addr_spec() % PAGE_SIZE == 0,
            phys.addr_spec() + size <= MAX_PHYS_ADDR,
            kind != MappingKind::Guard,
        ensures
            final(self).wf(final(mem)@, *final(alloc)),
            *final(self) == *old(self),
            forall|x: u64|
                x < 512 && t3_def(old(mem)@, old(self).root_spec(), x) ==> #[trigger] t3_def(
                    final(mem)@,
                    old(self).root_spec(),
                    x,
                ),
            r is Ok ==> mapped_post(old(mem)@, final(mem)@, old(self).root_spec(), virt, size, kind),
            r is Ok ==> forall|n: int|
                0 <= n < size / 4096 ==> #[trigger] leaf_at(
                    final(mem)@,
                    old(self).root_spec(),
                    page_va(virt, n),
                ) == (((phys.addr_spec() + 4096 * n) as u64 & !FLAG_MASK) | (spec_flags_of_kind(
                    kind,
                ) & FLAG_MASK)),
            untouched_outside(old(mem)@, final(mem)@, old(self).root_spec(), virt, size),
            r is Err ==> rolled_back(old(mem)@, final(mem)@, old(self).root_spec()),
            r == Result::<(), MappingError>::Err(MappingError::AlreadyMapped) ==> exists|n: int|
                0 <= n < size / 4096 && #[trigger] leaf_at(
                    old(mem)@,
                    old(self).root_spec(),
                    page_va(virt, n),
                ) != 0,
            (r matches Err(e) && e matches MappingError::AllocError(_)) ==> final(alloc).free_seq().len()
                == 0,
            (forall|n: int|
                0 <= n < size / 4096 ==> #[trigger] leaf_at(
                    old(mem)@,
                    old(self).root_spec(),
                    page_va(virt, n),
                ) == 0) && enough_frames(*old(alloc), size) ==> r is Ok,
            final(alloc).free_seq().len() <= old(alloc).free_seq().len(),
            old(alloc).free_seq().len() <= final(alloc).free_seq().len() + 4 * (size / 4096),
    ;

    /// Unmaps `[ptr, ptr + size)` page by page: present leaves are cleared,
    /// pages whose intermediate tables are absent are skipped silently. It
    /// never fails and never allocates. Stale translations cached by other
    /// cores are not invalidated here; that is a known, unresolved gap at
    /// this layer.
    fn unmap(&mut self, mem: &mut PhysMemory, alloc: &FrameAllocator, ptr: u64, size: u64)
        requires
            old(self).wf(old(mem)@, *alloc),
            range_ok(ptr, size),
        ensures
            final(self).wf(final(mem)@, *alloc),
            *final(self) == *old(self),
            forall|x: u64|
                x < 512 && t3_def(old(mem)@, old(self).root_spec(), x) ==> #[trigger] t3_def(
                    final(mem)@,
                    old(self).root_spec(),
                    x,
                ),
            forall|n: int|
                0 <= n < size / 4096 ==> #[trigger] leaf_at(
                    final(mem)@,
                    old(self).root_spec(),
                    page_va(ptr, n),
                ) == 0,
            forall|n: int|
                0 <= n < size / 4096 ==> #[trigger] query_of(
                    final(mem)@,
                    old(self).root_spec(),
                    page_va(ptr, n),
                ) is None,
            untouched_outside(old(mem)@, final(mem)@, old(self).root_spec(), ptr, size),
    ;

    /// What the tree currently says about `ptr`: the kind its leaf mapping
    /// decodes to, the guard kind for a guard entry, or nothing at all for
    /// an unmapped page.
    fn query(&self, mem: &PhysMemory, alloc: &FrameAllocator, ptr: u64) -> (r: Option<MappingKind>)
        requires
            self.wf(mem@, *alloc),
        ensures
            r == query_of(mem@, self.root_spec(), ptr),
    ;

    /// The physical address of the root table, as the hardware's
    /// table-base register wants it.
    fn ptroot(&self) -> (r: PhysPtr<PageTable>)
        ensures
            r.addr_spec() == self.root_spec(),
    ;
}

/// The kernel's address-space mapper. It owns only the root table's
/// physical address: the tables themselves live in physical memory, shared
/// with the allocator through the same word store.
pub struct KernelMapper {
    phys: PhysPtr<PageTable>,
}

impl Mapper for KernelMapper {
    closed spec fn root_spec(&self) -> u64 {
        self.phys.addr_spec()
    }

    closed spec fn wf(&self, m: Map<u64, u64>, alloc: FrameAllocator) -> bool {
        &&& table_ok(self.phys.addr_spec())
        &&& self.phys.wf()
        &&& inv_tree(m, self.phys.addr_spec())
        &&& alloc.wf(m)
        &&& forall|q: int|
            0 <= q < alloc.free_seq().len() ==> not_table(
                m,
                self.phys.addr_spec(),
                #[trigger] alloc.free_seq()[q],
            )
    }

    fn map(
        &mut self,
        mem: &mut PhysMemory,
        alloc: &mut FrameAllocator,
        ptr: u64,
        size: u64,
        kind: MappingKind,
    ) -> (r: Result<(), MappingError>) {
        self.map_inner(mem, alloc, ptr, size, kind, false)
    }

    fn map_zeroed(
        &mut self,
        mem: &mut PhysMemory,
        alloc: &mut FrameAllocator,
        ptr: u64,
        size: u64,
        kind: MappingKind,
    ) -> (r: Result<(), MappingError>) {
        self.map_inner(mem, alloc, ptr, size, kind, true)
    }

    fn map_phys(
        &mut self,
        mem: &mut PhysMemory,
        alloc: &mut FrameAllocator,
        virt: u64,
        phys: PhysPtr<()>,
        size: u64,
        kind: MappingKind,
    ) -> (r: Result<(), MappingError>) {
        self.map_phys_inner(mem, alloc, virt, phys, size, kind)
    }

    fn unmap(&mut self, mem: &mut PhysMemory, alloc: &FrameAllocator, ptr: u64, size: u64) {
        self.unmap_inner(mem, alloc, ptr, size)
    }

    fn query(&self, mem: &PhysMemory, alloc: &FrameAllocator, ptr: u64) -> (r: Option<
        MappingKind,
    >) {
        let ghost root = self.phys.addr_spec();
        proof {
            lemma_index_bounds(ptr);
        }
        match find_pte(mem, &self.phys, ptr) {
            None => None,
            Some(pte) => {
                proof {
                    let w = leaf_at(mem@, root, ptr);
                    crate::mem::mapping::x86_64::lemma_leaf_ok_valid(w);
                    lemma_present_of_masked(w);
                    lemma_guard_word_facts();
                }
                match pte.get(mem) {
                    None => None,
                    Some(v) => match v {
                        PageTableValue::Mapping { flags, .. } => flags.into_kind(),
                        PageTableValue::Special(tag) => {
                            if tag == SPECIAL_GUARD {
                                Some(MappingKind::Guard)
                            } else {
                                // The invariant admits no tagged value but
                                // the guard tag.
                                proof {
                                    assert(false);
                                }
                                None
                            }
                        },
                    },
                }
            },
        }
    }

    fn ptroot(&self) -> (r: PhysPtr<PageTable>) {
        self.phys
    }
}

impl KernelMapper {
    /// The page-by-page teardown behind [`Mapper::unmap`].
    #[verifier::loop_isolation(false)]
    pub fn unmap_inner(
        &mut self,
        mem: &mut PhysMemory,
        alloc: &FrameAllocator,
        ptr: u64,
        size: u64,
    )
        requires
            old(self).wf(old(mem)@, *alloc),
            range_ok(ptr, size),
        ensures
            final(self).wf(final(mem)@, *alloc),
            *final(self) == *old(self),
            forall|x: u64|
                x < 512 && t3_def(old(mem)@, old(self).root_spec(), x) ==> #[trigger] t3_def(
                    final(mem)@,
                    old(self).root_spec(),
                    x,
                ),
            forall|n: int|
                0 <= n < size / 4096 ==> #[trigger] leaf_at(
                    final(mem)@,
                    old(self).root_spec(),
                    page_va(ptr, n),
                ) == 0,
            forall|n: int|
                0 <= n < size / 4096 ==> #[trigger] query_of(
                    final(mem)@,
                    old(self).root_spec(),
                    page_va(ptr, n),
                ) is None,
            untouched_outside(old(mem)@, final(mem)@, old(self).root_spec(), ptr, size),
    {
        let ghost root = self.phys.addr_spec();
        let ghost m0 = old(mem)@;
        let mut off: u64 = 0;
        while off < size
            invariant
                self.wf(mem@, *alloc),
                *self == *old(self),
                off % 4096 == 0,
                off <= size,
                forall|n: int|
                    0 <= n < off / 4096 ==> #[trigger] leaf_at(mem@, root, page_va(ptr, n)) == 0,
                forall|va: u64|
                    !covered(ptr, off, va) ==> #[trigger] leaf_at(mem@, root, va) == leaf_at(
                        m0,
                        root,
                        va,
                    ),
                forall|x: u64|
                    x < 512 && t3_def(m0, root, x) ==> #[trigger] t3_def(mem@, root, x),
            decreases size - off,
        {
            let vaddr = ptr + off;
            let ghost done = off as int / 4096;
            proof {
                lemma_index_bounds(vaddr);
                vstd::arithmetic::div_mod::lemma_fundamental_div_mod(off as int, 4096);
                assert(vaddr == page_va(ptr, done));
                vstd::arithmetic::div_mod::lemma_fundamental_div_mod(size as int, 4096);
                assert(done < size / 4096) by (nonlinear_arith)
                    requires
                        off < size,
                        off % 4096 == 0,
                        size % 4096 == 0,
                        done == off as int / 4096,
                        4096 * (off as int / 4096) == off,
                        4096 * (size as int / 4096) == size,
                ;
            }
            let found = find_pte(mem, &self.phys, vaddr);
            match found {
                Some(pte) => {
                    let ghost m_pre = mem@;
                    pte.clear(mem);
                    proof {
                        let i = l4_index(vaddr);
                        let j = l3_index(vaddr);
                        let k = l2_index(vaddr);
                        let l = l1_index(vaddr);
                        lemma_leaf_write(m_pre, mem@, root, i, j, k, l, 0);
                        let tt = t1_at(m_pre, root, i, j, k);
                        alloc.lemma_free_frames_ok(m_pre);
                        lemma_slot_in_frame(tt, l);
                        assert forall|x: int, aa: int|
                            0 <= x < alloc.free_seq().len() && in_frame(
                                #[trigger] alloc.free_seq()[x],
                                aa,
                            ) implies #[trigger] mem_word(mem@, aa) == mem_word(m_pre, aa) by {
                            assert(not_table(m_pre, root, alloc.free_seq()[x]));
                            assert(alloc.free_seq()[x] != tt);
                            lemma_frames_disjoint(tt, alloc.free_seq()[x]);
                            assert(in_frame(tt, tt + 8 * l));
                            assert(aa != tt + 8 * l);
                        }
                        alloc.lemma_wf_preserved(m_pre, mem@);
                    }
                },
                None => {
                    proof {
                        assert(leaf_at(mem@, root, vaddr) == 0);
                    }
                },
            }
            off = off + 4096;
            proof {
                vstd::arithmetic::div_mod::lemma_fundamental_div_mod(off as int, 4096);
                assert(off as int / 4096 == done + 1) by (nonlinear_arith)
                    requires
                        4096 * (off as int / 4096) == off,
                        off == 4096 * done + 4096,
                ;
                assert forall|n: int| 0 <= n < off / 4096 implies #[trigger] leaf_at(
                    mem@,
                    root,
                    page_va(ptr, n),
                ) == 0 by {
                    if n < done {
                        lemma_pages_distinct(ptr, size, n, done);
                        assert(!same_page(page_va(ptr, n), vaddr));
                    }
                }
                assert forall|va: u64| !covered(ptr, off, va) implies #[trigger] leaf_at(
                    mem@,
                    root,
                    va,
                ) == leaf_at(m0, root, va) by {
                    assert(!same_page(va, page_va(ptr, done)));
                    if covered(ptr, (off - 4096) as u64, va) {
                        let n = choose|n: int|
                            0 <= n < (off - 4096) as u64 / 4096 && same_page(
                                va,
                                #[trigger] page_va(ptr, n),
                            );
                        assert((off - 4096) as u64 / 4096 == done) by (nonlinear_arith)
                            requires
                                off == 4096 * done + 4096,
                                done >= 0,
                        ;
                        assert(0 <= n < off / 4096);
                        assert(false);
                    }
                }
            }
        }
        proof {
            assert forall|n: int| 0 <= n < size / 4096 implies #[trigger] query_of(
                mem@,
                root,
                page_va(ptr, n),
            ) is None by {
                assert(leaf_at(mem@, root, page_va(ptr, n)) == 0);
            }
        }
    }
}

/// One page install step keeps every earlier page of the range backed by
/// its own pinned frame (all zero words when the frames are drawn zeroed),
/// and adds the freshly drawn frame, distinct from all earlier ones, for
/// the page just installed.
#[verifier::rlimit(100)]
proof fn lemma_backed_pages_maintained(
    m_iter: Map<u64, u64>,
    free_iter: Seq<u64>,
    m_f: Map<u64, u64>,
    free_f: Seq<u64>,
    m_d: Map<u64, u64>,
    m2: Map<u64, u64>,
    free2: Seq<u64>,
    root: u64,
    ptr: u64,
    size: u64,
    done: int,
    vaddr: u64,
    w: u64,
    bn: u64,
    tt: u64,
    zeroed: bool,
)
    requires
        ptr % 4096 == 0,
        size % 4096 == 0,
        in_window(ptr, size),
        ptr + size <= 0x1_0000_0000_0000_0000,
        0 <= done < size / 4096,
        vaddr == page_va(ptr, done),
        zeroed ==> (forall|n: int| 0 <= n < done ==> #[trigger] zero_backed(m_iter, root, ptr, n)),
        distinct_backings(m_iter, root, ptr, done),
        forall|n: int|
            0 <= n < done ==> #[trigger] pinned_frame(
                m_iter,
                root,
                free_iter,
                backing(m_iter, root, ptr, n),
            ),
        crate::mem::mapping::x86_64::pins_hold(m_iter, root, free_iter, m_f, free_f),
        forall|va: u64| #[trigger] leaf_at(m_f, root, va) == leaf_at(m_iter, root, va),
        free_f.len() > 0,
        bn == free_f[0],
        bn % 4096 == 0,
        bn < MAX_PHYS_ADDR,
        free2.len() == free_f.len() - 1,
        forall|x: int| 0 <= x < free2.len() ==> #[trigger] free2[x] == free_f[x + 1],
        forall|x: int, y: int|
            0 <= x < y < free_f.len() ==> #[trigger] free_f[x] != #[trigger] free_f[y],
        free_f.len() <= free_iter.len(),
        forall|x: int|
            0 <= x < free_f.len() ==> #[trigger] free_f[x] == free_iter[x + (free_iter.len()
                - free_f.len())],
        forall|a: int| !in_frame(bn, a) ==> #[trigger] mem_word(m_d, a) == mem_word(m_f, a),
        forall|g: u64| not_table(m_f, root, g) ==> #[trigger] not_table(m_d, root, g),
        not_table(m_f, root, bn),
        forall|va: u64| #[trigger] leaf_at(m_d, root, va) == leaf_at(m_f, root, va),
        zeroed ==> (forall|q: int| 0 <= q < 512 ==> #[trigger] mem_word(m_d, bn + 8 * q) == 0),
        table_ok(tt),
        t1_def(m_d, root, l4_index(vaddr), l3_index(vaddr), l2_index(vaddr)),
        tt == t1_at(m_d, root, l4_index(vaddr), l3_index(vaddr), l2_index(vaddr)),
        forall|b: int|
            b != tt + 8 * l1_index(vaddr) ==> #[trigger] mem_word(m2, b) == mem_word(m_d, b),
        forall|g: u64| not_table(m_d, root, g) ==> #[trigger] not_table(m2, root, g),
        forall|va: u64|
            #[trigger] leaf_at(m2, root, va) == (if l4_index(va) == l4_index(vaddr) && l3_index(va)
                == l3_index(vaddr) && l2_index(va) == l2_index(vaddr) && l1_index(va) == l1_index(
                vaddr,
            ) {
                w
            } else {
                leaf_at(m_d, root, va)
            }),
        crate::mem::mapping::x86_64::link_target(w) == bn,
    ensures
        zeroed ==> (forall|n: int| 0 <= n < done + 1 ==> #[trigger] zero_backed(m2, root, ptr, n)),
        forall|n: int|
            0 <= n < done + 1 ==> #[trigger] pinned_frame(m2, root, free2, backing(m2, root, ptr, n)),
        distinct_backings(m2, root, ptr, done + 1),
        forall|n: int|
            0 <= n < done ==> #[trigger] backing(m2, root, ptr, n) == backing(m_iter, root, ptr, n),
        backing(m2, root, ptr, done) == bn,
{
    let sl = tt + 8 * l1_index(vaddr);
    lemma_index_bounds(vaddr);
    lemma_slot_in_frame(tt, l1_index(vaddr));
    assert(in_frame(tt, sl));
    assert(not_table(m_d, root, bn));
    assert(not_table(m2, root, bn));
    assert(bn != tt);
    lemma_frames_disjoint(bn, tt);
    assert(leaf_at(m2, root, vaddr) == w);
    assert(backing(m2, root, ptr, done) == bn);
    assert forall|x: int| 0 <= x < free2.len() implies #[trigger] free2[x] != bn by {
        assert(free2[x] == free_f[x + 1]);
        assert(free_f[0] != free_f[x + 1]);
    }
    assert(pinned_frame(m2, root, free2, bn));
    if zeroed {
        assert forall|q: int| 0 <= q < 512 implies #[trigger] mem_word(m2, bn + 8 * q) == 0 by {
            lemma_slot_in_frame(bn, q as u64);
            assert(in_frame(bn, bn + 8 * q));
            assert(bn + 8 * q != sl);
            assert(mem_word(m2, bn + 8 * q) == mem_word(m_d, bn + 8 * q));
        }
        assert(zero_backed(m2, root, ptr, done));
    }
    assert forall|n: int| 0 <= n < done implies (#[trigger] backing(m2, root, ptr, n)) == backing(
        m_iter,
        root,
        ptr,
        n,
    ) && pinned_frame(m2, root, free2, backing(m2, root, ptr, n)) && (zeroed ==> zero_backed(
        m2,
        root,
        ptr,
        n,
    )) by {
        let p = page_va(ptr, n);
        let b = backing(m_iter, root, ptr, n);
        assert(pinned_frame(m_iter, root, free_iter, b));
        assert(pinned_frame(m_f, root, free_f, b));
        assert(b != free_f[0]);
        assert(not_table(m_d, root, b));
        assert(not_table(m2, root, b));
        assert forall|x: int| 0 <= x < free2.len() implies #[trigger] free2[x] != b by {
            assert(free2[x] == free_f[x + 1]);
        }
        lemma_pages_distinct(ptr, size, n, done);
        assert(!same_page(p, vaddr));
        assert(leaf_at(m2, root, p) == leaf_at(m_d, root, p));
        assert(leaf_at(m_d, root, p) == leaf_at(m_f, root, p));
        assert(leaf_at(m_f, root, p) == leaf_at(m_iter, root, p));
        assert(backing(m2, root, ptr, n) == b);
        assert(b != tt);
        lemma_frames_disjoint(b, tt);
        lemma_frames_disjoint(b, bn);
        assert(pinned_frame(m2, root, free2, b));
        if zeroed {
            assert(zero_backed(m_iter, root, ptr, n));
            assert forall|q: int| 0 <= q < 512 implies #[trigger] mem_word(m2, b + 8 * q) == 0 by {
                lemma_slot_in_frame(b, q as u64);
                assert(in_frame(b, b + 8 * q));
                assert(mem_word(m_iter, b + 8 * q) == 0);
                assert(mem_word(m_f, b + 8 * q) == mem_word(m_iter, b + 8 * q));
                assert(!in_frame(bn, b + 8 * q));
                assert(mem_word(m_d, b + 8 * q) == mem_word(m_f, b + 8 * q));
                assert(b + 8 * q != sl);
                assert(mem_word(m2, b + 8 * q) == mem_word(m_d, b + 8 * q));
            }
            assert(zero_backed(m2, root, ptr, n));
        }
    }
    assert forall|n: int| 0 <= n < done + 1 implies #[trigger] pinned_frame(
        m2,
        root,
        free2,
        backing(m2, root, ptr, n),
    ) by {
        if n < done {
            assert(backing(m2, root, ptr, n) == backing(m_iter, root, ptr, n));
        } else {
            assert(backing(m2, root, ptr, done) == bn);
        }
    }
    if zeroed {
        assert forall|n: int| 0 <= n < done + 1 implies #[trigger] zero_backed(
            m2,
            root,
            ptr,
            n,
        ) by {
            if n < done {
                assert(backing(m2, root, ptr, n) == backing(m_iter, root, ptr, n));
            }
        }
    }
    assert forall|n1: int, n2: int| 0 <= n1 < n2 < done + 1 implies #[trigger] backing(
        m2,
        root,
        ptr,
        n1,
    ) != #[trigger] backing(m2, root, ptr, n2) by {
        assert(backing(m2, root, ptr, n1) == backing(m_iter, root, ptr, n1));
        let b1 = backing(m_iter, root, ptr, n1);
        if n2 == done {
            assert(pinned_frame(m_iter, root, free_iter, b1));
            assert(free_f[0] == free_iter[free_iter.len() - free_f.len()]);
            assert(free_iter[free_iter.len() - free_f.len()] != b1);
            assert(backing(m2, root, ptr, done) == bn);
        } else {
            assert(backing(m2, root, ptr, n2) == backing(m_iter, root, ptr, n2));
        }
    }
}

impl KernelMapper {
    /// The page-by-page install loop behind [`Mapper::map`] and
    /// [`Mapper::map_zeroed`]: walk (creating tables), draw a frame unless
    /// the kind is a guard, and install the leaf by compare-and-swap; on any
    /// failure, unmap whatever this call installed and report the error.
    #[verifier::loop_isolation(false)]
    #[verifier::rlimit(100)]
    pub fn map_inner(
        &mut self,
        mem: &mut PhysMemory,
        alloc: &mut FrameAllocator,
        ptr: u64,
        size: u64,
        kind: MappingKind,
        zero: bool,
    ) -> (r: Result<(), MappingError>)
        requires
            old(self).wf(old(mem)@, *old(alloc)),
            range_ok(ptr, size),
            size > 0,
        ensures
            final(self).wf(final(mem)@, *final(alloc)),
            *final(self) == *old(self),
            forall|x: u64|
                x < 512 && t3_def(old(mem)@, old(self).root_spec(), x) ==> #[trigger] t3_def(
                    final(mem)@,
                    old(self).root_spec(),
                    x,
                ),
            r is Ok ==> mapped_post(old(mem)@, final(mem)@, old(self).root_spec(), ptr, size, kind),
            untouched_outside(old(mem)@, final(mem)@, old(self).root_spec(), ptr, size),
            r is Err ==> rolled_back(old(mem)@, final(mem)@, old(self).root_spec()),
            r == Result::<(), MappingError>::Err(MappingError::AlreadyMapped) ==> exists|n: int|
                0 <= n < size / 4096 && #[trigger] leaf_at(
                    old(mem)@,
                    old(self).root_spec(),
                    page_va(ptr, n),
                ) != 0,
            (r matches Err(e) && e matches MappingError::AllocError(_)) ==> final(alloc).free_seq().len()
                == 0,
            (forall|n: int|
                0 <= n < size / 4096 ==> #[trigger] leaf_at(
                    old(mem)@,
                    old(self).root_spec(),
                    page_va(ptr, n),
                ) == 0) && enough_frames(*old(alloc), size) ==> r is Ok,
            final(alloc).free_seq().len() <= old(alloc).free_seq().len(),
            old(alloc).free_seq().len() <= final(alloc).free_seq().len() + 4 * (size / 4096),
            zero && kind != MappingKind::Guard && r is Ok ==> forall|n: int|
                0 <= n < size / 4096 ==> #[trigger] zero_backed(
                    final(mem)@,
                    old(self).root_spec(),
                    ptr,
                    n,
                ),
            kind != MappingKind::Guard && r is Ok ==> forall|n: int|
                0 <= n < size / 4096 ==> old(alloc).free_seq().contains(
                    #[trigger] backing(final(mem)@, old(self).root_spec(), ptr, n),
                ),
            kind != MappingKind::Guard && r is Ok ==> distinct_backings(
                final(mem)@,
                old(self).root_spec(),
                ptr,
                size as int / 4096,
            ),
    {
        let ghost root = self.phys.addr_spec();
        let ghost m0 = old(mem)@;
        let ghost a0_len = old(alloc).free_seq().len() as int;
        let ghost a0_free = old(alloc).free_seq();
        let mut off: u64 = 0;
        while off < size
            invariant
                self.wf(mem@, *alloc),
                *self == *old(self),
                off % 4096 == 0,
                off <= size,
                forall|n: int|
                    0 <= n < off / 4096 ==> #[trigger] query_of(mem@, root, page_va(ptr, n))
                        == Some(kind),
                forall|n: int|
                    0 <= n < off / 4096 ==> #[trigger] leaf_at(m0, root, page_va(ptr, n)) == 0,
                forall|va: u64|
                    !covered(ptr, off, va) ==> #[trigger] leaf_at(mem@, root, va) == leaf_at(
                        m0,
                        root,
                        va,
                    ),
                a0_len - alloc.free_seq().len() <= 4 * (off / 4096),
                alloc.free_seq().len() <= a0_len,
                forall|x: u64|
                    x < 512 && t3_def(m0, root, x) ==> #[trigger] t3_def(mem@, root, x),
                zero && kind != MappingKind::Guard ==> forall|n: int|
                    0 <= n < off / 4096 ==> #[trigger] zero_backed(mem@, root, ptr, n),
                kind != MappingKind::Guard ==> forall|n: int|
                    0 <= n < off / 4096 ==> #[trigger] pinned_frame(
                        mem@,
                        root,
                        alloc.free_seq(),
                        backing(mem@, root, ptr, n),
                    ),
                kind != MappingKind::Guard ==> forall|n: int|
                    0 <= n < off / 4096 ==> a0_free.contains(
                        #[trigger] backing(mem@, root, ptr, n),
                    ),
                kind != MappingKind::Guard ==> distinct_backings(mem@, root, ptr, off as int / 4096),
                forall|x: int|
                    0 <= x < alloc.free_seq().len() ==> #[trigger] alloc.free_seq()[x] == a0_free[x
                        + (a0_len - alloc.free_seq().len())],
            decreases size - off,
        {
            let vaddr = ptr + off;
            let ghost done = off as int / 4096;
            proof {
                lemma_index_bounds(vaddr);
                vstd::arithmetic::div_mod::lemma_fundamental_div_mod(off as int, 4096);
                assert(vaddr == page_va(ptr, done));
                vstd::arithmetic::div_mod::lemma_fundamental_div_mod(size as int, 4096);
                assert(done < size / 4096) by (nonlinear_arith)
                    requires
                        off < size,
                        done == off as int / 4096,
                        4096 * (off as int / 4096) == off,
                        4096 * (size as int / 4096) == size,
                ;
                assert(!covered(ptr, off, vaddr)) by {
                    if covered(ptr, off, vaddr) {
                        let n = choose|n: int|
                            0 <= n < off / 4096 && same_page(vaddr, #[trigger] page_va(ptr, n));
                        assert(off as int / 4096 <= size / 4096);
                        lemma_pages_distinct(ptr, size, n, done);
                    }
                }
            }
            let ghost m_iter = mem@;
            let ghost free_iter = alloc.free_seq();
            let ghost a_iter_len = alloc.free_seq().len() as int;
            let pte = match find_pte_or_create(mem, alloc, &self.phys, vaddr) {
                Ok(p) => p,
                Err(_) => {
                    proof {
                        assert(in_window(ptr, off));
                        if (forall|n: int|
                            0 <= n < size / 4096 ==> #[trigger] leaf_at(m0, root, page_va(ptr, n))
                                == 0) && a0_len >= 4 * (size / 4096) {
                            assert(a_iter_len >= a0_len - 4 * done);
                            assert(4 * (size / 4096) - 4 * done >= 4) by (nonlinear_arith)
                                requires
                                    done < size / 4096,
                            ;
                            assert(false);
                        }
                    }
                    self.unmap_inner(mem, alloc, ptr, off);
                    proof {
                        assert forall|va: u64| #[trigger] leaf_at(mem@, root, va) == leaf_at(
                            m0,
                            root,
                            va,
                        ) by {
                            if covered(ptr, off, va) {
                                let n = choose|n: int|
                                    0 <= n < off / 4096 && same_page(
                                        va,
                                        #[trigger] page_va(ptr, n),
                                    );
                                lemma_same_page_same_leaf(mem@, root, va, page_va(ptr, n));
                                lemma_same_page_same_leaf(m0, root, va, page_va(ptr, n));
                            }
                        }
                    }
                    return Err(MappingError::AllocError(OutOfMemory));
                },
            };
            let ghost m_f = mem@;
            let ghost free_f = alloc.free_seq();
            let ghost a_f_len = alloc.free_seq().len() as int;
            let value = match kind {
                MappingKind::Guard => {
                    proof {
                        lemma_guard_word_facts();
                    }
                    PageTableValue::Special(SPECIAL_GUARD)
                },
                _ => {
                    proof {
                        alloc.lemma_no_double_allocation(mem@);
                    }
                    let drawn = if zero {
                        alloc.alloc_zeroed(mem)
                    } else {
                        alloc.allocate(mem)
                    };
                    match drawn {
                        Ok(frame) => {
                            proof {
                                if zero && alloc.free_seq().len() < a_f_len {
                                    assert(not_table(m_f, root, frame.addr_spec()));
                                    crate::mem::mapping::x86_64::lemma_frame_write_preserves_tree(
                                        m_f,
                                        mem@,
                                        root,
                                        frame.addr_spec(),
                                    );
                                }
                                lemma_kind_flags_wf(kind);
                            }
                            PageTableValue::Mapping {
                                phys: frame,
                                flags: PageTableFlags::from_kind(kind),
                            }
                        },
                        Err(_) => {
                            proof {
                                assert(alloc.free_seq().len() == 0);
                                if (forall|n: int|
                                    0 <= n < size / 4096 ==> #[trigger] leaf_at(
                                        m0,
                                        root,
                                        page_va(ptr, n),
                                    ) == 0) && a0_len >= 4 * (size / 4096) {
                                    assert(a_f_len >= a_iter_len - 3);
                                    assert(a_iter_len >= a0_len - 4 * done);
                                    assert(4 * (size / 4096) - 4 * done >= 4) by (nonlinear_arith)
                                        requires
                                            done < size / 4096,
                                    ;
                                    assert(false);
                                }
                            }
                            self.unmap_inner(mem, alloc, ptr, off);
                            proof {
                                assert forall|va: u64| #[trigger] leaf_at(mem@, root, va)
                                    == leaf_at(m0, root, va) by {
                                    if covered(ptr, off, va) {
                                        let n = choose|n: int|
                                            0 <= n < off / 4096 && same_page(
                                                va,
                                                #[trigger] page_va(ptr, n),
                                            );
                                        lemma_same_page_same_leaf(mem@, root, va, page_va(ptr, n));
                                        lemma_same_page_same_leaf(m0, root, va, page_va(ptr, n));
                                    }
                                }
                            }
                            return Err(MappingError::AllocError(OutOfMemory));
                        },
                    }
                },
            };
            let ghost m_d = mem@;
            let ghost free_d = alloc.free_seq();
            proof {
                assert(t1_def(m_d, root, l4_index(vaddr), l3_index(vaddr), l2_index(vaddr)));
                assert(pte.slot_spec() == t1_at(
                    m_d,
                    root,
                    l4_index(vaddr),
                    l3_index(vaddr),
                    l2_index(vaddr),
                ) + 8 * l1_index(vaddr));
                crate::mem::mapping::x86_64::lemma_leaf_ok_valid(leaf_at(m_d, root, vaddr));
                assert(spec_word_valid(mem_word(m_d, pte.slot_spec() as int)));
            }
            let set_result = pte.set(mem, value);
            match set_result {
                Ok(_) => {
                    proof {
                        let i = l4_index(vaddr);
                        let j = l3_index(vaddr);
                        let k = l2_index(vaddr);
                        let l = l1_index(vaddr);
                        let w = spec_to_u64(value);
                        if kind == MappingKind::Guard {
                            lemma_guard_word_facts();
                            assert(w == GUARD_WORD);
                        } else {
                            lemma_kind_flags_wf(kind);
                            match value {
                                PageTableValue::Mapping { phys: fph, flags: ffl } => {
                                    lemma_mapping_word(fph.addr_spec(), spec_flags_of_kind(kind));
                                },
                                PageTableValue::Special(_) => {
                                    assert(false);
                                },
                            }
                        }
                        assert(crate::mem::mapping::x86_64::leaf_ok(w));
                        lemma_leaf_write(m_d, mem@, root, i, j, k, l, w);
                        let tt = t1_at(m_d, root, i, j, k);
                        alloc.lemma_free_frames_ok(m_d);
                        lemma_slot_in_frame(tt, l);
                        assert forall|x: int, aa: int|
                            0 <= x < alloc.free_seq().len() && in_frame(
                                #[trigger] alloc.free_seq()[x],
                                aa,
                            ) implies #[trigger] mem_word(mem@, aa) == mem_word(m_d, aa) by {
                            assert(not_table(m_d, root, alloc.free_seq()[x]));
                            assert(alloc.free_seq()[x] != tt);
                            lemma_frames_disjoint(tt, alloc.free_seq()[x]);
                            assert(in_frame(tt, tt + 8 * l));
                            assert(aa != tt + 8 * l);
                        }
                        alloc.lemma_wf_preserved(m_d, mem@);
                        assert(query_of(mem@, root, vaddr) == Some(kind)) by {
                            assert(leaf_at(mem@, root, vaddr) == w);
                            if kind == MappingKind::Guard {
                                lemma_guard_word_facts();
                            } else {
                                lemma_present_of_masked(w);
                            }
                        }
                    }
                },
                Err(_) => {
                    proof {
                        assert(leaf_at(m_d, root, vaddr) != 0);
                        assert(leaf_at(m0, root, vaddr) != 0);
                        assert(exists|n: int|
                            0 <= n < size / 4096 && #[trigger] leaf_at(m0, root, page_va(ptr, n))
                                != 0) by {
                            assert(leaf_at(m0, root, page_va(ptr, done)) != 0);
                        }
                    }
                    self.unmap_inner(mem, alloc, ptr, off);
                    proof {
                        assert forall|va: u64| #[trigger] leaf_at(mem@, root, va) == leaf_at(
                            m0,
                            root,
                            va,
                        ) by {
                            if covered(ptr, off, va) {
                                let n = choose|n: int|
                                    0 <= n < off / 4096 && same_page(
                                        va,
                                        #[trigger] page_va(ptr, n),
                                    );
                                lemma_same_page_same_leaf(mem@, root, va, page_va(ptr, n));
                                lemma_same_page_same_leaf(m0, root, va, page_va(ptr, n));
                            }
                        }
                    }
                    return Err(MappingError::AlreadyMapped);
                },
            }
            off = off + 4096;
            proof {
                vstd::arithmetic::div_mod::lemma_fundamental_div_mod(off as int, 4096);
                assert(off as int / 4096 == done + 1) by (nonlinear_arith)
                    requires
                        4096 * (off as int / 4096) == off,
                        off == 4096 * done + 4096,
                ;
                assert forall|n: int| 0 <= n < off / 4096 implies #[trigger] query_of(
                    mem@,
                    root,
                    page_va(ptr, n),
                ) == Some(kind) by {
                    if n < done {
                        lemma_pages_distinct(ptr, size, n, done);
                        assert(!same_page(page_va(ptr, n), vaddr));
                        assert(leaf_at(mem@, root, page_va(ptr, n)) == leaf_at(
                            m_d,
                            root,
                            page_va(ptr, n),
                        ));
                        assert(leaf_at(m_d, root, page_va(ptr, n)) == leaf_at(
                            m_f,
                            root,
                            page_va(ptr, n),
                        ));
                        assert(leaf_at(m_f, root, page_va(ptr, n)) == leaf_at(
                            m_iter,
                            root,
                            page_va(ptr, n),
                        ));
                        assert(query_of(mem@, root, page_va(ptr, n)) == query_of(
                            m_iter,
                            root,
                            page_va(ptr, n),
                        ));
                    }
                }
                assert forall|n: int| 0 <= n < off / 4096 implies #[trigger] leaf_at(
                    m0,
                    root,
                    page_va(ptr, n),
                ) == 0 by {
                    if n == done {
                        assert(leaf_at(m_d, root, vaddr) == 0);
                    }
                }
                assert forall|va: u64| !covered(ptr, off, va) implies #[trigger] leaf_at(
                    mem@,
                    root,
                    va,
                ) == leaf_at(m0, root, va) by {
                    assert(!same_page(va, page_va(ptr, done)));
                    if covered(ptr, (off - 4096) as u64, va) {
                        let n = choose|n: int|
                            0 <= n < (off - 4096) as u64 / 4096 && same_page(
                                va,
                                #[trigger] page_va(ptr, n),
                            );
                        assert((off - 4096) as u64 / 4096 == done) by (nonlinear_arith)
                            requires
                                off == 4096 * done + 4096,
                                done >= 0,
                        ;
                        assert(false);
                    }
                }
                if kind != MappingKind::Guard {
                    let tt = t1_at(m_d, root, l4_index(vaddr), l3_index(vaddr), l2_index(vaddr));
                    alloc.lemma_free_frames_ok(m_d);
                    let bn = match value {
                        PageTableValue::Mapping { phys: fph, .. } => fph.addr_spec(),
                        PageTableValue::Special(_) => 0,
                    };
                    assert(bn == free_f[0]);
                    assert(not_table(m_f, root, bn));
                    assert(crate::mem::mapping::x86_64::pins_hold(
                        m_iter,
                        root,
                        free_iter,
                        m_f,
                        free_f,
                    ));
                    assert(crate::mem::mapping::x86_64::link_target(spec_to_u64(value)) == bn);
                    lemma_backed_pages_maintained(
                        m_iter,
                        free_iter,
                        m_f,
                        free_f,
                        m_d,
                        mem@,
                        alloc.free_seq(),
                        root,
                        ptr,
                        size,
                        done,
                        vaddr,
                        spec_to_u64(value),
                        bn,
                        tt,
                        zero,
                    );
                    let ghost d_iter = a0_len - free_iter.len();
                    let ghost d_f = free_iter.len() - free_f.len();
                    assert(free_f[0] == free_iter[d_f]);
                    assert(free_iter[d_f] == a0_free[d_f + d_iter]);
                    assert(a0_free.contains(bn)) by {
                        assert(a0_free[d_f + d_iter] == bn);
                    }
                    assert forall|n: int| 0 <= n < off / 4096 implies a0_free.contains(
                        #[trigger] backing(mem@, root, ptr, n),
                    ) by {
                        if n < done {
                            assert(backing(mem@, root, ptr, n) == backing(m_iter, root, ptr, n));
                            assert(a0_free.contains(backing(m_iter, root, ptr, n)));
                        } else {
                            assert(backing(mem@, root, ptr, done) == bn);
                        }
                    }
                }
                assert forall|x: int|
                    0 <= x < alloc.free_seq().len() implies #[trigger] alloc.free_seq()[x]
                    == a0_free[x + (a0_len - alloc.free_seq().len())] by {
                    let ghost d_iter = a0_len - free_iter.len();
                    let ghost d_f = free_iter.len() - free_f.len();
                    if kind == MappingKind::Guard {
                        assert(alloc.free_seq()[x] == free_f[x]);
                        assert(free_f[x] == free_iter[x + d_f]);
                        assert(free_iter[x + d_f] == a0_free[x + d_f + d_iter]);
                    } else {
                        assert(alloc.free_seq()[x] == free_f[x + 1]);
                        assert(free_f[x + 1] == free_iter[x + 1 + d_f]);
                        assert(free_iter[x + 1 + d_f] == a0_free[x + 1 + d_f + d_iter]);
                    }
                }
            }
        }
        Ok(())
    }
}

impl KernelMapper {
    /// The page-by-page install loop behind [`Mapper::map_phys`]: like
    /// `map_inner`, but each leaf is bound to the caller-supplied physical
    /// range instead of a freshly drawn frame.
    #[verifier::loop_isolation(false)]
    #[verifier::rlimit(80)]
    pub fn map_phys_inner(
        &mut self,
        mem: &mut PhysMemory,
        alloc: &mut FrameAllocator,
        virt: u64,
        phys: PhysPtr<()>,
        size: u64,
        kind: MappingKind,
    ) -> (r: Result<(), MappingError>)
        requires
            old(self).wf(old(mem)@, *old(alloc)),
            range_ok(virt, size),
            size > 0,
            phys.addr_spec() % PAGE_SIZE == 0,
            phys.addr_spec() + size <= MAX_PHYS_ADDR,
            kind != MappingKind::Guard,
        ensures
            final(self).wf(final(mem)@, *final(alloc)),
            *final(self) == *old(self),
            forall|x: u64|
                x < 512 && t3_def(old(mem)@, old(self).root_spec(), x) ==> #[trigger] t3_def(
                    final(mem)@,
                    old(self).root_spec(),
                    x,
                ),
            r is Ok ==> mapped_post(old(mem)@, final(mem)@, old(self).root_spec(), virt, size, kind),
            r is Ok ==> forall|n: int|
                0 <= n < size / 4096 ==> #[trigger] leaf_at(
                    final(mem)@,
                    old(self).root_spec(),
                    page_va(virt, n),
                ) == (((phys.addr_spec() + 4096 * n) as u64 & !FLAG_MASK) | (spec_flags_of_kind(
                    kind,
                ) & FLAG_MASK)),
            untouched_outside(old(mem)@, final(mem)@, old(self).root_spec(), virt, size),
            r is Err ==> rolled_back(old(mem)@, final(mem)@, old(self).root_spec()),
            r == Result::<(), MappingError>::Err(MappingError::AlreadyMapped) ==> exists|n: int|
                0 <= n < size / 4096 && #[trigger] leaf_at(
                    old(mem)@,
                    old(self).root_spec(),
                    page_va(virt, n),
                ) != 0,
            (r matches Err(e) && e matches MappingError::AllocError(_)) ==> final(alloc).free_seq().len()
                == 0,
            (forall|n: int|
                0 <= n < size / 4096 ==> #[trigger] leaf_at(
                    old(mem)@,
                    old(self).root_spec(),
                    page_va(virt, n),
                ) == 0) && enough_frames(*old(alloc), size) ==> r is Ok,
            final(alloc).free_seq().len() <= old(alloc).free_seq().len(),
            old(alloc).free_seq().len() <= final(alloc).free_seq().len() + 4 * (size / 4096),
    {
        let ghost root = self.phys.addr_spec();
        let ghost m0 = old(mem)@;
        let ghost a0_len = old(alloc).free_seq().len() as int;
        let mut off: u64 = 0;
        while off < size
            invariant
                self.wf(mem@, *alloc),
                *self == *old(self),
                off % 4096 == 0,
                off <= size,
                forall|n: int|
                    0 <= n < off / 4096 ==> #[trigger] query_of(mem@, root, page_va(virt, n))
                        == Some(kind),
                forall|n: int|
                    0 <= n < off / 4096 ==> #[trigger] leaf_at(mem@, root, page_va(virt, n)) == ((
                    (phys.addr_spec() + 4096 * n) as u64 & !FLAG_MASK) | (spec_flags_of_kind(kind)
                        & FLAG_MASK)),
                forall|n: int|
                    0 <= n < off / 4096 ==> #[trigger] leaf_at(m0, root, page_va(virt, n)) == 0,
                forall|va: u64|
                    !covered(virt, off, va) ==> #[trigger] leaf_at(mem@, root, va) == leaf_at(
                        m0,
                        root,
                        va,
                    ),
                a0_len - alloc.free_seq().len() <= 4 * (off / 4096),
                alloc.free_seq().len() <= a0_len,
                forall|x: u64|
                    x < 512 && t3_def(m0, root, x) ==> #[trigger] t3_def(mem@, root, x),
            decreases size - off,
        {
            let vaddr = virt + off;
            let ghost done = off as int / 4096;
            proof {
                lemma_index_bounds(vaddr);
                vstd::arithmetic::div_mod::lemma_fundamental_div_mod(off as int, 4096);
                assert(vaddr == page_va(virt, done));
                vstd::arithmetic::div_mod::lemma_fundamental_div_mod(size as int, 4096);
                assert(done < size / 4096) by (nonlinear_arith)
                    requires
                        off < size,
                        done == off as int / 4096,
                        4096 * (off as int / 4096) == off,
                        4096 * (size as int / 4096) == size,
                ;
                assert(!covered(virt, off, vaddr)) by {
                    if covered(virt, off, vaddr) {
                        let n = choose|n: int|
                            0 <= n < off / 4096 && same_page(vaddr, #[trigger] page_va(virt, n));
                        lemma_pages_distinct(virt, size, n, done);
                    }
                }
            }
            let ghost m_iter = mem@;
            let ghost a_iter_len = alloc.free_seq().len() as int;
            let pte = match find_pte_or_create(mem, alloc, &self.phys, vaddr) {
                Ok(p) => p,
                Err(_) => {
                    proof {
                        if (forall|n: int|
                            0 <= n < size / 4096 ==> #[trigger] leaf_at(m0, root, page_va(virt, n))
                                == 0) && a0_len >= 4 * (size / 4096) {
                            assert(4 * (size / 4096) - 4 * done >= 4) by (nonlinear_arith)
                                requires
                                    done < size / 4096,
                            ;
                            assert(false);
                        }
                    }
                    self.unmap_inner(mem, alloc, virt, off);
                    proof {
                        assert forall|va: u64| #[trigger] leaf_at(mem@, root, va) == leaf_at(
                            m0,
                            root,
                            va,
                        ) by {
                            if covered(virt, off, va) {
                                let n = choose|n: int|
                                    0 <= n < off / 4096 && same_page(
                                        va,
                                        #[trigger] page_va(virt, n),
                                    );
                                lemma_same_page_same_leaf(mem@, root, va, page_va(virt, n));
                                lemma_same_page_same_leaf(m0, root, va, page_va(virt, n));
                            }
                        }
                    }
                    return Err(MappingError::AllocError(OutOfMemory));
                },
            };
            let frame = phys.cast::<Page>().byte_add(off);
            let value = PageTableValue::Mapping { phys: frame, flags: PageTableFlags::from_kind(kind) };
            let ghost m_d = mem@;
            proof {
                lemma_kind_flags_wf(kind);
                assert(frame.addr_spec() == phys.addr_spec() + off);
                assert(frame.addr_spec() % 4096 == 0);
                assert(t1_def(m_d, root, l4_index(vaddr), l3_index(vaddr), l2_index(vaddr)));
                assert(pte.slot_spec() == t1_at(
                    m_d,
                    root,
                    l4_index(vaddr),
                    l3_index(vaddr),
                    l2_index(vaddr),
                ) + 8 * l1_index(vaddr));
                crate::mem::mapping::x86_64::lemma_leaf_ok_valid(leaf_at(m_d, root, vaddr));
            }
            let set_result = pte.set(mem, value);
            match set_result {
                Ok(_) => {
                    proof {
                        let i = l4_index(vaddr);
                        let j = l3_index(vaddr);
                        let k = l2_index(vaddr);
                        let l = l1_index(vaddr);
                        let w = spec_to_u64(value);
                        lemma_mapping_word(frame.addr_spec(), spec_flags_of_kind(kind));
                        assert(crate::mem::mapping::x86_64::leaf_ok(w));
                        lemma_leaf_write(m_d, mem@, root, i, j, k, l, w);
                        let tt = t1_at(m_d, root, i, j, k);
                        alloc.lemma_free_frames_ok(m_d);
                        lemma_slot_in_frame(tt, l);
                        assert forall|x: int, aa: int|
                            0 <= x < alloc.free_seq().len() && in_frame(
                                #[trigger] alloc.free_seq()[x],
                                aa,
                            ) implies #[trigger] mem_word(mem@, aa) == mem_word(m_d, aa) by {
                            assert(not_table(m_d, root, alloc.free_seq()[x]));
                            assert(alloc.free_seq()[x] != tt);
                            lemma_frames_disjoint(tt, alloc.free_seq()[x]);
                            assert(in_frame(tt, tt + 8 * l));
                            assert(aa != tt + 8 * l);
                        }
                        alloc.lemma_wf_preserved(m_d, mem@);
                        assert(query_of(mem@, root, vaddr) == Some(kind)) by {
                            assert(leaf_at(mem@, root, vaddr) == w);
                            lemma_present_of_masked(w);
                        }
                    }
                },
                Err(_) => {
                    proof {
                        assert(leaf_at(m_d, root, vaddr) != 0);
                        assert(leaf_at(m0, root, vaddr) != 0);
                        assert(exists|n: int|
                            0 <= n < size / 4096 && #[trigger] leaf_at(m0, root, page_va(virt, n))
                                != 0) by {
                            assert(leaf_at(m0, root, page_va(virt, done)) != 0);
                        }
                    }
                    self.unmap_inner(mem, alloc, virt, off);
                    proof {
                        assert forall|va: u64| #[trigger] leaf_at(mem@, root, va) == leaf_at(
                            m0,
                            root,
                            va,
                        ) by {
                            if covered(virt, off, va) {
                                let n = choose|n: int|
                                    0 <= n < off / 4096 && same_page(
                                        va,
                                        #[trigger] page_va(virt, n),
                                    );
                                lemma_same_page_same_leaf(mem@, root, va, page_va(virt, n));
                                lemma_same_page_same_leaf(m0, root, va, page_va(virt, n));
                            }
                        }
                    }
                    return Err(MappingError::AlreadyMapped);
                },
            }
            off = off + 4096;
            proof {
                vstd::arithmetic::div_mod::lemma_fundamental_div_mod(off as int, 4096);
                assert(off as int / 4096 == done + 1) by (nonlinear_arith)
                    requires
                        4096 * (off as int / 4096) == off,
                        off == 4096 * done + 4096,
                ;
                assert forall|n: int| 0 <= n < off / 4096 implies #[trigger] query_of(
                    mem@,
                    root,
                    page_va(virt, n),
                ) == Some(kind) && leaf_at(mem@, root, page_va(virt, n)) == (((phys.addr_spec()
                    + 4096 * n) as u64 & !FLAG_MASK) | (spec_flags_of_kind(kind)
                    & FLAG_MASK)) by {
                    if n < done {
                        lemma_pages_distinct(virt, size, n, done);
                        assert(!same_page(page_va(virt, n), vaddr));
                        assert(leaf_at(mem@, root, page_va(virt, n)) == leaf_at(
                            m_d,
                            root,
                            page_va(virt, n),
                        ));
                        assert(leaf_at(m_d, root, page_va(virt, n)) == leaf_at(
                            m_iter,
                            root,
                            page_va(virt, n),
                        ));
                        assert(query_of(mem@, root, page_va(virt, n)) == query_of(
                            m_iter,
                            root,
                            page_va(virt, n),
                        ));
                    } else {
                        assert(n == done);
                        assert(leaf_at(mem@, root, vaddr) == spec_to_u64(value));
                    }
                }
                assert forall|n: int| 0 <= n < off / 4096 implies #[trigger] leaf_at(
                    m0,
                    root,
                    page_va(virt, n),
                ) == 0 by {
                    if n == done {
                        assert(leaf_at(m_d, root, vaddr) == 0);
                    }
                }
                assert forall|va: u64| !covered(virt, off, va) implies #[trigger] leaf_at(
                    mem@,
                    root,
                    va,
                ) == leaf_at(m0, root, va) by {
                    assert(!same_page(va, page_va(virt, done)));
                    if covered(virt, (off - 4096) as u64, va) {
                        let n = choose|n: int|
                            0 <= n < (off - 4096) as u64 / 4096 && same_page(
                                va,
                                #[trigger] page_va(virt, n),
                            );
                        assert((off - 4096) as u64 / 4096 == done) by (nonlinear_arith)
                            requires
                                off == 4096 * done + 4096,
                                done >= 0,
                        ;
                        assert(false);
                    }
                }
            }
        }
        Ok(())
    }
}

/// A sound region descriptor for the initial kernel mapping.
pub open spec fn mapping_entry_ok(e: crate::boot::MemoryMapping) -> bool {
    &&& range_ok(e.virt, e.size)
    &&& e.size > 0
    &&& e.phys.addr_spec() % PAGE_SIZE == 0
    &&& e.phys.addr_spec() + e.size <= MAX_PHYS_ADDR
    &&& e.kind != MappingKind::Guard
}

/// The boot mapping regions walk to pairwise distinct leaf slots.
pub open spec fn mappings_disjoint(s: Seq<crate::boot::MemoryMapping>) -> bool {
    forall|k1: int, k2: int, n1: int, n2: int|
        0 <= k1 < k2 < s.len() && 0 <= n1 < (#[trigger] s[k1]).size / 4096 && 0 <= n2 < (
        #[trigger] s[k2]).size / 4096 ==> !same_page(
            #[trigger] page_va(s[k1].virt, n1),
            #[trigger] page_va(s[k2].virt, n2),
        )
}

/// Whether `va` walks to the same leaf slot as some page of one of the
/// boot mapping regions.
pub open spec fn in_some_region(s: Seq<crate::boot::MemoryMapping>, va: u64) -> bool {
    exists|k: int| 0 <= k < s.len() && covered((#[trigger] s[k]).virt, s[k].size, va)
}

/// How many pages a sequence of boot mapping regions covers.
pub open spec fn total_mapped_pages(s: Seq<crate::boot::MemoryMapping>) -> int
    decreases s.len(),
{
    if s.len() == 0 {
        0
    } else {
        total_mapped_pages(s.drop_last()) + s.last().size / 4096
    }
}

proof fn lemma_total_mapped_pages_nonneg(s: Seq<crate::boot::MemoryMapping>)
    ensures
        total_mapped_pages(s) >= 0,
    decreases s.len(),
{
    if s.len() > 0 {
        lemma_total_mapped_pages_nonneg(s.drop_last());
    }
}

proof fn lemma_total_mapped_pages_split(s: Seq<crate::boot::MemoryMapping>, k: int)
    requires
        0 <= k < s.len(),
    ensures
        total_mapped_pages(s.take(k + 1)) == total_mapped_pages(s.take(k)) + s[k].size / 4096,
        total_mapped_pages(s) >= total_mapped_pages(s.take(k + 1)),
    decreases s.len() - k,
{
    assert(s.take(k + 1).drop_last() =~= s.take(k));
    assert(s.take(k + 1).last() == s[k]);
    if k + 1 == s.len() {
        assert(s.take(k + 1) =~= s);
    } else {
        lemma_total_mapped_pages_split(s, k + 1);
        assert(s[k + 1].size / 4096 >= 0);
    }
}

impl KernelMapper {
    /// Builds the kernel's mapper: a fresh root table whose upper half is
    /// pre-populated with 256 default intermediate tables (so later address
    /// spaces can share the kernel's upper-half entries), then the
    /// boot-reported regions replayed through `map_phys`. On success every
    /// upper-half root slot holds a table link, nothing outside the given
    /// regions translates, and construction consumes at most one frame for
    /// the root, 256 for the defaults, and four per replayed page.
    #[verifier::loop_isolation(false)]
    #[verifier::rlimit(100)]
    pub fn new(
        mem: &mut PhysMemory,
        alloc: &mut FrameAllocator,
        mappings: &Vec<crate::boot::MemoryMapping>,
    ) -> (r: Result<KernelMapper, MappingError>)
        requires
            old(alloc).wf(old(mem)@),
            forall|k: int| 0 <= k < mappings@.len() ==> mapping_entry_ok(#[trigger] mappings@[k]),
        ensures
            r matches Ok(km) ==> km.wf(final(mem)@, *final(alloc)) && (forall|k: int, n: int|
                0 <= k < mappings@.len() && 0 <= n < (#[trigger] mappings@[k]).size / 4096
                    ==> #[trigger] query_of(
                    final(mem)@,
                    km.root_spec(),
                    page_va(mappings@[k].virt, n),
                ) == Some(mappings@[k].kind)),
            r matches Ok(km) ==> forall|i: u64|
                256 <= i < 512 ==> #[trigger] t3_def(final(mem)@, km.root_spec(), i)
                    && is_table_link(tw(final(mem)@, km.root_spec(), i)),
            r matches Ok(km) ==> old(alloc).free_seq().len() - final(alloc).free_seq().len()
                <= 257 + 4 * total_mapped_pages(mappings@),
            r matches Ok(km) ==> forall|va: u64|
                !in_some_region(mappings@, va) ==> #[trigger] leaf_at(
                    final(mem)@,
                    km.root_spec(),
                    va,
                ) == 0 && query_of(final(mem)@, km.root_spec(), va) is None,
            mappings_disjoint(mappings@) && old(alloc).free_seq().len() >= 257 + 4
                * total_mapped_pages(mappings@) ==> r is Ok,
    {
        let ghost a0_len = old(alloc).free_seq().len() as int;
        let ghost hypothesis = mappings_disjoint(mappings@) && a0_len >= 257 + 4
            * total_mapped_pages(mappings@);
        proof {
            lemma_total_mapped_pages_nonneg(mappings@);
            alloc.lemma_no_double_allocation(mem@);
        }
        let root_ptr = match PageTable::new(mem, alloc) {
            Ok(t) => t,
            Err(_) => {
                proof {
                    if hypothesis {
                        assert(false);
                    }
                }
                return Err(MappingError::AllocError(OutOfMemory));
            },
        };
        let ghost root = root_ptr.addr_spec();
        proof {
            assert forall|i: u64| i < 512 implies !crate::mem::mapping::x86_64::t3_def(
                mem@,
                root,
                i,
            ) by {
                assert(crate::mem::mapping::x86_64::tw(mem@, root, i) == 0);
            }
            assert(inv_tree(mem@, root));
            assert forall|q: int| 0 <= q < alloc.free_seq().len() implies not_table(
                mem@,
                root,
                #[trigger] alloc.free_seq()[q],
            ) by {
                assert(alloc.free_seq()[q] == old(alloc).free_seq()[q + 1]);
                assert(old(alloc).free_seq()[q + 1] != old(alloc).free_seq()[0]);
            }
            assert forall|va: u64| #[trigger] leaf_at(mem@, root, va) == 0 by {
                lemma_index_bounds(va);
            }
        }
        let ghost m_root = mem@;
        let mut idx: u64 = 0;
        while idx < 256
            invariant
                0 <= idx <= 256,
                table_ok(root),
                root_ptr.addr_spec() == root,
                root_ptr.wf(),
                inv_tree(mem@, root),
                alloc.wf(mem@),
                forall|q: int|
                    0 <= q < alloc.free_seq().len() ==> not_table(
                        mem@,
                        root,
                        #[trigger] alloc.free_seq()[q],
                    ),
                forall|va: u64| #[trigger] leaf_at(mem@, root, va) == 0,
                forall|x: u64|
                    256 + idx <= x < 512 ==> !crate::mem::mapping::x86_64::t3_def(mem@, root, x),
                forall|x: u64| 256 <= x < 256 + idx ==> #[trigger] t3_def(mem@, root, x),
                a0_len - alloc.free_seq().len() <= 1 + idx,
                alloc.free_seq().len() <= a0_len,
            decreases 256 - idx,
        {
            let ghost slot_index: u64 = (256 + idx) as u64;
            let ghost m_pre = mem@;
            let ghost free_pre = alloc.free_seq();
            proof {
                alloc.lemma_no_double_allocation(mem@);
            }
            let table = match PageTable::new(mem, alloc) {
                Ok(t) => t,
                Err(_) => {
                    proof {
                        if hypothesis {
                            assert(false);
                        }
                    }
                    return Err(MappingError::AllocError(OutOfMemory));
                },
            };
            let ghost f = table.addr_spec();
            proof {
                assert(not_table(m_pre, root, f));
                crate::mem::mapping::x86_64::lemma_frame_write_preserves_tree(m_pre, mem@, root, f);
                assert forall|q: int| 0 <= q < alloc.free_seq().len() implies not_table(
                    mem@,
                    root,
                    #[trigger] alloc.free_seq()[q],
                ) by {
                    assert(alloc.free_seq()[q] == free_pre[q + 1]);
                    assert(not_table(m_pre, root, free_pre[q + 1]));
                }
                assert(!crate::mem::mapping::x86_64::t3_def(mem@, root, slot_index));
                assert(crate::mem::mapping::x86_64::tw(mem@, root, slot_index) == 0);
                crate::mem::mapping::x86_64::lemma_table_flags_producible();
                crate::mem::mapping::x86_64::lemma_flag_values();
                lemma_slot_in_frame(root, slot_index);
                lemma_present_of_masked(0);
            }
            let slot = PageTableEntry::at(&root_ptr, 256 + idx);
            let value = PageTableValue::Mapping {
                phys: table.cast(),
                flags: PageTableFlags::from_kind(MappingKind::Full),
            };
            let ghost m_mid = mem@;
            match slot.set(mem, value) {
                Ok(_) => {
                    proof {
                        crate::mem::mapping::x86_64::lemma_encode_table(f);
                        crate::mem::mapping::x86_64::lemma_table_word_fields(f);
                        assert(mem_word(mem@, root + 8 * slot_index)
                            == crate::mem::mapping::x86_64::table_word(f));
                        crate::mem::mapping::x86_64::lemma_install_l3(m_mid, mem@, root, slot_index, f);
                        alloc.lemma_free_frames_ok(m_mid);
                        assert forall|x: int, aa: int|
                            0 <= x < alloc.free_seq().len() && in_frame(
                                #[trigger] alloc.free_seq()[x],
                                aa,
                            ) implies #[trigger] mem_word(mem@, aa) == mem_word(m_mid, aa) by {
                            assert(not_table(m_mid, root, alloc.free_seq()[x]));
                            assert(alloc.free_seq()[x] != root);
                            lemma_frames_disjoint(root, alloc.free_seq()[x]);
                            lemma_slot_in_frame(root, slot_index);
                            assert(in_frame(root, root + 8 * slot_index));
                            assert(aa != root + 8 * slot_index);
                        }
                        alloc.lemma_wf_preserved(m_mid, mem@);
                        assert forall|q: int| 0 <= q < alloc.free_seq().len() implies not_table(
                            mem@,
                            root,
                            #[trigger] alloc.free_seq()[q],
                        ) by {
                            assert(alloc.free_seq()[q] == free_pre[q + 1]);
                            assert(free_pre[q + 1] != free_pre[0]);
                            assert(not_table(m_mid, root, alloc.free_seq()[q]));
                        }
                    }
                },
                Err(_) => {
                    // The slot was proven empty above, so the store cannot
                    // be refused; this arm is provably unreachable.
                    proof {
                        assert(false);
                    }
                    return Err(MappingError::AlreadyMapped);
                },
            }
            idx = idx + 1;
        }
        let mut res = KernelMapper { phys: root_ptr };
        let mut k: usize = 0;
        while k < mappings.len()
            invariant
                0 <= k <= mappings@.len(),
                res.phys == root_ptr,
                res.wf(mem@, *alloc),
                res.root_spec() == root,
                forall|k2: int, n: int|
                    0 <= k2 < k && 0 <= n < (#[trigger] mappings@[k2]).size / 4096
                        ==> #[trigger] query_of(mem@, root, page_va(mappings@[k2].virt, n)) == Some(
                        mappings@[k2].kind,
                    ),
                hypothesis ==> forall|k2: int, n: int|
                    k <= k2 < mappings@.len() && 0 <= n < (#[trigger] mappings@[k2]).size / 4096
                        ==> #[trigger] leaf_at(mem@, root, page_va(mappings@[k2].virt, n)) == 0,
                a0_len - alloc.free_seq().len() <= 257 + 4 * total_mapped_pages(
                    mappings@.take(k as int),
                ),
                forall|x: u64| 256 <= x < 512 ==> #[trigger] t3_def(mem@, root, x),
                forall|va: u64|
                    !in_some_region(mappings@.take(k as int), va) ==> #[trigger] leaf_at(
                        mem@,
                        root,
                        va,
                    ) == 0,
            decreases mappings@.len() - k,
        {
            let e = mappings[k];
            let ghost m_k = mem@;
            let ghost a_k_len = alloc.free_seq().len() as int;
            proof {
                if hypothesis {
                    lemma_total_mapped_pages_split(mappings@, k as int);
                    assert(4 * total_mapped_pages(mappings@) >= 4 * total_mapped_pages(
                        mappings@.take(k as int),
                    ) + 4 * (e.size / 4096)) by (nonlinear_arith)
                        requires
                            total_mapped_pages(mappings@) >= total_mapped_pages(
                                mappings@.take(k as int + 1),
                            ),
                            total_mapped_pages(mappings@.take(k as int + 1)) == total_mapped_pages(
                                mappings@.take(k as int),
                            ) + e.size / 4096,
                            e == mappings@[k as int],
                    ;
                    assert(enough_frames(*alloc, e.size));
                }
            }
            let step = res.map_phys_inner(mem, alloc, e.virt, e.phys, e.size, e.kind);
            match step {
                Ok(_) => {
                    proof {
                        assert forall|k2: int, n: int|
                            0 <= k2 < k + 1 && 0 <= n < (#[trigger] mappings@[k2]).size / 4096
                            implies #[trigger] query_of(
                            mem@,
                            root,
                            page_va(mappings@[k2].virt, n),
                        ) == Some(mappings@[k2].kind) by {
                            if k2 < k {
                                let p = page_va(mappings@[k2].virt, n);
                                if covered(e.virt, e.size, p) {
                                    let n2 = choose|n2: int|
                                        0 <= n2 < e.size / 4096 && same_page(
                                            p,
                                            #[trigger] page_va(e.virt, n2),
                                        );
                                    lemma_same_page_same_leaf(m_k, root, p, page_va(e.virt, n2));
                                    assert(leaf_at(m_k, root, page_va(e.virt, n2)) == 0);
                                    assert(query_of(m_k, root, p) == Some(mappings@[k2].kind));
                                    assert(leaf_at(m_k, root, p) == 0);
                                    assert(false);
                                }
                                assert(leaf_at(mem@, root, p) == leaf_at(m_k, root, p));
                            }
                        }
                        if hypothesis {
                            assert forall|k2: int, n: int|
                                k + 1 <= k2 < mappings@.len() && 0 <= n < (
                                #[trigger] mappings@[k2]).size / 4096 implies #[trigger] leaf_at(
                                mem@,
                                root,
                                page_va(mappings@[k2].virt, n),
                            ) == 0 by {
                                let p = page_va(mappings@[k2].virt, n);
                                if covered(e.virt, e.size, p) {
                                    let n2 = choose|n2: int|
                                        0 <= n2 < e.size / 4096 && same_page(
                                            p,
                                            #[trigger] page_va(e.virt, n2),
                                        );
                                    assert(!same_page(page_va(mappings@[k as int].virt, n2), p));
                                    assert(false);
                                }
                                assert(leaf_at(mem@, root, p) == leaf_at(m_k, root, p));
                            }
                        }
                        lemma_total_mapped_pages_split(mappings@, k as int);
                        assert forall|va: u64|
                            !in_some_region(mappings@.take(k as int + 1), va) implies #[trigger] leaf_at(
                            mem@,
                            root,
                            va,
                        ) == 0 by {
                            assert(mappings@.take(k as int + 1)[k as int] == mappings@[k as int]);
                            if covered(e.virt, e.size, va) {
                                assert(covered(
                                    mappings@.take(k as int + 1)[k as int].virt,
                                    mappings@.take(k as int + 1)[k as int].size,
                                    va,
                                ));
                                assert(false);
                            }
                            assert(leaf_at(mem@, root, va) == leaf_at(m_k, root, va));
                            if in_some_region(mappings@.take(k as int), va) {
                                let k2 = choose|k2: int|
                                    0 <= k2 < mappings@.take(k as int).len() && covered(
                                        (#[trigger] mappings@.take(k as int)[k2]).virt,
                                        mappings@.take(k as int)[k2].size,
                                        va,
                                    );
                                assert(mappings@.take(k as int + 1)[k2] == mappings@.take(
                                    k as int,
                                )[k2]);
                                assert(covered(
                                    mappings@.take(k as int + 1)[k2].virt,
                                    mappings@.take(k as int + 1)[k2].size,
                                    va,
                                ));
                                assert(false);
                            }
                        }
                    }
                },
                Err(er) => {
                    proof {
                        if hypothesis {
                            assert(false);
                        }
                    }
                    return Err(er);
                },
            }
            k = k + 1;
        }
        proof {
            assert(mappings@.take(mappings@.len() as int) =~= mappings@);
        }
        Ok(res)
    }
}

} // verus!
