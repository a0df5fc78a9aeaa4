//! The virtual memory mapper: mapping, querying, unmapping, guard pages,
//! double-map rejection with rollback, and the physical-range variant.

use kernel_mm::mem::mapping::{KernelMapper, Mapper, MappingError, MappingKind};
use kernel_mm::mem::phys::FrameAllocator;
use kernel_mm::mem::physmem::PhysMemory;
use kernel_mm::mem::physptr::PhysPtr;
use kernel_mm::mem::MemoryEntry;

/// A fresh system over one 4 MiB usable region: memory, allocator, and the
/// kernel mapper with no initial regions.
fn fresh_system() -> (PhysMemory, FrameAllocator, KernelMapper) {
    let mut mem = PhysMemory::new();
    let usable = vec![MemoryEntry { ptr: PhysPtr::new(0x100000), size: 1024 * 4096 }];
    let mut alloc = FrameAllocator::from_usable(&mut mem, &usable);
    let empty: Vec<kernel_mm::boot::MemoryMapping> = Vec::new();
    let mapper = KernelMapper::new(&mut mem, &mut alloc, &empty)
        .expect("enough frames for the kernel mapper");
    (mem, alloc, mapper)
}

const BASE: u64 = 0xFFFF_8000_0000_0000;

#[test]
fn map_then_query_every_page() {
    let (mut mem, mut alloc, mut mapper) = fresh_system();
    mapper
        .map(&mut mem, &mut alloc, BASE, 4 * 4096, MappingKind::Code)
        .expect("mapping four fresh pages succeeds");
    for n in 0..4u64 {
        assert_eq!(
            mapper.query(&mem, &alloc, BASE + n * 4096),
            Some(MappingKind::Code)
        );
    }
    // The page after the range is untouched.
    assert_eq!(mapper.query(&mem, &alloc, BASE + 4 * 4096), None);
}

#[test]
fn map_kinds_survive_the_query_round_trip() {
    let kinds = [
        MappingKind::Code,
        MappingKind::ReadOnly,
        MappingKind::ReadWrite,
        MappingKind::Full,
        MappingKind::Guard,
        MappingKind::Mmio,
        MappingKind::Framebuffer,
    ];
    let (mut mem, mut alloc, mut mapper) = fresh_system();
    for (n, kind) in kinds.iter().enumerate() {
        let va = BASE + (n as u64) * 4096;
        mapper
            .map(&mut mem, &mut alloc, va, 4096, *kind)
            .expect("mapping one fresh page succeeds");
        assert_eq!(mapper.query(&mem, &alloc, va), Some(*kind));
    }
}

#[test]
fn guard_page_is_distinct_from_unmapped() {
    let (mut mem, mut alloc, mut mapper) = fresh_system();
    mapper
        .map(&mut mem, &mut alloc, BASE, 4096, MappingKind::Guard)
        .expect("mapping a guard page succeeds");
    assert_eq!(mapper.query(&mem, &alloc, BASE), Some(MappingKind::Guard));
    assert_ne!(mapper.query(&mem, &alloc, BASE), None);
    assert_eq!(mapper.query(&mem, &alloc, BASE + 4096), None);
}

#[test]
fn unmap_clears_and_remapping_succeeds() {
    let (mut mem, mut alloc, mut mapper) = fresh_system();
    mapper
        .map(&mut mem, &mut alloc, BASE, 2 * 4096, MappingKind::ReadWrite)
        .expect("first mapping succeeds");
    mapper.unmap(&mut mem, &alloc, BASE, 2 * 4096);
    assert_eq!(mapper.query(&mem, &alloc, BASE), None);
    assert_eq!(mapper.query(&mem, &alloc, BASE + 4096), None);
    mapper
        .map(&mut mem, &mut alloc, BASE, 2 * 4096, MappingKind::ReadOnly)
        .expect("remapping an unmapped range succeeds with any kind");
    assert_eq!(mapper.query(&mem, &alloc, BASE), Some(MappingKind::ReadOnly));
}

#[test]
fn unmap_of_never_mapped_range_is_a_no_op() {
    let (mut mem, mut alloc, mut mapper) = fresh_system();
    mapper.unmap(&mut mem, &alloc, BASE, 8 * 4096);
    assert_eq!(mapper.query(&mem, &alloc, BASE), None);
}

#[test]
fn double_map_is_rejected_and_rolled_back() {
    let (mut mem, mut alloc, mut mapper) = fresh_system();
    // Occupy the middle page of the range about to be requested.
    mapper
        .map(&mut mem, &mut alloc, BASE + 4096, 4096, MappingKind::ReadOnly)
        .expect("priming mapping succeeds");
    let e = mapper
        .map(&mut mem, &mut alloc, BASE, 3 * 4096, MappingKind::ReadWrite)
        .expect_err("a colliding mapping is refused");
    assert_eq!(e, MappingError::AlreadyMapped);
    // Rollback: the whole attempted range reads exactly as before the call.
    assert_eq!(mapper.query(&mem, &alloc, BASE), None);
    assert_eq!(
        mapper.query(&mem, &alloc, BASE + 4096),
        Some(MappingKind::ReadOnly)
    );
    assert_eq!(mapper.query(&mem, &alloc, BASE + 2 * 4096), None);
}

#[test]
fn map_phys_binds_and_unmaps_both_pages() {
    let (mut mem, mut alloc, mut mapper) = fresh_system();
    mapper
        .map_phys(
            &mut mem,
            &mut alloc,
            0xFFFF_8000_0000_0000,
            PhysPtr::new(0x200000),
            8192,
            MappingKind::ReadWrite,
        )
        .expect("binding two physical pages succeeds");
    assert_eq!(
        mapper.query(&mem, &alloc, 0xFFFF_8000_0000_0000),
        Some(MappingKind::ReadWrite)
    );
    assert_eq!(
        mapper.query(&mem, &alloc, 0xFFFF_8000_0000_1000),
        Some(MappingKind::ReadWrite)
    );
    mapper.unmap(&mut mem, &alloc, 0xFFFF_8000_0000_0000, 8192);
    assert_eq!(mapper.query(&mem, &alloc, 0xFFFF_8000_0000_0000), None);
    assert_eq!(mapper.query(&mem, &alloc, 0xFFFF_8000_0000_1000), None);
}

#[test]
fn map_zeroed_reports_the_kind_like_map() {
    let (mut mem, mut alloc, mut mapper) = fresh_system();
    mapper
        .map_zeroed(&mut mem, &mut alloc, BASE, 2 * 4096, MappingKind::ReadWrite)
        .expect("zeroed mapping succeeds");
    assert_eq!(mapper.query(&mem, &alloc, BASE), Some(MappingKind::ReadWrite));
    assert_eq!(
        mapper.query(&mem, &alloc, BASE + 4096),
        Some(MappingKind::ReadWrite)
    );
}

#[test]
fn exhaustion_reports_alloc_error() {
    let mut mem = PhysMemory::new();
    // 258 frames: the kernel mapper's own construction takes 257 of them.
    let usable = vec![MemoryEntry { ptr: PhysPtr::new(0x100000), size: 258 * 4096 }];
    let mut alloc = FrameAllocator::from_usable(&mut mem, &usable);
    let empty: Vec<kernel_mm::boot::MemoryMapping> = Vec::new();
    let mut mapper =
        KernelMapper::new(&mut mem, &mut alloc, &empty).expect("construction fits");
    // One page still fits (tables for the walk plus the data frame would
    // need more than one frame, so this already fails inside the walk).
    let e = mapper
        .map(&mut mem, &mut alloc, BASE, 16 * 4096, MappingKind::ReadWrite)
        .expect_err("the free list runs dry");
    assert_eq!(e, MappingError::AllocError(kernel_mm::mem::mapping::OutOfMemory));
    // Rollback left the range unmapped.
    assert_eq!(mapper.query(&mem, &alloc, BASE), None);
}

#[test]
fn kernel_mapper_replays_boot_regions() {
    let mut mem = PhysMemory::new();
    let usable = vec![MemoryEntry { ptr: PhysPtr::new(0x100000), size: 1024 * 4096 }];
    let mut alloc = FrameAllocator::from_usable(&mut mem, &usable);
    let regions = vec![kernel_mm::boot::MemoryMapping {
        kind: MappingKind::ReadWrite,
        virt: 0xFFFF_9000_0000_0000,
        phys: PhysPtr::new(0x300000),
        size: 8192,
    }];
    let mapper = KernelMapper::new(&mut mem, &mut alloc, &regions)
        .expect("construction with one region succeeds");
    assert_eq!(
        mapper.query(&mem, &alloc, 0xFFFF_9000_0000_0000),
        Some(MappingKind::ReadWrite)
    );
    assert_eq!(
        mapper.query(&mem, &alloc, 0xFFFF_9000_0000_1000),
        Some(MappingKind::ReadWrite)
    );
    assert_eq!(mapper.query(&mem, &alloc, 0xFFFF_9000_0000_2000), None);
}
