//! The frame allocator over a synthetic boot memory map.

use kernel_mm::mem::physmem::PhysMemory;
use kernel_mm::mem::physptr::PhysPtr;
use kernel_mm::mem::phys::FrameAllocator;
use kernel_mm::mem::MemoryEntry;

fn one_region(base: u64, size: u64) -> Vec<MemoryEntry> {
    vec![MemoryEntry { ptr: PhysPtr::new(base), size }]
}

#[test]
fn boot_region_alloc_exhaust_dealloc_realloc() {
    // One 64 KiB usable region at 0x100000: exactly 16 frames.
    let mut mem = PhysMemory::new();
    let mut alloc = FrameAllocator::from_usable(&mut mem, &one_region(0x100000, 64 * 1024));

    let mut got: Vec<u64> = Vec::new();
    for _ in 0..16 {
        let f = alloc.allocate(&mem).expect("a frame should be left");
        let a = f.addr();
        assert!(a >= 0x100000 && a < 0x100000 + 64 * 1024);
        assert_eq!(a % 4096, 0);
        assert!(!got.contains(&a), "no frame is handed out twice");
        got.push(a);
    }
    // All of it is gone now.
    assert!(alloc.allocate(&mem).is_err());
    // Giving one frame back makes the next allocation return exactly it.
    let back = PhysPtr::new(got[7]);
    alloc.dealloc(&mut mem, back);
    let again = alloc.allocate(&mem).expect("the freed frame is available");
    assert_eq!(again.addr(), got[7]);
}

#[test]
fn alloc_zeroed_scrubs_the_whole_frame() {
    let mut mem = PhysMemory::new();
    let mut alloc = FrameAllocator::from_usable(&mut mem, &one_region(0x200000, 16 * 4096));
    // The free list itself dirties the first words of every free frame, so a
    // zeroed allocation must visibly scrub them.
    let f = alloc.alloc_zeroed(&mut mem).expect("a frame should be left");
    for q in 0..512u64 {
        assert_eq!(mem.read_word(f.addr() + 8 * q), 0);
    }
    // A plain allocation after a dealloc hands the link words back as they
    // were written, which is what the zeroed variant must clean up.
    alloc.dealloc(&mut mem, f);
    let g = alloc.allocate(&mem).expect("a frame should be left");
    assert_eq!(g.addr(), f.addr());
}

#[test]
fn two_regions_count_frames() {
    let mut mem = PhysMemory::new();
    let regions = vec![
        MemoryEntry { ptr: PhysPtr::new(0x100000), size: 2 * 4096 },
        MemoryEntry { ptr: PhysPtr::new(0x800000), size: 3 * 4096 },
    ];
    let mut alloc = FrameAllocator::from_usable(&mut mem, &regions);
    for _ in 0..5 {
        assert!(alloc.allocate(&mem).is_ok());
    }
    assert!(alloc.allocate(&mem).is_err());
}
