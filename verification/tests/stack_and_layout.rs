//! Kernel stacks, the page bump allocator, alignment helpers, and the
//! permission taxonomy.

use kernel_mm::alloc_page::{PageAllocator, PageRange};
use kernel_mm::mem::mapping::{KernelMapper, Mapper, MappingKind};
use kernel_mm::mem::phys::FrameAllocator;
use kernel_mm::mem::physmem::PhysMemory;
use kernel_mm::mem::physptr::PhysPtr;
use kernel_mm::mem::{align_down, align_up, MemoryEntry};
use kernel_mm::stack::{Stack, STACK_SIZE};

#[test]
fn stack_maps_guards_and_pages() {
    let mut mem = PhysMemory::new();
    let usable = vec![MemoryEntry { ptr: PhysPtr::new(0x100000), size: 1024 * 4096 }];
    let mut alloc = FrameAllocator::from_usable(&mut mem, &usable);
    let empty: Vec<kernel_mm::boot::MemoryMapping> = Vec::new();
    let mut mapper = KernelMapper::new(&mut mem, &mut alloc, &empty).expect("mapper fits");

    let base = 0xFFFF_A000_0000_0000u64;
    let stack = Stack::new(&mut mapper, &mut mem, &mut alloc, base).expect("stack fits");
    assert_eq!(stack.stack_pointer(), base + STACK_SIZE + 4096);
    // Low guard, stack pages, high guard.
    assert_eq!(mapper.query(&mem, &alloc, base), Some(MappingKind::Guard));
    assert_eq!(
        mapper.query(&mem, &alloc, base + 4096),
        Some(MappingKind::ReadWrite)
    );
    assert_eq!(
        mapper.query(&mem, &alloc, base + STACK_SIZE),
        Some(MappingKind::ReadWrite)
    );
    assert_eq!(
        mapper.query(&mem, &alloc, base + STACK_SIZE + 4096),
        Some(MappingKind::Guard)
    );
    assert_eq!(
        mapper.query(&mem, &alloc, base + STACK_SIZE + 2 * 4096),
        None
    );
}

#[test]
fn page_allocator_bumps_and_runs_out() {
    let range = PageRange { start: 0xFFFF_B000_0000_0000, end: 0xFFFF_B000_0000_4000 };
    let mut pa = PageAllocator::new(range);
    let a = pa.alloc_pages(2).expect("two pages fit");
    assert_eq!(a, PageRange { start: 0xFFFF_B000_0000_0000, end: 0xFFFF_B000_0000_2000 });
    let b = pa.alloc_pages(2).expect("two more pages fit");
    assert_eq!(b, PageRange { start: 0xFFFF_B000_0000_2000, end: 0xFFFF_B000_0000_4000 });
    assert_eq!(pa.alloc_pages(1), None);
}

#[test]
fn align_helpers_round_as_documented() {
    assert_eq!(align_up(0x1001, 0x1000), 0x2000);
    assert_eq!(align_up(0x1000, 0x1000), 0x1000);
    assert_eq!(align_down(0x1FFF, 0x1000), 0x1000);
    assert_eq!(align_down(0x2000, 0x1000), 0x2000);
    assert_eq!(align_up(7, 8), 8);
    assert_eq!(align_down(7, 8), 0);
}

#[test]
fn permission_taxonomy_matches_the_design() {
    assert!(MappingKind::Code.can_read());
    assert!(!MappingKind::Code.can_write());
    assert!(MappingKind::Code.can_execute());
    assert!(MappingKind::ReadOnly.can_read());
    assert!(!MappingKind::ReadOnly.can_write());
    assert!(!MappingKind::ReadOnly.can_execute());
    assert!(MappingKind::ReadWrite.can_read());
    assert!(MappingKind::ReadWrite.can_write());
    assert!(!MappingKind::ReadWrite.can_execute());
    assert!(MappingKind::Full.can_read());
    assert!(MappingKind::Full.can_write());
    assert!(MappingKind::Full.can_execute());
    assert!(!MappingKind::Guard.can_read());
    assert!(!MappingKind::Guard.can_write());
    assert!(!MappingKind::Guard.can_execute());
    assert!(MappingKind::Mmio.can_read());
    assert!(MappingKind::Mmio.can_write());
    assert!(!MappingKind::Mmio.can_execute());
    assert!(!MappingKind::Framebuffer.can_read());
    assert!(MappingKind::Framebuffer.can_write());
    assert!(!MappingKind::Framebuffer.can_execute());
}

#[test]
fn phys_ptr_cast_keeps_the_address() {
    let p: PhysPtr<kernel_mm::mem::paging::Page> = PhysPtr::new(0x1234000);
    let q: PhysPtr<u64> = p.cast();
    let back: PhysPtr<kernel_mm::mem::paging::Page> = q.cast();
    assert_eq!(back.addr(), p.addr());
    assert_eq!(p.byte_add(0x1000).addr(), 0x1235000);
    assert_eq!(p.as_ptr(0xFFFF_8000_0000_0000), 0xFFFF_8000_0000_0000u64 + 0x1234000);
}
