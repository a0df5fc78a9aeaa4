//! The pure boot-map computations: filtering usable ranges and building the
//! initial kernel mapping list.

use kernel_mm::boot::{phys_memmap_usable, virt_memmap, BootEntry, BootEntryKind, KernelImage};
use kernel_mm::mem::mapping::MappingKind;
use kernel_mm::mem::paging::Page;
use kernel_mm::mem::physmem::PhysMemory;
use kernel_mm::mem::physptr::PhysPtr;

fn sample_entries() -> Vec<BootEntry> {
    vec![
        BootEntry { base: 0x1000, length: 0x2000, kind: BootEntryKind::Usable },
        BootEntry { base: 0x100000, length: 0x40000, kind: BootEntryKind::Reserved },
        BootEntry { base: 0x200000, length: 0x10000, kind: BootEntryKind::BootloaderReclaimable },
        BootEntry { base: 0x300000, length: 0x8000, kind: BootEntryKind::Framebuffer },
        BootEntry { base: 0x400000, length: 0x5000, kind: BootEntryKind::Usable },
    ]
}

#[test]
fn usable_filter_keeps_exactly_the_usable_ranges() {
    let usable = phys_memmap_usable(&sample_entries());
    assert_eq!(usable.len(), 2);
    assert_eq!(usable[0].ptr.addr(), 0x1000);
    assert_eq!(usable[0].size, 0x2000);
    assert_eq!(usable[1].ptr.addr(), 0x400000);
    assert_eq!(usable[1].size, 0x5000);
}

#[test]
fn virt_memmap_builds_regions_then_image_sections() {
    let hhdm = 0xFFFF_8000_0000_0000u64;
    let img = KernelImage {
        elf_start: 0xFFFF_FFFF_8000_0000,
        text_start: 0xFFFF_FFFF_8000_1000,
        text_end: 0xFFFF_FFFF_8000_5000,
        rodata_start: 0xFFFF_FFFF_8000_5000,
        rodata_end: 0xFFFF_FFFF_8000_7000,
        data_start: 0xFFFF_FFFF_8000_7000,
        data_end: 0xFFFF_FFFF_8000_9000,
        kernel_virt: 0xFFFF_FFFF_8000_0000,
        kernel_phys: PhysPtr::new(0x1_000_000),
    };
    let maps = virt_memmap(&sample_entries(), hhdm, img);
    // Four non-reserved regions plus the three image sections.
    assert_eq!(maps.len(), 7);
    assert_eq!(maps[0].virt, hhdm + 0x1000);
    assert_eq!(maps[0].phys.addr(), 0x1000);
    assert!(matches!(maps[0].kind, MappingKind::ReadWrite));
    assert!(matches!(maps[2].kind, MappingKind::Framebuffer));
    assert_eq!(maps[2].phys.addr(), 0x300000);
    // The image sections carry their own kinds and relocated addresses.
    assert!(matches!(maps[4].kind, MappingKind::Code));
    assert_eq!(maps[4].virt, 0xFFFF_FFFF_8000_1000);
    assert_eq!(maps[4].phys.addr(), 0x1_000_000 + 0x1000);
    assert_eq!(maps[4].size, 0x4000);
    assert!(matches!(maps[5].kind, MappingKind::ReadOnly));
    assert!(matches!(maps[6].kind, MappingKind::ReadWrite));
    assert_eq!(maps[6].size, 0x2000);
}

#[test]
fn fill_zero_scrubs_a_frame() {
    let mut mem = PhysMemory::new();
    let frame: PhysPtr<Page> = PhysPtr::new(0x7000);
    mem.write_word(0x7000, 0xDEAD_BEEF);
    mem.write_word(0x7000 + 8 * 511, 0x1234);
    Page::fill_zero(&mut mem, frame);
    for q in 0..512u64 {
        assert_eq!(mem.read_word(0x7000 + 8 * q), 0);
    }
}
