//! Pure views of what the bootloader hands over: the physical memory map
//! and the initial kernel mapping list. Reading the boot protocol itself is
//! platform glue; these functions do only the filtering and arithmetic on
//! the plain values it yields.

use vstd::prelude::*;

use crate::mem::mapping::MappingKind;
use crate::mem::physptr::PhysPtr;
use crate::mem::{MemoryEntry, MAX_PHYS_ADDR};

verus! {

/// What kind of region one boot memory-map entry describes.
#[derive(Debug, Clone, Copy, PartialEq, Eq, Structural)]
pub enum BootEntryKind {
    Usable,
    AcpiReclaimable,
    BootloaderReclaimable,
    KernelAndModules,
    Framebuffer,
    Reserved,
}

/// One entry of the boot memory map: a physical range with its kind.
#[derive(Debug, Clone, Copy)]
pub struct BootEntry {
    pub base: u64,
    pub length: u64,
    pub kind: BootEntryKind,
}

/// One region of the initial kernel mapping: a virtual range bound to a
/// physical range with a permission kind.
#[derive(Debug, Clone, Copy)]
pub struct MemoryMapping {
    pub kind: MappingKind,
    pub virt: u64,
    pub phys: PhysPtr<()>,
    pub size: u64,
}

/// The usable ranges of a boot memory map, in order.
pub open spec fn spec_usable(s: Seq<BootEntry>) -> Seq<MemoryEntry>
    decreases s.len(),
{
    if s.len() == 0 {
        Seq::empty()
    } else {
        spec_usable(s.drop_last()) + (if s.last().kind == BootEntryKind::Usable {
            seq![
                MemoryEntry {
                    ptr: crate::mem::physptr::spec_phys_ptr(s.last().base),
                    size: s.last().length,
                },
            ]
        } else {
            Seq::empty()
        })
    }
}

/// Filters the boot memory map down to the usable physical ranges, the
/// input of the frame allocator.
pub fn phys_memmap_usable(entries: &Vec<BootEntry>) -> (r: Vec<MemoryEntry>)
    requires
        forall|k: int|
            0 <= k < entries@.len() && (#[trigger] entries@[k]).kind == BootEntryKind::Usable
                ==> entries@[k].base < MAX_PHYS_ADDR,
    ensures
        r@ == spec_usable(entries@),
{
    let mut r: Vec<MemoryEntry> = Vec::new();
    let mut k: usize = 0;
    while k < entries.len()
        invariant
            0 <= k <= entries@.len(),
            forall|x: int|
                0 <= x < entries@.len() && (#[trigger] entries@[x]).kind == BootEntryKind::Usable
                    ==> entries@[x].base < MAX_PHYS_ADDR,
            r@ == spec_usable(entries@.take(k as int)),
        decreases entries@.len() - k,
    {
        let e = entries[k];
        proof {
            assert(entries@.take(k as int + 1).drop_last() =~= entries@.take(k as int));
            assert(entries@.take(k as int + 1).last() == entries@[k as int]);
        }
        match e.kind {
            BootEntryKind::Usable => {
                let p: PhysPtr<()> = PhysPtr::new(e.base);
                r.push(MemoryEntry { ptr: p, size: e.length });
                proof {
                    crate::mem::physptr::lemma_phys_ptr_ext::<()>(
                        p,
                        crate::mem::physptr::spec_phys_ptr(e.base),
                    );
                    assert(r@ =~= spec_usable(entries@.take(k as int + 1)));
                }
            },
            _ => {
                proof {
                    assert(r@ =~= spec_usable(entries@.take(k as int + 1)));
                }
            },
        }
        k = k + 1;
    }
    proof {
        assert(entries@.take(entries@.len() as int) =~= entries@);
    }
    r
}

/// The load addresses of the kernel image's sections, as the linker and
/// bootloader report them.
#[derive(Debug, Clone, Copy)]
pub struct KernelImage {
    pub elf_start: u64,
    pub text_start: u64,
    pub text_end: u64,
    pub rodata_start: u64,
    pub rodata_end: u64,
    pub data_start: u64,
    pub data_end: u64,
    pub kernel_virt: u64,
    pub kernel_phys: PhysPtr<()>,
}

/// A sound kernel-image descriptor: ordered sections inside the image, and
/// physical placements that stay below the physical limit.
pub open spec fn image_ok(img: KernelImage) -> bool {
    &&& img.elf_start <= img.text_start <= img.text_end
    &&& img.elf_start <= img.rodata_start <= img.rodata_end
    &&& img.elf_start <= img.data_start <= img.data_end
    &&& img.kernel_virt >= img.elf_start
    &&& img.kernel_virt - img.elf_start + img.text_start <= u64::MAX
    &&& img.kernel_virt - img.elf_start + img.rodata_start <= u64::MAX
    &&& img.kernel_virt - img.elf_start + img.data_start <= u64::MAX
    &&& img.kernel_phys.addr_spec() + (img.text_start - img.elf_start) < MAX_PHYS_ADDR
    &&& img.kernel_phys.addr_spec() + (img.rodata_start - img.elf_start) < MAX_PHYS_ADDR
    &&& img.kernel_phys.addr_spec() + (img.data_start - img.elf_start) < MAX_PHYS_ADDR
    &&& img.kernel_phys.wf()
}

/// The three mappings that cover the kernel image's sections, relocated by
/// the load offset.
pub open spec fn spec_image_mappings(img: KernelImage) -> Seq<MemoryMapping> {
    let kaslr = img.kernel_virt - img.elf_start;
    seq![
        MemoryMapping {
            kind: MappingKind::Code,
            virt: (img.text_start + kaslr) as u64,
            phys: crate::mem::physptr::spec_phys_ptr(
                (img.kernel_phys.addr_spec() + (img.text_start - img.elf_start)) as u64,
            ),
            size: (img.text_end - img.text_start) as u64,
        },
        MemoryMapping {
            kind: MappingKind::ReadOnly,
            virt: (img.rodata_start + kaslr) as u64,
            phys: crate::mem::physptr::spec_phys_ptr(
                (img.kernel_phys.addr_spec() + (img.rodata_start - img.elf_start)) as u64,
            ),
            size: (img.rodata_end - img.rodata_start) as u64,
        },
        MemoryMapping {
            kind: MappingKind::ReadWrite,
            virt: (img.data_start + kaslr) as u64,
            phys: crate::mem::physptr::spec_phys_ptr(
                (img.kernel_phys.addr_spec() + (img.data_start - img.elf_start)) as u64,
            ),
            size: (img.data_end - img.data_start) as u64,
        },
    ]
}

/// The direct-map mappings of the reclaimable and framebuffer regions: each
/// such region is mapped at its linear-map address, read-write, except the
/// framebuffer which keeps its own caching kind.
pub open spec fn spec_region_mappings(s: Seq<BootEntry>, hhdm: u64) -> Seq<MemoryMapping>
    decreases s.len(),
{
    if s.len() == 0 {
        Seq::empty()
    } else {
        spec_region_mappings(s.drop_last(), hhdm) + (match s.last().kind {
            BootEntryKind::Usable | BootEntryKind::AcpiReclaimable
                | BootEntryKind::BootloaderReclaimable | BootEntryKind::KernelAndModules => seq![
                MemoryMapping {
                    kind: MappingKind::ReadWrite,
                    virt: (hhdm + s.last().base) as u64,
                    phys: crate::mem::physptr::spec_phys_ptr(s.last().base),
                    size: s.last().length,
                },
            ],
            BootEntryKind::Framebuffer => seq![
                MemoryMapping {
                    kind: MappingKind::Framebuffer,
                    virt: (hhdm + s.last().base) as u64,
                    phys: crate::mem::physptr::spec_phys_ptr(s.last().base),
                    size: s.last().length,
                },
            ],
            BootEntryKind::Reserved => Seq::empty(),
        })
    }
}

/// Builds the initial kernel mapping list: every usable, reclaimable,
/// kernel-and-modules and framebuffer region bound at its linear-map
/// address, followed by the kernel image's text, rodata and data sections
/// at their relocated addresses.
pub fn virt_memmap(entries: &Vec<BootEntry>, hhdm: u64, img: KernelImage) -> (r: Vec<
    MemoryMapping,
>)
    requires
        forall|k: int|
            0 <= k < entries@.len() && (#[trigger] entries@[k]).kind != BootEntryKind::Reserved
                ==> entries@[k].base < MAX_PHYS_ADDR && hhdm + entries@[k].base <= u64::MAX,
        image_ok(img),
    ensures
        r@ == spec_region_mappings(entries@, hhdm) + spec_image_mappings(img),
{
    let mut r: Vec<MemoryMapping> = Vec::new();
    let mut k: usize = 0;
    while k < entries.len()
        invariant
            0 <= k <= entries@.len(),
            forall|x: int|
                0 <= x < entries@.len() && (#[trigger] entries@[x]).kind != BootEntryKind::Reserved
                    ==> entries@[x].base < MAX_PHYS_ADDR && hhdm + entries@[x].base <= u64::MAX,
            r@ == spec_region_mappings(entries@.take(k as int), hhdm),
        decreases entries@.len() - k,
    {
        let e = entries[k];
        proof {
            assert(entries@.take(k as int + 1).drop_last() =~= entries@.take(k as int));
            assert(entries@.take(k as int + 1).last() == entries@[k as int]);
        }
        match e.kind {
            BootEntryKind::Reserved => {
                proof {
                    assert(r@ =~= spec_region_mappings(entries@.take(k as int + 1), hhdm));
                }
            },
            BootEntryKind::Framebuffer => {
                let p: PhysPtr<()> = PhysPtr::new(e.base);
                proof {
                    crate::mem::physptr::lemma_phys_ptr_ext::<()>(
                        p,
                        crate::mem::physptr::spec_phys_ptr(e.base),
                    );
                }
                r.push(
                    MemoryMapping {
                        kind: MappingKind::Framebuffer,
                        virt: hhdm + e.base,
                        phys: p,
                        size: e.length,
                    },
                );
                proof {
                    assert(r@ =~= spec_region_mappings(entries@.take(k as int + 1), hhdm));
                }
            },
            _ => {
                let p: PhysPtr<()> = PhysPtr::new(e.base);
                proof {
                    crate::mem::physptr::lemma_phys_ptr_ext::<()>(
                        p,
                        crate::mem::physptr::spec_phys_ptr(e.base),
                    );
                }
                r.push(
                    MemoryMapping {
                        kind: MappingKind::ReadWrite,
                        virt: hhdm + e.base,
                        phys: p,
                        size: e.length,
                    },
                );
                proof {
                    assert(r@ =~= spec_region_mappings(entries@.take(k as int + 1), hhdm));
                }
            },
        }
        k = k + 1;
    }
    proof {
        assert(entries@.take(entries@.len() as int) =~= entries@);
    }
    let kaslr = img.kernel_virt - img.elf_start;
    let p_text: PhysPtr<()> = img.kernel_phys.byte_add(img.text_start - img.elf_start);
    let p_rodata: PhysPtr<()> = img.kernel_phys.byte_add(img.rodata_start - img.elf_start);
    let p_data: PhysPtr<()> = img.kernel_phys.byte_add(img.data_start - img.elf_start);
    proof {
        crate::mem::physptr::lemma_phys_ptr_ext::<()>(
            p_text,
            crate::mem::physptr::spec_phys_ptr(
                (img.kernel_phys.addr_spec() + (img.text_start - img.elf_start)) as u64,
            ),
        );
        crate::mem::physptr::lemma_phys_ptr_ext::<()>(
            p_rodata,
            crate::mem::physptr::spec_phys_ptr(
                (img.kernel_phys.addr_spec() + (img.rodata_start - img.elf_start)) as u64,
            ),
        );
        crate::mem::physptr::lemma_phys_ptr_ext::<()>(
            p_data,
            crate::mem::physptr::spec_phys_ptr(
                (img.kernel_phys.addr_spec() + (img.data_start - img.elf_start)) as u64,
            ),
        );
    }
    r.push(
        MemoryMapping {
            kind: MappingKind::Code,
            virt: img.text_start + kaslr,
            phys: p_text,
            size: img.text_end - img.text_start,
        },
    );
    r.push(
        MemoryMapping {
            kind: MappingKind::ReadOnly,
            virt: img.rodata_start + kaslr,
            phys: p_rodata,
            size: img.rodata_end - img.rodata_start,
        },
    );
    r.push(
        MemoryMapping {
            kind: MappingKind::ReadWrite,
            virt: img.data_start + kaslr,
            phys: p_data,
            size: img.data_end - img.data_start,
        },
    );
    proof {
        assert(r@ =~= spec_region_mappings(entries@, hhdm) + spec_image_mappings(img));
    }
    r
}

} // verus!
