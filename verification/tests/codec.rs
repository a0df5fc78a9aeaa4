//! The page-table entry codec: bit-exact encoding and the round trip.

use kernel_mm::mem::mapping::x86_64::{
    PageTableFlags, PageTableValue, FLAG_CACHE_DISABLE, FLAG_EXECUTE_DISABLE, FLAG_PRESENT,
    FLAG_WRITABLE, FLAG_WRITE_THROUGH,
};
use kernel_mm::mem::mapping::MappingKind;
use kernel_mm::mem::physptr::PhysPtr;

#[test]
fn kind_flag_values_are_the_hardware_bits() {
    assert_eq!(PageTableFlags::from_kind(MappingKind::Code).bits, 0x1);
    assert_eq!(
        PageTableFlags::from_kind(MappingKind::ReadOnly).bits,
        0x8000_0000_0000_0001
    );
    assert_eq!(
        PageTableFlags::from_kind(MappingKind::ReadWrite).bits,
        0x8000_0000_0000_0003
    );
    assert_eq!(PageTableFlags::from_kind(MappingKind::Full).bits, 0x3);
    assert_eq!(
        PageTableFlags::from_kind(MappingKind::Mmio).bits,
        FLAG_PRESENT | FLAG_WRITABLE | FLAG_CACHE_DISABLE | FLAG_EXECUTE_DISABLE
    );
    assert_eq!(
        PageTableFlags::from_kind(MappingKind::Framebuffer).bits,
        FLAG_PRESENT | FLAG_WRITABLE | FLAG_WRITE_THROUGH | FLAG_CACHE_DISABLE
            | FLAG_EXECUTE_DISABLE
    );
}

#[test]
fn every_encodable_kind_round_trips() {
    let kinds = [
        MappingKind::Code,
        MappingKind::ReadOnly,
        MappingKind::ReadWrite,
        MappingKind::Full,
        MappingKind::Mmio,
        MappingKind::Framebuffer,
    ];
    for kind in kinds {
        let flags = PageTableFlags::from_kind(kind);
        assert_eq!(flags.into_kind(), Some(kind));
    }
}

#[test]
fn mapping_value_round_trips_through_the_word() {
    let v = PageTableValue::Mapping {
        phys: PhysPtr::new(0x5000),
        flags: PageTableFlags::from_kind(MappingKind::ReadWrite),
    };
    let w = v.to_u64();
    assert_eq!(w, 0x8000_0000_0000_5003);
    match PageTableValue::from_u64(w) {
        Some(PageTableValue::Mapping { phys, flags }) => {
            assert_eq!(phys.addr(), 0x5000);
            assert_eq!(flags.bits, 0x8000_0000_0000_0003);
            assert_eq!(flags.into_kind(), Some(MappingKind::ReadWrite));
        }
        other => panic!("expected a mapping, got {:?}", other),
    }
}

#[test]
fn special_value_round_trips_and_is_not_present() {
    let v = PageTableValue::Special(1);
    let w = v.to_u64();
    assert_eq!(w, 2, "the guard tag sits just above the present bit");
    assert_eq!(w & FLAG_PRESENT, 0);
    match PageTableValue::from_u64(w) {
        Some(PageTableValue::Special(tag)) => assert_eq!(tag, 1),
        other => panic!("expected a special value, got {:?}", other),
    }
}

#[test]
fn the_empty_word_decodes_to_nothing() {
    assert!(PageTableValue::from_u64(0).is_none());
}

#[test]
fn unknown_flag_patterns_decode_to_no_kind() {
    // Present + user-accessible is a pattern this system never writes.
    let flags = PageTableFlags { bits: 0x5 };
    assert_eq!(flags.into_kind(), None);
}
