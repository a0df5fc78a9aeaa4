//! Bit-exact model of one x86_64 page-table slot: a 64-bit word that is
//! either empty (zero), a present mapping with permission flags and a 40-bit
//! frame address, or a non-present tagged value used for guard pages.

use vstd::prelude::*;

use crate::mem::paging::Page;
use crate::mem::phys::{lemma_frames_disjoint, lemma_slot_in_frame, FrameAllocator};
use crate::mem::physmem::{in_frame, mem_word, PhysMemory};
use crate::mem::physptr::{lemma_phys_ptr_ext, spec_phys_ptr, PhysPtr};
use crate::mem::mapping::{MappingKind, OutOfMemory};
use crate::mem::MAX_PHYS_ADDR;

use bit_field::BitField;

verus! {

broadcast use crate::mem::physptr::lemma_spec_phys_ptr_addr;

/// The bits of an entry that hold flags; the rest hold the frame address.
pub const FLAG_MASK: u64 = 0xFFF0_0000_0000_0FFF;

/// Present: the entry maps a frame or a child table.
pub const FLAG_PRESENT: u64 = 0x1;

/// Writable.
pub const FLAG_WRITABLE: u64 = 0x2;

/// Accessible from user mode.
pub const FLAG_USER_ACCESSIBLE: u64 = 0x4;

/// Write-through caching.
pub const FLAG_WRITE_THROUGH: u64 = 0x8;

/// Caching disabled.
pub const FLAG_CACHE_DISABLE: u64 = 0x10;

/// Set by the hardware on access.
pub const FLAG_ACCESSED: u64 = 0x20;

/// A huge-page leaf in an intermediate table; never produced here.
pub const FLAG_HUGE_PAGE: u64 = 0x80;

/// Instruction fetches disallowed.
pub const FLAG_EXECUTE_DISABLE: u64 = 0x8000_0000_0000_0000;

/// The tag stored for a guard page, before the one-bit shift that clears the
/// present bit.
pub const SPECIAL_GUARD: u64 = 1;

/// Permission-flag bits of one page-table entry.
#[derive(Debug, Clone, Copy, PartialEq, Eq, Structural)]
pub struct PageTableFlags {
    pub bits: u64,
}

/// The hardware flag bits that stand for a [`MappingKind`]; total over the
/// kinds that are ever encoded (every kind but `Guard`).
pub open spec fn spec_flags_of_kind(kind: MappingKind) -> u64 {
    match kind {
        MappingKind::Code => FLAG_PRESENT,
        MappingKind::ReadOnly => FLAG_PRESENT | FLAG_EXECUTE_DISABLE,
        MappingKind::ReadWrite => FLAG_PRESENT | FLAG_WRITABLE | FLAG_EXECUTE_DISABLE,
        MappingKind::Full => FLAG_PRESENT | FLAG_WRITABLE,
        MappingKind::Guard => 0,
        MappingKind::Mmio => FLAG_PRESENT | FLAG_WRITABLE | FLAG_CACHE_DISABLE
            | FLAG_EXECUTE_DISABLE,
        MappingKind::Framebuffer => FLAG_PRESENT | FLAG_WRITABLE | FLAG_WRITE_THROUGH
            | FLAG_CACHE_DISABLE | FLAG_EXECUTE_DISABLE,
    }
}

/// The inverse of [`spec_flags_of_kind`]: the kind a flag word decodes to,
/// unambiguous over every kind this system produces.
pub open spec fn spec_kind_of_flags(bits: u64) -> Option<MappingKind> {
    if bits == spec_flags_of_kind(MappingKind::Code) {
        Some(MappingKind::Code)
    } else if bits == spec_flags_of_kind(MappingKind::ReadOnly) {
        Some(MappingKind::ReadOnly)
    } else if bits == spec_flags_of_kind(MappingKind::ReadWrite) {
        Some(MappingKind::ReadWrite)
    } else if bits == spec_flags_of_kind(MappingKind::Full) {
        Some(MappingKind::Full)
    } else if bits == spec_flags_of_kind(MappingKind::Mmio) {
        Some(MappingKind::Mmio)
    } else if bits == spec_flags_of_kind(MappingKind::Framebuffer) {
        Some(MappingKind::Framebuffer)
    } else {
        None
    }
}

/// The six flag combinations written out, so that plain arithmetic can tell
/// them apart.
pub proof fn lemma_flag_values()
    ensures
        FLAG_PRESENT | FLAG_EXECUTE_DISABLE == 0x8000_0000_0000_0001u64,
        FLAG_PRESENT | FLAG_WRITABLE | FLAG_EXECUTE_DISABLE == 0x8000_0000_0000_0003u64,
        FLAG_PRESENT | FLAG_WRITABLE == 0x3u64,
        FLAG_PRESENT | FLAG_WRITABLE | FLAG_CACHE_DISABLE | FLAG_EXECUTE_DISABLE
            == 0x8000_0000_0000_0013u64,
        FLAG_PRESENT | FLAG_WRITABLE | FLAG_WRITE_THROUGH | FLAG_CACHE_DISABLE
            | FLAG_EXECUTE_DISABLE == 0x8000_0000_0000_001Bu64,
{
    assert(0x1u64 | 0x8000_0000_0000_0000 == 0x8000_0000_0000_0001u64 && 0x1u64 | 0x2
        | 0x8000_0000_0000_0000 == 0x8000_0000_0000_0003u64 && 0x1u64 | 0x2 == 0x3u64 && 0x1u64
        | 0x2 | 0x10 | 0x8000_0000_0000_0000 == 0x8000_0000_0000_0013u64 && 0x1u64 | 0x2 | 0x8
        | 0x10 | 0x8000_0000_0000_0000 == 0x8000_0000_0000_001Bu64) by (bit_vector);
}

impl PageTableFlags {
    /// The flag bits for `kind`. `Guard` has no flag encoding: it is stored
    /// as a tagged non-present value, so it is excluded here by
    /// precondition.
    pub fn from_kind(kind: MappingKind) -> (r: Self)
        requires
            kind != MappingKind::Guard,
        ensures
            r.bits == spec_flags_of_kind(kind),
    {
        match kind {
            MappingKind::Code => PageTableFlags { bits: FLAG_PRESENT },
            MappingKind::ReadOnly => PageTableFlags { bits: FLAG_PRESENT | FLAG_EXECUTE_DISABLE },
            MappingKind::ReadWrite => PageTableFlags {
                bits: FLAG_PRESENT | FLAG_WRITABLE | FLAG_EXECUTE_DISABLE,
            },
            MappingKind::Full => PageTableFlags { bits: FLAG_PRESENT | FLAG_WRITABLE },
            MappingKind::Guard => vstd::pervasive::unreached(),
            MappingKind::Mmio => PageTableFlags {
                bits: FLAG_PRESENT | FLAG_WRITABLE | FLAG_CACHE_DISABLE | FLAG_EXECUTE_DISABLE,
            },
            MappingKind::Framebuffer => PageTableFlags {
                bits: FLAG_PRESENT | FLAG_WRITABLE | FLAG_WRITE_THROUGH | FLAG_CACHE_DISABLE
                    | FLAG_EXECUTE_DISABLE,
            },
        }
    }

    /// The kind these flags decode to, or `None` for a flag pattern this
    /// system never produces.
    pub fn into_kind(&self) -> (r: Option<MappingKind>)
        ensures
            r == spec_kind_of_flags(self.bits),
    {
        if self.bits == FLAG_PRESENT {
            Some(MappingKind::Code)
        } else if self.bits == FLAG_PRESENT | FLAG_EXECUTE_DISABLE {
            Some(MappingKind::ReadOnly)
        } else if self.bits == FLAG_PRESENT | FLAG_WRITABLE | FLAG_EXECUTE_DISABLE {
            Some(MappingKind::ReadWrite)
        } else if self.bits == FLAG_PRESENT | FLAG_WRITABLE {
            Some(MappingKind::Full)
        } else if self.bits == FLAG_PRESENT | FLAG_WRITABLE | FLAG_CACHE_DISABLE
            | FLAG_EXECUTE_DISABLE {
            Some(MappingKind::Mmio)
        } else if self.bits == FLAG_PRESENT | FLAG_WRITABLE | FLAG_WRITE_THROUGH
            | FLAG_CACHE_DISABLE | FLAG_EXECUTE_DISABLE {
            Some(MappingKind::Framebuffer)
        } else {
            None
        }
    }

    /// Every encodable kind decodes back to itself: the flag-level half of
    /// the encoding round trip.
    pub proof fn lemma_kind_round_trip(kind: MappingKind)
        requires
            kind != MappingKind::Guard,
        ensures
            spec_kind_of_flags(spec_flags_of_kind(kind)) == Some(kind),
    {
        lemma_flag_values();
    }
}

/// The decoded meaning of one non-empty page-table word.
#[derive(Debug, Clone, Copy)]
pub enum PageTableValue {
    /// A present mapping of a frame (or child table) with permission flags.
    Mapping { phys: PhysPtr<Page>, flags: PageTableFlags },
    /// A non-present tagged value; the only tag in use marks a guard page.
    Special(u64),
}

/// The word a [`PageTableValue`] encodes to.
pub open spec fn spec_to_u64(v: PageTableValue) -> u64 {
    match v {
        PageTableValue::Mapping { phys, flags } => (phys.addr_spec() & !FLAG_MASK) | (flags.bits
            & FLAG_MASK),
        PageTableValue::Special(x) => x << 1,
    }
}

/// The value a word decodes to: `None` for the empty (zero) word, a
/// `Special` tag when the present bit is clear, a `Mapping` otherwise.
pub open spec fn spec_from_u64(w: u64) -> Option<PageTableValue> {
    if w == 0 {
        None
    } else if w & FLAG_PRESENT == 0 {
        Some(PageTableValue::Special(w >> 1))
    } else {
        Some(
            PageTableValue::Mapping {
                phys: spec_phys_ptr(w & !FLAG_MASK),
                flags: PageTableFlags { bits: w & FLAG_MASK },
            },
        )
    }
}

/// A word this system can store in a slot: empty, a valid mapping of a frame
/// below the physical limit, or a shifted special tag.
pub open spec fn spec_word_valid(w: u64) -> bool {
    w & FLAG_PRESENT == 1 ==> (w & !FLAG_MASK) < MAX_PHYS_ADDR
}

/// The values this system ever encodes into a slot.
pub open spec fn spec_producible(v: PageTableValue) -> bool {
    match v {
        PageTableValue::Mapping { phys, flags } => phys.addr_spec() < MAX_PHYS_ADDR
            && phys.addr_spec() % 4096 == 0 && flags.bits & FLAG_MASK == flags.bits && flags.bits
            & FLAG_PRESENT == FLAG_PRESENT,
        PageTableValue::Special(x) => 0 < x < 0x8000_0000_0000_0000,
    }
}

/// Encoding then decoding any value this system produces returns exactly
/// that value.
pub proof fn lemma_encode_decode(v: PageTableValue)
    requires
        spec_producible(v),
    ensures
        spec_from_u64(spec_to_u64(v)) == Some(v),
{
    match v {
        PageTableValue::Mapping { phys, flags } => {
            let a = phys.addr_spec();
            let f = flags.bits;
            let w = (a & !FLAG_MASK) | (f & FLAG_MASK);
            assert(w & FLAG_PRESENT == 1 && w != 0 && w & !FLAG_MASK == a && w & FLAG_MASK == f)
                by (bit_vector)
                requires
                    a < 0x100_0000_0000u64,
                    a % 4096 == 0,
                    f & 0xFFF0_0000_0000_0FFFu64 == f,
                    f & 1 == 1,
                    w == (a & !0xFFF0_0000_0000_0FFFu64) | (f & 0xFFF0_0000_0000_0FFFu64),
            ;
            lemma_phys_ptr_ext::<Page>(spec_phys_ptr(w & !FLAG_MASK), phys);
        },
        PageTableValue::Special(x) => {
            let w = x << 1;
            assert(w != 0 && w & 1 == 0 && w >> 1 == x) by (bit_vector)
                requires
                    0 < x < 0x8000_0000_0000_0000u64,
                    w == x << 1,
            ;
        },
    }
}

/// The word stored for a guard page: [`SPECIAL_GUARD`] shifted past the
/// present bit.
pub const GUARD_WORD: u64 = 2;

/// The flag bits of every intermediate-table link: present and writable,
/// the encoding of a `Full` mapping.
pub const TABLE_FLAGS: u64 = 0x3;

/// A decoded word is always producible, so decode and encode are exact
/// inverses on the stored words as well.
pub proof fn lemma_decode_encode(w: u64)
    requires
        spec_word_valid(w),
        w != 0,
    ensures
        spec_from_u64(w) matches Some(v) && spec_to_u64(v) == w,
{
    if w & FLAG_PRESENT == 0 {
        assert((w >> 1) << 1 == w && w >> 1 != 0) by (bit_vector)
            requires
                w != 0,
                w & 1 == 0,
        ;
    } else {
        let a = w & !FLAG_MASK;
        let f = w & FLAG_MASK;
        assert((a & !FLAG_MASK) | (f & FLAG_MASK) == w && w & 1 == 1) by (bit_vector)
            requires
                w & 1 != 0,
                a == w & !0xFFF0_0000_0000_0FFFu64,
                f == w & 0xFFF0_0000_0000_0FFFu64,
        ;
    }
}

/// Level-4 table index of a virtual address: bits 39 to 47.
pub open spec fn l4_index(va: u64) -> u64 {
    (va >> 39) & 0x1ff
}

/// Level-3 table index of a virtual address: bits 30 to 38.
pub open spec fn l3_index(va: u64) -> u64 {
    (va >> 30) & 0x1ff
}

/// Level-2 table index of a virtual address: bits 21 to 29.
pub open spec fn l2_index(va: u64) -> u64 {
    (va >> 21) & 0x1ff
}

/// Level-1 table index of a virtual address: bits 12 to 20.
pub open spec fn l1_index(va: u64) -> u64 {
    (va >> 12) & 0x1ff
}

/// Every table index is one of the 512 slots.
pub proof fn lemma_index_bounds(va: u64)
    ensures
        l4_index(va) < 512,
        l3_index(va) < 512,
        l2_index(va) < 512,
        l1_index(va) < 512,
{
    assert((va >> 39) & 0x1ff < 512 && (va >> 30) & 0x1ff < 512 && (va >> 21) & 0x1ff < 512 && (va
        >> 12) & 0x1ff < 512) by (bit_vector);
}

/// Two addresses walk to the same leaf slot exactly when all four of their
/// table indices agree.
pub open spec fn same_page(va: u64, vb: u64) -> bool {
    l4_index(va) == l4_index(vb) && l3_index(va) == l3_index(vb) && l2_index(va) == l2_index(vb)
        && l1_index(va) == l1_index(vb)
}

/// The word of table `t` at slot `i`.
pub open spec fn tw(m: Map<u64, u64>, t: u64, i: u64) -> u64 {
    mem_word(m, t + 8 * i)
}

/// An intermediate entry that links to a child table: a `Full` mapping with
/// no other flag set.
pub open spec fn is_table_link(w: u64) -> bool {
    w & FLAG_MASK == TABLE_FLAGS
}

/// The child-table address held in a table link.
pub open spec fn link_target(w: u64) -> u64 {
    w & !FLAG_MASK
}

/// The word that links to a child table at `t`.
pub open spec fn table_word(t: u64) -> u64 {
    t | TABLE_FLAGS
}

/// An address a page table itself may live at.
pub open spec fn table_ok(t: u64) -> bool {
    t % 4096 == 0 && t < MAX_PHYS_ADDR
}

/// A word a level-1 (leaf) slot may hold: empty, the guard tag, or a present
/// mapping whose flags this system produces and whose frame is a valid
/// aligned frame.
pub open spec fn leaf_ok(w: u64) -> bool {
    ||| w == 0
    ||| w == GUARD_WORD
    ||| (w & FLAG_PRESENT == 1 && spec_kind_of_flags(w & FLAG_MASK) is Some && link_target(w)
        < MAX_PHYS_ADDR && link_target(w) % 4096 == 0)
}

/// Whether the level-3 table under root slot `i` exists.
pub open spec fn t3_def(m: Map<u64, u64>, root: u64, i: u64) -> bool {
    tw(m, root, i) != 0
}

/// The level-3 table under root slot `i`.
pub open spec fn t3_at(m: Map<u64, u64>, root: u64, i: u64) -> u64 {
    link_target(tw(m, root, i))
}

/// Whether the level-2 table under path `i, j` exists.
pub open spec fn t2_def(m: Map<u64, u64>, root: u64, i: u64, j: u64) -> bool {
    t3_def(m, root, i) && tw(m, t3_at(m, root, i), j) != 0
}

/// The level-2 table under path `i, j`.
pub open spec fn t2_at(m: Map<u64, u64>, root: u64, i: u64, j: u64) -> u64 {
    link_target(tw(m, t3_at(m, root, i), j))
}

/// Whether the level-1 table under path `i, j, k` exists.
pub open spec fn t1_def(m: Map<u64, u64>, root: u64, i: u64, j: u64, k: u64) -> bool {
    t2_def(m, root, i, j) && tw(m, t2_at(m, root, i, j), k) != 0
}

/// The level-1 table under path `i, j, k`.
pub open spec fn t1_at(m: Map<u64, u64>, root: u64, i: u64, j: u64, k: u64) -> u64 {
    link_target(tw(m, t2_at(m, root, i, j), k))
}

/// The leaf word the walk reaches for `va`: zero when any level is missing.
pub open spec fn leaf_at(m: Map<u64, u64>, root: u64, va: u64) -> u64 {
    if t1_def(m, root, l4_index(va), l3_index(va), l2_index(va)) {
        tw(m, t1_at(m, root, l4_index(va), l3_index(va), l2_index(va)), l1_index(va))
    } else {
        0
    }
}

/// What a query of `va` reports: the decoded kind of the leaf mapping, the
/// guard kind for the guard tag, or nothing.
pub open spec fn query_of(m: Map<u64, u64>, root: u64, va: u64) -> Option<MappingKind> {
    let w = leaf_at(m, root, va);
    if w == 0 {
        None
    } else if w & FLAG_PRESENT == 0 {
        if w == GUARD_WORD {
            Some(MappingKind::Guard)
        } else {
            None
        }
    } else {
        spec_kind_of_flags(w & FLAG_MASK)
    }
}

/// Shape of the tree: the root and every reachable table are valid table
/// frames, every non-empty intermediate entry is a plain table link, and
/// every leaf entry holds a word this system produces.
pub open spec fn inv_links(m: Map<u64, u64>, root: u64) -> bool {
    &&& table_ok(root)
    &&& forall|i: u64|
        i < 512 && t3_def(m, root, i) ==> is_table_link(#[trigger] tw(m, root, i)) && table_ok(
            t3_at(m, root, i),
        )
    &&& forall|i: u64, j: u64|
        i < 512 && j < 512 && t2_def(m, root, i, j) ==> is_table_link(
            #[trigger] tw(m, t3_at(m, root, i), j),
        ) && table_ok(t2_at(m, root, i, j))
    &&& forall|i: u64, j: u64, k: u64|
        i < 512 && j < 512 && k < 512 && t1_def(m, root, i, j, k) ==> is_table_link(
            #[trigger] tw(m, t2_at(m, root, i, j), k),
        ) && table_ok(t1_at(m, root, i, j, k))
    &&& forall|i: u64, j: u64, k: u64, l: u64|
        i < 512 && j < 512 && k < 512 && l < 512 && t1_def(m, root, i, j, k) ==> leaf_ok(
            #[trigger] tw(m, t1_at(m, root, i, j, k), l),
        )
}

/// No sharing in the tree: distinct paths reach distinct tables, no table at
/// one level doubles as a table at another, and none is the root.
pub open spec fn inv_inj(m: Map<u64, u64>, root: u64) -> bool {
    &&& forall|i: u64, x: u64|
        i < 512 && x < 512 && i != x && t3_def(m, root, i) && t3_def(m, root, x)
            ==> #[trigger] t3_at(m, root, i) != #[trigger] t3_at(m, root, x)
    &&& forall|i: u64, j: u64, x: u64, y: u64|
        i < 512 && j < 512 && x < 512 && y < 512 && (i != x || j != y) && t2_def(m, root, i, j)
            && t2_def(m, root, x, y) ==> #[trigger] t2_at(m, root, i, j) != #[trigger] t2_at(
            m,
            root,
            x,
            y,
        )
    &&& forall|i: u64, j: u64, k: u64, x: u64, y: u64, z: u64|
        i < 512 && j < 512 && k < 512 && x < 512 && y < 512 && z < 512 && (i != x || j != y || k
            != z) && t1_def(m, root, i, j, k) && t1_def(m, root, x, y, z) ==> #[trigger] t1_at(
            m,
            root,
            i,
            j,
            k,
        ) != #[trigger] t1_at(m, root, x, y, z)
    &&& forall|i: u64| i < 512 && t3_def(m, root, i) ==> #[trigger] t3_at(m, root, i) != root
    &&& forall|i: u64, j: u64|
        i < 512 && j < 512 && t2_def(m, root, i, j) ==> #[trigger] t2_at(m, root, i, j) != root
    &&& forall|i: u64, j: u64, k: u64|
        i < 512 && j < 512 && k < 512 && t1_def(m, root, i, j, k) ==> #[trigger] t1_at(
            m,
            root,
            i,
            j,
            k,
        ) != root
    &&& forall|i: u64, x: u64, y: u64|
        i < 512 && x < 512 && y < 512 && t3_def(m, root, i) && t2_def(m, root, x, y)
            ==> #[trigger] t3_at(m, root, i) != #[trigger] t2_at(m, root, x, y)
    &&& forall|i: u64, x: u64, y: u64, z: u64|
        i < 512 && x < 512 && y < 512 && z < 512 && t3_def(m, root, i) && t1_def(m, root, x, y, z)
            ==> #[trigger] t3_at(m, root, i) != #[trigger] t1_at(m, root, x, y, z)
    &&& forall|i: u64, j: u64, x: u64, y: u64, z: u64|
        i < 512 && j < 512 && x < 512 && y < 512 && z < 512 && t2_def(m, root, i, j) && t1_def(
            m,
            root,
            x,
            y,
            z,
        ) ==> #[trigger] t2_at(m, root, i, j) != #[trigger] t1_at(m, root, x, y, z)
}

/// The whole tree invariant.
pub open spec fn inv_tree(m: Map<u64, u64>, root: u64) -> bool {
    inv_links(m, root) && inv_inj(m, root)
}

/// `f` is none of the frames the tree is made of.
pub open spec fn not_table(m: Map<u64, u64>, root: u64, f: u64) -> bool {
    &&& f != root
    &&& forall|i: u64| i < 512 && t3_def(m, root, i) ==> #[trigger] t3_at(m, root, i) != f
    &&& forall|i: u64, j: u64|
        i < 512 && j < 512 && t2_def(m, root, i, j) ==> #[trigger] t2_at(m, root, i, j) != f
    &&& forall|i: u64, j: u64, k: u64|
        i < 512 && j < 512 && k < 512 && t1_def(m, root, i, j, k) ==> #[trigger] t1_at(
            m,
            root,
            i,
            j,
            k,
        ) != f
}

/// Words of a table are untouched by changes confined to a different,
/// disjoint frame-sized region.
pub proof fn lemma_table_words_unchanged(m1: Map<u64, u64>, m2: Map<u64, u64>, t: u64, f: u64)
    requires
        table_ok(t),
        f % 4096 == 0,
        t != f,
        forall|a: int| !in_frame(f, a) ==> #[trigger] mem_word(m2, a) == mem_word(m1, a),
    ensures
        forall|i: u64| i < 512 ==> #[trigger] tw(m2, t, i) == tw(m1, t, i),
{
    lemma_frames_disjoint(t, f);
    assert forall|i: u64| i < 512 implies #[trigger] tw(m2, t, i) == tw(m1, t, i) by {
        lemma_slot_in_frame(t, i);
        assert(in_frame(t, t + 8 * i));
        assert(!in_frame(f, t + 8 * i));
    }
}

/// Words of a table are untouched by a change at a single address outside
/// its frame.
pub proof fn lemma_table_words_unchanged_at(m1: Map<u64, u64>, m2: Map<u64, u64>, t: u64, b: int)
    requires
        table_ok(t),
        !in_frame(t, b),
        forall|a: int| a != b ==> #[trigger] mem_word(m2, a) == mem_word(m1, a),
    ensures
        forall|i: u64| i < 512 ==> #[trigger] tw(m2, t, i) == tw(m1, t, i),
{
    assert forall|i: u64| i < 512 implies #[trigger] tw(m2, t, i) == tw(m1, t, i) by {
        lemma_slot_in_frame(t, i);
        assert(in_frame(t, t + 8 * i));
        assert(t + 8 * i != b);
    }
}

/// All the tree's tables keep their words under `rel`, so every derived
/// table address, every definedness bit, every leaf word, the invariant and
/// every non-table fact carry over from `m1` to `m2`.
pub proof fn lemma_tree_unchanged(m1: Map<u64, u64>, m2: Map<u64, u64>, root: u64)
    requires
        inv_tree(m1, root),
        forall|i: u64| i < 512 ==> #[trigger] tw(m2, root, i) == tw(m1, root, i),
        forall|i: u64, j: u64|
            i < 512 && j < 512 && t3_def(m1, root, i) ==> #[trigger] tw(m2, t3_at(m1, root, i), j)
                == tw(m1, t3_at(m1, root, i), j),
        forall|i: u64, j: u64, k: u64|
            i < 512 && j < 512 && k < 512 && t2_def(m1, root, i, j) ==> #[trigger] tw(
                m2,
                t2_at(m1, root, i, j),
                k,
            ) == tw(m1, t2_at(m1, root, i, j), k),
        forall|i: u64, j: u64, k: u64, l: u64|
            i < 512 && j < 512 && k < 512 && l < 512 && t1_def(m1, root, i, j, k) ==> #[trigger] tw(
                m2,
                t1_at(m1, root, i, j, k),
                l,
            ) == tw(m1, t1_at(m1, root, i, j, k), l),
    ensures
        inv_tree(m2, root),
        forall|i: u64|
            i < 512 ==> #[trigger] t3_def(m2, root, i) == t3_def(m1, root, i) && t3_at(m2, root, i)
                == t3_at(m1, root, i),
        forall|i: u64, j: u64|
            i < 512 && j < 512 ==> #[trigger] t2_def(m2, root, i, j) == t2_def(m1, root, i, j) && (
            t2_def(m1, root, i, j) ==> t2_at(m2, root, i, j) == t2_at(m1, root, i, j)),
        forall|i: u64, j: u64, k: u64|
            i < 512 && j < 512 && k < 512 ==> #[trigger] t1_def(m2, root, i, j, k) == t1_def(
                m1,
                root,
                i,
                j,
                k,
            ) && (t1_def(m1, root, i, j, k) ==> t1_at(m2, root, i, j, k) == t1_at(m1, root, i, j, k)),
        forall|va: u64| #[trigger] leaf_at(m2, root, va) == leaf_at(m1, root, va),
        forall|g: u64| not_table(m1, root, g) ==> #[trigger] not_table(m2, root, g),
    decreases 0int,
{
    assert forall|i: u64, j: u64| i < 512 && j < 512 implies #[trigger] t2_def(m2, root, i, j)
        == t2_def(m1, root, i, j) && (t2_def(m1, root, i, j) ==> t2_at(m2, root, i, j) == t2_at(
        m1,
        root,
        i,
        j,
    )) by {
        if t3_def(m1, root, i) {
            assert(tw(m2, t3_at(m1, root, i), j) == tw(m1, t3_at(m1, root, i), j));
        }
    }
    assert forall|i: u64, j: u64, k: u64| i < 512 && j < 512 && k < 512 implies #[trigger] t1_def(
        m2,
        root,
        i,
        j,
        k,
    ) == t1_def(m1, root, i, j, k) && (t1_def(m1, root, i, j, k) ==> t1_at(m2, root, i, j, k)
        == t1_at(m1, root, i, j, k)) by {
        if t2_def(m1, root, i, j) {
            assert(tw(m2, t2_at(m1, root, i, j), k) == tw(m1, t2_at(m1, root, i, j), k));
        }
    }
    assert forall|va: u64| #[trigger] leaf_at(m2, root, va) == leaf_at(m1, root, va) by {
        lemma_index_bounds(va);
        let i = l4_index(va);
        let j = l3_index(va);
        let k = l2_index(va);
        let l = l1_index(va);
        if t1_def(m1, root, i, j, k) {
            assert(tw(m2, t1_at(m1, root, i, j, k), l) == tw(m1, t1_at(m1, root, i, j, k), l));
        }
    }
    assert forall|i: u64, j: u64, k: u64, l: u64|
        i < 512 && j < 512 && k < 512 && l < 512 && t1_def(m2, root, i, j, k) implies leaf_ok(
        #[trigger] tw(m2, t1_at(m2, root, i, j, k), l),
    ) by {
        assert(tw(m2, t1_at(m1, root, i, j, k), l) == tw(m1, t1_at(m1, root, i, j, k), l));
    }
}

/// A change confined to one frame that is not part of the tree leaves the
/// whole tree as it was.
pub proof fn lemma_frame_write_preserves_tree(
    m1: Map<u64, u64>,
    m2: Map<u64, u64>,
    root: u64,
    f: u64,
)
    requires
        inv_tree(m1, root),
        f % 4096 == 0,
        not_table(m1, root, f),
        forall|a: int| !in_frame(f, a) ==> #[trigger] mem_word(m2, a) == mem_word(m1, a),
    ensures
        inv_tree(m2, root),
        forall|i: u64|
            i < 512 ==> #[trigger] t3_def(m2, root, i) == t3_def(m1, root, i) && t3_at(m2, root, i)
                == t3_at(m1, root, i),
        forall|i: u64, j: u64|
            i < 512 && j < 512 ==> #[trigger] t2_def(m2, root, i, j) == t2_def(m1, root, i, j) && (
            t2_def(m1, root, i, j) ==> t2_at(m2, root, i, j) == t2_at(m1, root, i, j)),
        forall|i: u64, j: u64, k: u64|
            i < 512 && j < 512 && k < 512 ==> #[trigger] t1_def(m2, root, i, j, k) == t1_def(
                m1,
                root,
                i,
                j,
                k,
            ) && (t1_def(m1, root, i, j, k) ==> t1_at(m2, root, i, j, k) == t1_at(m1, root, i, j, k)),
        forall|va: u64| #[trigger] leaf_at(m2, root, va) == leaf_at(m1, root, va),
        forall|g: u64| not_table(m1, root, g) ==> #[trigger] not_table(m2, root, g),
{
    lemma_table_words_unchanged(m1, m2, root, f);
    assert forall|i: u64, j: u64| i < 512 && j < 512 && t3_def(m1, root, i) implies #[trigger] tw(
        m2,
        t3_at(m1, root, i),
        j,
    ) == tw(m1, t3_at(m1, root, i), j) by {
        assert(t3_at(m1, root, i) != f);
        lemma_table_words_unchanged(m1, m2, t3_at(m1, root, i), f);
    }
    assert forall|i: u64, j: u64, k: u64|
        i < 512 && j < 512 && k < 512 && t2_def(m1, root, i, j) implies #[trigger] tw(
        m2,
        t2_at(m1, root, i, j),
        k,
    ) == tw(m1, t2_at(m1, root, i, j), k) by {
        assert(t2_at(m1, root, i, j) != f);
        lemma_table_words_unchanged(m1, m2, t2_at(m1, root, i, j), f);
    }
    assert forall|i: u64, j: u64, k: u64, l: u64|
        i < 512 && j < 512 && k < 512 && l < 512 && t1_def(m1, root, i, j, k) implies #[trigger] tw(
        m2,
        t1_at(m1, root, i, j, k),
        l,
    ) == tw(m1, t1_at(m1, root, i, j, k), l) by {
        assert(t1_at(m1, root, i, j, k) != f);
        lemma_table_words_unchanged(m1, m2, t1_at(m1, root, i, j, k), f);
    }
    lemma_tree_unchanged(m1, m2, root);
}

/// Writing one leaf slot changes the translation of exactly the addresses
/// that walk to that slot, and nothing else about the tree.
pub proof fn lemma_leaf_write(
    m1: Map<u64, u64>,
    m2: Map<u64, u64>,
    root: u64,
    i: u64,
    j: u64,
    k: u64,
    l: u64,
    w: u64,
)
    requires
        inv_tree(m1, root),
        i < 512 && j < 512 && k < 512 && l < 512,
        t1_def(m1, root, i, j, k),
        leaf_ok(w),
        mem_word(m2, t1_at(m1, root, i, j, k) + 8 * l) == w,
        forall|b: int|
            b != t1_at(m1, root, i, j, k) + 8 * l ==> #[trigger] mem_word(m2, b) == mem_word(m1, b),
    ensures
        inv_tree(m2, root),
        forall|i2: u64|
            i2 < 512 ==> #[trigger] t3_def(m2, root, i2) == t3_def(m1, root, i2) && t3_at(
                m2,
                root,
                i2,
            ) == t3_at(m1, root, i2),
        forall|i2: u64, j2: u64|
            i2 < 512 && j2 < 512 ==> #[trigger] t2_def(m2, root, i2, j2) == t2_def(m1, root, i2, j2)
                && (t2_def(m1, root, i2, j2) ==> t2_at(m2, root, i2, j2) == t2_at(m1, root, i2, j2)),
        forall|i2: u64, j2: u64, k2: u64|
            i2 < 512 && j2 < 512 && k2 < 512 ==> #[trigger] t1_def(m2, root, i2, j2, k2) == t1_def(
                m1,
                root,
                i2,
                j2,
                k2,
            ) && (t1_def(m1, root, i2, j2, k2) ==> t1_at(m2, root, i2, j2, k2) == t1_at(
                m1,
                root,
                i2,
                j2,
                k2,
            )),
        forall|va: u64|
            #[trigger] leaf_at(m2, root, va) == (if l4_index(va) == i && l3_index(va) == j
                && l2_index(va) == k && l1_index(va) == l {
                w
            } else {
                leaf_at(m1, root, va)
            }),
        forall|g: u64| not_table(m1, root, g) ==> #[trigger] not_table(m2, root, g),
{
    let tt = t1_at(m1, root, i, j, k);
    let slot = tt + 8 * l;
    lemma_slot_in_frame(tt, l);
    assert(in_frame(tt, slot));
    assert(tt != root);
    lemma_frames_disjoint(tt, root);
    lemma_table_words_unchanged_at(m1, m2, root, slot);
    assert forall|x: u64, y: u64| x < 512 && y < 512 && t3_def(m1, root, x) implies #[trigger] tw(
        m2,
        t3_at(m1, root, x),
        y,
    ) == tw(m1, t3_at(m1, root, x), y) by {
        assert(t3_at(m1, root, x) != tt);
        lemma_frames_disjoint(tt, t3_at(m1, root, x));
        lemma_table_words_unchanged_at(m1, m2, t3_at(m1, root, x), slot);
    }
    assert forall|x: u64, y: u64, z: u64|
        x < 512 && y < 512 && z < 512 && t2_def(m1, root, x, y) implies #[trigger] tw(
        m2,
        t2_at(m1, root, x, y),
        z,
    ) == tw(m1, t2_at(m1, root, x, y), z) by {
        assert(t2_at(m1, root, x, y) != tt);
        lemma_frames_disjoint(tt, t2_at(m1, root, x, y));
        lemma_table_words_unchanged_at(m1, m2, t2_at(m1, root, x, y), slot);
    }
    assert forall|i2: u64, j2: u64| i2 < 512 && j2 < 512 implies #[trigger] t2_def(m2, root, i2, j2)
        == t2_def(m1, root, i2, j2) && (t2_def(m1, root, i2, j2) ==> t2_at(m2, root, i2, j2)
        == t2_at(m1, root, i2, j2)) by {
        if t3_def(m1, root, i2) {
            assert(tw(m2, t3_at(m1, root, i2), j2) == tw(m1, t3_at(m1, root, i2), j2));
        }
    }
    assert forall|i2: u64, j2: u64, k2: u64| i2 < 512 && j2 < 512 && k2 < 512 implies #[trigger] t1_def(
        m2,
        root,
        i2,
        j2,
        k2,
    ) == t1_def(m1, root, i2, j2, k2) && (t1_def(m1, root, i2, j2, k2) ==> t1_at(m2, root, i2, j2, k2)
        == t1_at(m1, root, i2, j2, k2)) by {
        if t2_def(m1, root, i2, j2) {
            assert(tw(m2, t2_at(m1, root, i2, j2), k2) == tw(m1, t2_at(m1, root, i2, j2), k2));
        }
    }
    assert forall|x: u64, y: u64, z: u64, u: u64|
        x < 512 && y < 512 && z < 512 && u < 512 && t1_def(m1, root, x, y, z) && !(x == i && y == j
            && z == k && u == l) implies #[trigger] tw(m2, t1_at(m1, root, x, y, z), u) == tw(
        m1,
        t1_at(m1, root, x, y, z),
        u,
    ) by {
        if x == i && y == j && z == k {
            lemma_slot_in_frame(t1_at(m1, root, x, y, z), u);
            assert(t1_at(m1, root, x, y, z) == tt);
            assert(tt + 8 * u != slot);
        } else {
            assert(t1_at(m1, root, x, y, z) != tt);
            lemma_frames_disjoint(tt, t1_at(m1, root, x, y, z));
            lemma_table_words_unchanged_at(m1, m2, t1_at(m1, root, x, y, z), slot);
        }
    }
    assert(tw(m2, tt, l) == w);
    assert forall|x: u64, y: u64, z: u64, u: u64|
        x < 512 && y < 512 && z < 512 && u < 512 && t1_def(m2, root, x, y, z) implies leaf_ok(
        #[trigger] tw(m2, t1_at(m2, root, x, y, z), u),
    ) by {
        if x == i && y == j && z == k && u == l {
            assert(tw(m2, t1_at(m2, root, x, y, z), u) == w);
        } else {
            assert(tw(m2, t1_at(m2, root, x, y, z), u) == tw(m1, t1_at(m1, root, x, y, z), u));
        }
    }
    assert forall|va: u64|
        #[trigger] leaf_at(m2, root, va) == (if l4_index(va) == i && l3_index(va) == j && l2_index(
            va,
        ) == k && l1_index(va) == l {
            w
        } else {
            leaf_at(m1, root, va)
        }) by {
        lemma_index_bounds(va);
        let iv = l4_index(va);
        let jv = l3_index(va);
        let kv = l2_index(va);
        let lv = l1_index(va);
        if t1_def(m1, root, iv, jv, kv) {
            if iv == i && jv == j && kv == k {
                if lv == l {
                    assert(leaf_at(m2, root, va) == tw(m2, tt, l));
                } else {
                    assert(tw(m2, t1_at(m1, root, iv, jv, kv), lv) == tw(
                        m1,
                        t1_at(m1, root, iv, jv, kv),
                        lv,
                    ));
                }
            } else {
                assert(t1_at(m1, root, iv, jv, kv) != tt);
                assert(tw(m2, t1_at(m1, root, iv, jv, kv), lv) == tw(
                    m1,
                    t1_at(m1, root, iv, jv, kv),
                    lv,
                ));
            }
        }
    }
}

/// The link word for a fresh table decodes as a plain table link to it.
pub proof fn lemma_table_word_fields(f: u64)
    requires
        table_ok(f),
    ensures
        is_table_link(table_word(f)),
        link_target(table_word(f)) == f,
        table_word(f) != 0,
{
    assert((f | 0x3u64) & 0xFFF0_0000_0000_0FFFu64 == 0x3 && (f | 0x3u64)
        & !0xFFF0_0000_0000_0FFFu64 == f && (f | 0x3u64) != 0) by (bit_vector)
        requires
            f % 4096 == 0,
            f < 0x100_0000_0000u64,
    ;
}

/// Installing a fresh zeroed table under an empty root slot extends the
/// tree by one childless level-3 table and changes no translation.
pub proof fn lemma_install_l3(
    m1: Map<u64, u64>,
    m2: Map<u64, u64>,
    root: u64,
    i0: u64,
    f: u64,
)
    requires
        inv_tree(m1, root),
        i0 < 512,
        !t3_def(m1, root, i0),
        table_ok(f),
        not_table(m1, root, f),
        forall|q: u64| q < 512 ==> #[trigger] tw(m1, f, q) == 0,
        mem_word(m2, root + 8 * i0) == table_word(f),
        forall|b: int| b != root + 8 * i0 ==> #[trigger] mem_word(m2, b) == mem_word(m1, b),
    ensures
        inv_tree(m2, root),
        t3_def(m2, root, i0) && t3_at(m2, root, i0) == f,
        forall|x: u64|
            x < 512 && x != i0 ==> #[trigger] t3_def(m2, root, x) == t3_def(m1, root, x) && t3_at(
                m2,
                root,
                x,
            ) == t3_at(m1, root, x),
        forall|x: u64, y: u64|
            x < 512 && y < 512 ==> #[trigger] t2_def(m2, root, x, y) == t2_def(m1, root, x, y) && (
            t2_def(m1, root, x, y) ==> t2_at(m2, root, x, y) == t2_at(m1, root, x, y)),
        forall|x: u64, y: u64, z: u64|
            x < 512 && y < 512 && z < 512 ==> #[trigger] t1_def(m2, root, x, y, z) == t1_def(
                m1,
                root,
                x,
                y,
                z,
            ) && (t1_def(m1, root, x, y, z) ==> t1_at(m2, root, x, y, z) == t1_at(m1, root, x, y, z)),
        forall|va: u64| #[trigger] leaf_at(m2, root, va) == leaf_at(m1, root, va),
        forall|g: u64|
            g != f && not_table(m1, root, g) ==> #[trigger] not_table(m2, root, g),
{
    let slot = root + 8 * i0;
    lemma_slot_in_frame(root, i0);
    assert(in_frame(root, slot));
    lemma_table_word_fields(f);
    assert(tw(m2, root, i0) == table_word(f));
    assert forall|x: u64| x < 512 && x != i0 implies #[trigger] tw(m2, root, x) == tw(
        m1,
        root,
        x,
    ) by {
        lemma_slot_in_frame(root, x);
        assert(root + 8 * x != slot);
    }
    assert forall|q: u64| q < 512 implies #[trigger] tw(m2, f, q) == 0 by {
        lemma_frames_disjoint(root, f);
        assert(!in_frame(f, slot));
        lemma_slot_in_frame(f, q);
        assert(in_frame(f, f + 8 * q));
        assert(f + 8 * q != slot);
        assert(tw(m1, f, q) == 0);
    }
    assert forall|x: u64, y: u64| x < 512 && y < 512 && t3_def(m1, root, x) implies #[trigger] tw(
        m2,
        t3_at(m1, root, x),
        y,
    ) == tw(m1, t3_at(m1, root, x), y) by {
        assert(t3_at(m1, root, x) != root);
        lemma_frames_disjoint(root, t3_at(m1, root, x));
        lemma_table_words_unchanged_at(m1, m2, t3_at(m1, root, x), slot);
    }
    assert forall|x: u64, y: u64, z: u64|
        x < 512 && y < 512 && z < 512 && t2_def(m1, root, x, y) implies #[trigger] tw(
        m2,
        t2_at(m1, root, x, y),
        z,
    ) == tw(m1, t2_at(m1, root, x, y), z) by {
        assert(t2_at(m1, root, x, y) != root);
        lemma_frames_disjoint(root, t2_at(m1, root, x, y));
        lemma_table_words_unchanged_at(m1, m2, t2_at(m1, root, x, y), slot);
    }
    assert forall|x: u64, y: u64, z: u64, u: u64|
        x < 512 && y < 512 && z < 512 && u < 512 && t1_def(m1, root, x, y, z) implies #[trigger] tw(
        m2,
        t1_at(m1, root, x, y, z),
        u,
    ) == tw(m1, t1_at(m1, root, x, y, z), u) by {
        assert(t1_at(m1, root, x, y, z) != root);
        lemma_frames_disjoint(root, t1_at(m1, root, x, y, z));
        lemma_table_words_unchanged_at(m1, m2, t1_at(m1, root, x, y, z), slot);
    }
    assert forall|x: u64, y: u64| x < 512 && y < 512 implies #[trigger] t2_def(m2, root, x, y)
        == t2_def(m1, root, x, y) && (t2_def(m1, root, x, y) ==> t2_at(m2, root, x, y) == t2_at(
        m1,
        root,
        x,
        y,
    )) by {
        if x == i0 {
            assert(tw(m2, t3_at(m2, root, x), y) == tw(m2, f, y));
            assert(!t2_def(m1, root, x, y));
            assert(!t2_def(m2, root, x, y));
        } else if t3_def(m1, root, x) {
            assert(tw(m2, t3_at(m1, root, x), y) == tw(m1, t3_at(m1, root, x), y));
        }
    }
    assert forall|x: u64, y: u64, z: u64| x < 512 && y < 512 && z < 512 implies #[trigger] t1_def(
        m2,
        root,
        x,
        y,
        z,
    ) == t1_def(m1, root, x, y, z) && (t1_def(m1, root, x, y, z) ==> t1_at(m2, root, x, y, z)
        == t1_at(m1, root, x, y, z)) by {
        if t2_def(m1, root, x, y) {
            assert(tw(m2, t2_at(m1, root, x, y), z) == tw(m1, t2_at(m1, root, x, y), z));
        }
    }
    assert forall|va: u64| #[trigger] leaf_at(m2, root, va) == leaf_at(m1, root, va) by {
        lemma_index_bounds(va);
        let iv = l4_index(va);
        let jv = l3_index(va);
        let kv = l2_index(va);
        let lv = l1_index(va);
        if t1_def(m1, root, iv, jv, kv) {
            assert(tw(m2, t1_at(m1, root, iv, jv, kv), lv) == tw(
                m1,
                t1_at(m1, root, iv, jv, kv),
                lv,
            ));
        }
    }
    assert forall|x: u64, y: u64, z: u64, u: u64|
        x < 512 && y < 512 && z < 512 && u < 512 && t1_def(m2, root, x, y, z) implies leaf_ok(
        #[trigger] tw(m2, t1_at(m2, root, x, y, z), u),
    ) by {
        assert(tw(m2, t1_at(m2, root, x, y, z), u) == tw(m1, t1_at(m1, root, x, y, z), u));
    }
}

/// Installing a fresh zeroed table under an empty slot of a level-3 table
/// extends the tree by one childless level-2 table and changes no
/// translation.
pub proof fn lemma_install_l2(
    m1: Map<u64, u64>,
    m2: Map<u64, u64>,
    root: u64,
    i0: u64,
    j0: u64,
    f: u64,
)
    requires
        inv_tree(m1, root),
        i0 < 512 && j0 < 512,
        t3_def(m1, root, i0),
        !t2_def(m1, root, i0, j0),
        table_ok(f),
        not_table(m1, root, f),
        forall|q: u64| q < 512 ==> #[trigger] tw(m1, f, q) == 0,
        mem_word(m2, t3_at(m1, root, i0) + 8 * j0) == table_word(f),
        forall|b: int|
            b != t3_at(m1, root, i0) + 8 * j0 ==> #[trigger] mem_word(m2, b) == mem_word(m1, b),
    ensures
        inv_tree(m2, root),
        forall|x: u64|
            x < 512 ==> #[trigger] t3_def(m2, root, x) == t3_def(m1, root, x) && t3_at(m2, root, x)
                == t3_at(m1, root, x),
        t2_def(m2, root, i0, j0) && t2_at(m2, root, i0, j0) == f,
        forall|x: u64, y: u64|
            x < 512 && y < 512 && (x != i0 || y != j0) ==> #[trigger] t2_def(m2, root, x, y)
                == t2_def(m1, root, x, y) && (t2_def(m1, root, x, y) ==> t2_at(m2, root, x, y)
                == t2_at(m1, root, x, y)),
        forall|x: u64, y: u64, z: u64|
            x < 512 && y < 512 && z < 512 ==> #[trigger] t1_def(m2, root, x, y, z) == t1_def(
                m1,
                root,
                x,
                y,
                z,
            ) && (t1_def(m1, root, x, y, z) ==> t1_at(m2, root, x, y, z) == t1_at(m1, root, x, y, z)),
        forall|va: u64| #[trigger] leaf_at(m2, root, va) == leaf_at(m1, root, va),
        forall|g: u64| g != f && not_table(m1, root, g) ==> #[trigger] not_table(m2, root, g),
{
    let pt = t3_at(m1, root, i0);
    let slot = pt + 8 * j0;
    lemma_slot_in_frame(pt, j0);
    assert(in_frame(pt, slot));
    lemma_table_word_fields(f);
    assert(pt != root);
    lemma_frames_disjoint(pt, root);
    lemma_table_words_unchanged_at(m1, m2, root, slot);
    assert forall|x: u64, y: u64| x < 512 && y < 512 && t3_def(m1, root, x) && (x != i0 || y != j0)
        implies #[trigger] tw(m2, t3_at(m1, root, x), y) == tw(m1, t3_at(m1, root, x), y) by {
        if x == i0 {
            lemma_slot_in_frame(pt, y);
            assert(pt + 8 * y != slot);
        } else {
            assert(t3_at(m1, root, x) != pt);
            lemma_frames_disjoint(pt, t3_at(m1, root, x));
            lemma_table_words_unchanged_at(m1, m2, t3_at(m1, root, x), slot);
        }
    }
    assert(tw(m2, pt, j0) == table_word(f));
    assert forall|q: u64| q < 512 implies #[trigger] tw(m2, f, q) == 0 by {
        lemma_frames_disjoint(pt, f);
        assert(!in_frame(f, slot));
        lemma_slot_in_frame(f, q);
        assert(in_frame(f, f + 8 * q));
        assert(f + 8 * q != slot);
        assert(tw(m1, f, q) == 0);
    }
    assert forall|x: u64, y: u64, z: u64|
        x < 512 && y < 512 && z < 512 && t2_def(m1, root, x, y) implies #[trigger] tw(
        m2,
        t2_at(m1, root, x, y),
        z,
    ) == tw(m1, t2_at(m1, root, x, y), z) by {
        assert(t2_at(m1, root, x, y) != pt);
        lemma_frames_disjoint(pt, t2_at(m1, root, x, y));
        lemma_table_words_unchanged_at(m1, m2, t2_at(m1, root, x, y), slot);
    }
    assert forall|x: u64, y: u64, z: u64, u: u64|
        x < 512 && y < 512 && z < 512 && u < 512 && t1_def(m1, root, x, y, z) implies #[trigger] tw(
        m2,
        t1_at(m1, root, x, y, z),
        u,
    ) == tw(m1, t1_at(m1, root, x, y, z), u) by {
        assert(t1_at(m1, root, x, y, z) != pt);
        lemma_frames_disjoint(pt, t1_at(m1, root, x, y, z));
        lemma_table_words_unchanged_at(m1, m2, t1_at(m1, root, x, y, z), slot);
    }
    assert(t2_def(m2, root, i0, j0) && t2_at(m2, root, i0, j0) == f);
    assert forall|x: u64, y: u64, z: u64| x < 512 && y < 512 && z < 512 implies #[trigger] t1_def(
        m2,
        root,
        x,
        y,
        z,
    ) == t1_def(m1, root, x, y, z) && (t1_def(m1, root, x, y, z) ==> t1_at(m2, root, x, y, z)
        == t1_at(m1, root, x, y, z)) by {
        if x == i0 && y == j0 {
            assert(tw(m2, f, z) == 0);
            assert(!t2_def(m1, root, x, y));
        } else if t2_def(m1, root, x, y) {
            assert(tw(m2, t2_at(m1, root, x, y), z) == tw(m1, t2_at(m1, root, x, y), z));
        }
    }
    assert forall|va: u64| #[trigger] leaf_at(m2, root, va) == leaf_at(m1, root, va) by {
        lemma_index_bounds(va);
        let iv = l4_index(va);
        let jv = l3_index(va);
        let kv = l2_index(va);
        let lv = l1_index(va);
        if t1_def(m1, root, iv, jv, kv) {
            assert(tw(m2, t1_at(m1, root, iv, jv, kv), lv) == tw(
                m1,
                t1_at(m1, root, iv, jv, kv),
                lv,
            ));
        }
    }
    assert forall|x: u64, y: u64, z: u64, u: u64|
        x < 512 && y < 512 && z < 512 && u < 512 && t1_def(m2, root, x, y, z) implies leaf_ok(
        #[trigger] tw(m2, t1_at(m2, root, x, y, z), u),
    ) by {
        assert(tw(m2, t1_at(m2, root, x, y, z), u) == tw(m1, t1_at(m1, root, x, y, z), u));
    }
}

/// Installing a fresh zeroed table under an empty slot of a level-2 table
/// extends the tree by one level-1 table whose leaves are all empty, and
/// changes no translation.
pub proof fn lemma_install_l1(
    m1: Map<u64, u64>,
    m2: Map<u64, u64>,
    root: u64,
    i0: u64,
    j0: u64,
    k0: u64,
    f: u64,
)
    requires
        inv_tree(m1, root),
        i0 < 512 && j0 < 512 && k0 < 512,
        t2_def(m1, root, i0, j0),
        !t1_def(m1, root, i0, j0, k0),
        table_ok(f),
        not_table(m1, root, f),
        forall|q: u64| q < 512 ==> #[trigger] tw(m1, f, q) == 0,
        mem_word(m2, t2_at(m1, root, i0, j0) + 8 * k0) == table_word(f),
        forall|b: int|
            b != t2_at(m1, root, i0, j0) + 8 * k0 ==> #[trigger] mem_word(m2, b) == mem_word(m1, b),
    ensures
        inv_tree(m2, root),
        forall|x: u64|
            x < 512 ==> #[trigger] t3_def(m2, root, x) == t3_def(m1, root, x) && t3_at(m2, root, x)
                == t3_at(m1, root, x),
        forall|x: u64, y: u64|
            x < 512 && y < 512 ==> #[trigger] t2_def(m2, root, x, y) == t2_def(m1, root, x, y) && (
            t2_def(m1, root, x, y) ==> t2_at(m2, root, x, y) == t2_at(m1, root, x, y)),
        t1_def(m2, root, i0, j0, k0) && t1_at(m2, root, i0, j0, k0) == f,
        forall|x: u64, y: u64, z: u64|
            x < 512 && y < 512 && z < 512 && (x != i0 || y != j0 || z != k0) ==> #[trigger] t1_def(
                m2,
                root,
                x,
                y,
                z,
            ) == t1_def(m1, root, x, y, z) && (t1_def(m1, root, x, y, z) ==> t1_at(m2, root, x, y, z)
                == t1_at(m1, root, x, y, z)),
        forall|va: u64| #[trigger] leaf_at(m2, root, va) == leaf_at(m1, root, va),
        forall|g: u64| g != f && not_table(m1, root, g) ==> #[trigger] not_table(m2, root, g),
{
    let pt = t2_at(m1, root, i0, j0);
    let slot = pt + 8 * k0;
    lemma_slot_in_frame(pt, k0);
    assert(in_frame(pt, slot));
    lemma_table_word_fields(f);
    assert(pt != root);
    lemma_frames_disjoint(pt, root);
    lemma_table_words_unchanged_at(m1, m2, root, slot);
    assert forall|x: u64, y: u64| x < 512 && y < 512 && t3_def(m1, root, x) implies #[trigger] tw(
        m2,
        t3_at(m1, root, x),
        y,
    ) == tw(m1, t3_at(m1, root, x), y) by {
        assert(t3_at(m1, root, x) != pt);
        lemma_frames_disjoint(pt, t3_at(m1, root, x));
        lemma_table_words_unchanged_at(m1, m2, t3_at(m1, root, x), slot);
    }
    assert forall|x: u64, y: u64, z: u64|
        x < 512 && y < 512 && z < 512 && t2_def(m1, root, x, y) && (x != i0 || y != j0 || z != k0)
        implies #[trigger] tw(m2, t2_at(m1, root, x, y), z) == tw(m1, t2_at(m1, root, x, y), z) by {
        if x == i0 && y == j0 {
            lemma_slot_in_frame(pt, z);
            assert(pt + 8 * z != slot);
        } else {
            assert(t2_at(m1, root, x, y) != pt);
            lemma_frames_disjoint(pt, t2_at(m1, root, x, y));
            lemma_table_words_unchanged_at(m1, m2, t2_at(m1, root, x, y), slot);
        }
    }
    assert(tw(m2, pt, k0) == table_word(f));
    assert forall|q: u64| q < 512 implies #[trigger] tw(m2, f, q) == 0 by {
        lemma_frames_disjoint(pt, f);
        assert(!in_frame(f, slot));
        lemma_slot_in_frame(f, q);
        assert(in_frame(f, f + 8 * q));
        assert(f + 8 * q != slot);
        assert(tw(m1, f, q) == 0);
    }
    assert forall|x: u64, y: u64, z: u64, u: u64|
        x < 512 && y < 512 && z < 512 && u < 512 && t1_def(m1, root, x, y, z) implies #[trigger] tw(
        m2,
        t1_at(m1, root, x, y, z),
        u,
    ) == tw(m1, t1_at(m1, root, x, y, z), u) by {
        assert(t1_at(m1, root, x, y, z) != pt);
        lemma_frames_disjoint(pt, t1_at(m1, root, x, y, z));
        lemma_table_words_unchanged_at(m1, m2, t1_at(m1, root, x, y, z), slot);
    }
    assert(t1_def(m2, root, i0, j0, k0) && t1_at(m2, root, i0, j0, k0) == f);
    assert forall|va: u64| #[trigger] leaf_at(m2, root, va) == leaf_at(m1, root, va) by {
        lemma_index_bounds(va);
        let iv = l4_index(va);
        let jv = l3_index(va);
        let kv = l2_index(va);
        let lv = l1_index(va);
        if iv == i0 && jv == j0 && kv == k0 {
            assert(!t1_def(m1, root, iv, jv, kv));
            assert(leaf_at(m1, root, va) == 0);
            assert(t1_at(m2, root, iv, jv, kv) == f);
            assert(tw(m2, f, lv) == 0);
        } else if t1_def(m1, root, iv, jv, kv) {
            assert(tw(m2, t1_at(m1, root, iv, jv, kv), lv) == tw(
                m1,
                t1_at(m1, root, iv, jv, kv),
                lv,
            ));
        }
    }
    assert forall|x: u64, y: u64, z: u64, u: u64|
        x < 512 && y < 512 && z < 512 && u < 512 && t1_def(m2, root, x, y, z) implies leaf_ok(
        #[trigger] tw(m2, t1_at(m2, root, x, y, z), u),
    ) by {
        if x == i0 && y == j0 && z == k0 {
            assert(tw(m2, f, u) == 0);
        } else {
            assert(tw(m2, t1_at(m2, root, x, y, z), u) == tw(m1, t1_at(m1, root, x, y, z), u));
        }
    }
}

/// The nine-bit index mask written out.
proof fn lemma_nine_bit_mask()
    ensures
        ((1u64 << 9) - 1) as u64 == 0x1ffu64,
{
    assert(((1u64 << 9) - 1) as u64 == 0x1ffu64) by (bit_vector);
}

/// Facts about a table-link word: it is present, non-zero, and not a huge
/// page.
pub proof fn lemma_table_link_facts(w: u64)
    requires
        is_table_link(w),
    ensures
        w & FLAG_PRESENT == 1,
        w != 0,
        (w & FLAG_MASK) & FLAG_HUGE_PAGE == 0,
{
    assert(w & 1 == 1 && w != 0 && (w & 0xFFF0_0000_0000_0FFFu64) & 0x80 == 0) by (bit_vector)
        requires
            w & 0xFFF0_0000_0000_0FFFu64 == 0x3,
    ;
}

/// The address field of an entry word is page-aligned: the mask clears the
/// twelve low bits.
pub proof fn lemma_addr_field_aligned(w: u64)
    ensures
        (w & !FLAG_MASK) % 4096 == 0,
{
    assert((w & !0xFFF0_0000_0000_0FFFu64) % 4096 == 0) by (bit_vector);
}

/// The present bit survives masking down to the flag bits, and is a single
/// bit.
pub proof fn lemma_present_of_masked(w: u64)
    ensures
        (w & FLAG_MASK) & FLAG_PRESENT == w & FLAG_PRESENT,
        w & FLAG_PRESENT == 0 || w & FLAG_PRESENT == 1,
        w == 0 ==> w & FLAG_PRESENT == 0,
{
    assert((w & 0xFFF0_0000_0000_0FFFu64) & 0x1 == w & 0x1 && (w & 0x1 == 0 || w & 0x1 == 1) && (w
        == 0 ==> w & 0x1 == 0)) by (bit_vector);
}

/// Encoding a `Full` mapping of a table frame gives exactly its link word.
pub proof fn lemma_encode_table(f: u64)
    requires
        table_ok(f),
    ensures
        (f & !FLAG_MASK) | (TABLE_FLAGS & FLAG_MASK) == table_word(f),
{
    assert((f & !0xFFF0_0000_0000_0FFFu64) | (0x3u64 & 0xFFF0_0000_0000_0FFFu64) == (f
        | 0x3u64)) by (bit_vector)
        requires
            f % 4096 == 0,
            f < 0x100_0000_0000u64,
    ;
}

/// Relies on `bit_field::BitField::get_bits` for `u64`: it returns the bits
/// of `v` from `lo` (inclusive) to `hi` (exclusive), shifted down to the low
/// end.
#[verifier::external_body]
fn get_bits_u64(v: u64, lo: usize, hi: usize) -> (r: u64)
    requires
        lo < hi <= 64,
        hi - lo < 64,
    ensures
        r == (v >> (lo as u64)) & (((1u64 << ((hi - lo) as u64)) - 1) as u64),
{
    v.get_bits(lo..hi)
}

impl PageTableValue {
    /// Decodes a stored word; the empty word decodes to nothing.
    pub fn from_u64(value: u64) -> (r: Option<PageTableValue>)
        requires
            spec_word_valid(value),
        ensures
            r == spec_from_u64(value),
    {
        proof {
            lemma_present_of_masked(value);
            lemma_addr_field_aligned(value);
        }
        let flags = value & FLAG_MASK;
        if value == 0 {
            None
        } else if flags & FLAG_PRESENT == 0 {
            Some(PageTableValue::Special(value >> 1))
        } else {
            let addr = value & !FLAG_MASK;
            Some(
                PageTableValue::Mapping {
                    phys: PhysPtr::new(addr),
                    flags: PageTableFlags { bits: flags },
                },
            )
        }
    }

    /// Encodes a value into the word the hardware reads.
    pub fn to_u64(&self) -> (r: u64)
        requires
            self matches PageTableValue::Special(x) ==> x < 0x8000_0000_0000_0000,
        ensures
            r == spec_to_u64(*self),
    {
        match self {
            PageTableValue::Mapping { phys, flags } => (phys.addr() & !FLAG_MASK) | (flags.bits
                & FLAG_MASK),
            PageTableValue::Special(x) => *x << 1,
        }
    }

    /// The child table a table-link value points at. A huge-page or special
    /// value is no table; both are excluded by precondition.
    pub fn as_pagetable(&self) -> (r: PhysPtr<PageTable>)
        requires
            self matches PageTableValue::Mapping { phys, flags } && flags.bits & FLAG_HUGE_PAGE
                == 0 && phys.wf(),
        ensures
            self matches PageTableValue::Mapping { phys, .. } ==> r.addr_spec()
                == phys.addr_spec(),
    {
        match self {
            PageTableValue::Mapping { phys, .. } => phys.cast(),
            PageTableValue::Special(_) => vstd::pervasive::unreached(),
        }
    }
}

/// A 4096-byte array of 512 entries living in a physical frame; referenced
/// only through `PhysPtr<PageTable>`, never held by value.
#[derive(Debug)]
pub struct PageTable {
    _opaque: (),
}

impl crate::mem::physptr::Pointee for PageTable {
    open spec fn spec_align() -> u64 {
        4096
    }
}

impl PageTable {
    /// Allocates and zeroes a frame to serve as a fresh table.
    pub fn new(mem: &mut PhysMemory, alloc: &mut FrameAllocator) -> (r: Result<
        PhysPtr<PageTable>,
        OutOfMemory,
    >)
        requires
            old(alloc).wf(old(mem)@),
        ensures
            final(alloc).wf(final(mem)@),
            old(alloc).free_seq().len() == 0 ==> r is Err && *final(alloc) == *old(alloc)
                && *final(mem) == *old(mem),
            old(alloc).free_seq().len() > 0 ==> (r matches Ok(t) && t.addr_spec() == old(
                alloc,
            ).free_seq()[0] && table_ok(t.addr_spec()) && t.wf() && final(alloc).free_seq() == old(
                alloc,
            ).free_seq().skip(1) && (forall|q: u64|
                q < 512 ==> #[trigger] tw(final(mem)@, t.addr_spec(), q) == 0) && (forall|a: int|
                !in_frame(t.addr_spec(), a) ==> #[trigger] mem_word(final(mem)@, a) == mem_word(
                    old(mem)@,
                    a,
                ))),
    {
        let page = alloc.alloc_zeroed(mem)?;
        proof {
            assert forall|q: u64| q < 512 implies #[trigger] tw(mem@, page.addr_spec(), q)
                == 0 by {
                assert(mem_word(mem@, page.addr_spec() + 8 * (q as int)) == 0);
            }
        }
        Ok(page.cast())
    }
}

/// A handle on one page-table slot: the physical byte address of the 8-byte
/// entry.
#[derive(Debug, Clone, Copy)]
pub struct PageTableEntry {
    slot: u64,
}

impl PageTableEntry {
    /// The slot's physical byte address.
    pub closed spec fn slot_spec(&self) -> u64 {
        self.slot
    }

    /// The entry at slot `index` of the table at `table`.
    pub fn at(table: &PhysPtr<PageTable>, index: u64) -> (r: Self)
        requires
            table_ok(table.addr_spec()),
            index < 512,
        ensures
            r.slot_spec() == table.addr_spec() + 8 * index,
    {
        proof {
            lemma_slot_in_frame(table.addr_spec(), index);
        }
        PageTableEntry { slot: table.addr() + 8 * index }
    }

    /// Atomically loads and decodes the slot.
    pub fn get(&self, mem: &PhysMemory) -> (r: Option<PageTableValue>)
        requires
            self.slot_spec() % 8 == 0,
            spec_word_valid(mem_word(mem@, self.slot_spec() as int)),
        ensures
            r == spec_from_u64(mem_word(mem@, self.slot_spec() as int)),
    {
        PageTableValue::from_u64(mem.read_word(self.slot))
    }

    /// Installs `value` only if the slot is still empty, as the hardware
    /// compare-and-swap does; an occupied slot is left untouched and its
    /// current value is handed back.
    pub fn set(&self, mem: &mut PhysMemory, value: PageTableValue) -> (r: Result<
        (),
        PageTableValue,
    >)
        requires
            self.slot_spec() % 8 == 0,
            spec_word_valid(mem_word(old(mem)@, self.slot_spec() as int)),
            spec_producible(value),
        ensures
            mem_word(old(mem)@, self.slot_spec() as int) == 0 ==> (r is Ok && mem_word(
                final(mem)@,
                self.slot_spec() as int,
            ) == spec_to_u64(value) && (forall|b: int|
                b != self.slot_spec() ==> #[trigger] mem_word(final(mem)@, b) == mem_word(
                    old(mem)@,
                    b,
                ))),
            mem_word(old(mem)@, self.slot_spec() as int) != 0 ==> (r matches Err(v) && Some(v)
                == spec_from_u64(mem_word(old(mem)@, self.slot_spec() as int)) && *final(mem)
                == *old(mem)),
    {
        let current = mem.read_word(self.slot);
        if current == 0 {
            mem.write_word(self.slot, value.to_u64());
            Ok(())
        } else {
            proof {
                lemma_decode_encode(current);
            }
            match PageTableValue::from_u64(current) {
                Some(v) => Err(v),
                None => vstd::pervasive::unreached(),
            }
        }
    }

    /// Unconditionally stores the empty word, tearing the mapping down.
    pub fn clear(&self, mem: &mut PhysMemory)
        requires
            self.slot_spec() % 8 == 0,
        ensures
            mem_word(final(mem)@, self.slot_spec() as int) == 0,
            forall|b: int|
                b != self.slot_spec() ==> #[trigger] mem_word(final(mem)@, b) == mem_word(
                    old(mem)@,
                    b,
                ),
    {
        mem.write_word(self.slot, 0);
    }
}

/// Walks the tree from the root without creating anything, handing back the
/// level-1 slot for `virt`, or nothing when an intermediate table is absent.
pub fn find_pte(mem: &PhysMemory, ptroot: &PhysPtr<PageTable>, virt: u64) -> (r: Option<
    PageTableEntry,
>)
    requires
        inv_tree(mem@, ptroot.addr_spec()),
    ensures
        r is Some <==> t1_def(mem@, ptroot.addr_spec(), l4_index(virt), l3_index(virt), l2_index(virt)),
        r matches Some(e) ==> e.slot_spec() == t1_at(
            mem@,
            ptroot.addr_spec(),
            l4_index(virt),
            l3_index(virt),
            l2_index(virt),
        ) + 8 * l1_index(virt) && e.slot_spec() % 8 == 0,
    {
    let ghost root = ptroot.addr_spec();
    let pt4_index = get_bits_u64(virt, 39, 48);
    let pt3_index = get_bits_u64(virt, 30, 39);
    let pt2_index = get_bits_u64(virt, 21, 30);
    let pt1_index = get_bits_u64(virt, 12, 21);
    proof {
        lemma_nine_bit_mask();
        lemma_index_bounds(virt);
        assert(pt4_index == l4_index(virt) && pt3_index == l3_index(virt) && pt2_index == l2_index(
            virt,
        ) && pt1_index == l1_index(virt));
    }
    let i = pt4_index;
    let j = pt3_index;
    let k = pt2_index;

    let e4 = PageTableEntry::at(ptroot, i);
    proof {
        lemma_slot_in_frame(root, i);
        lemma_present_of_masked(tw(mem@, root, i));
        if tw(mem@, root, i) != 0 {
            lemma_table_link_facts(tw(mem@, root, i));
        }
    }
    let pt3 = match e4.get(mem) {
        None => {
            return None;
        },
        Some(v) => v.as_pagetable(),
    };
    proof {
        assert(t3_def(mem@, root, i));
        assert(pt3.addr_spec() == t3_at(mem@, root, i));
    }

    let e3 = PageTableEntry::at(&pt3, j);
    proof {
        lemma_slot_in_frame(t3_at(mem@, root, i), j);
        lemma_present_of_masked(tw(mem@, t3_at(mem@, root, i), j));
        if tw(mem@, t3_at(mem@, root, i), j) != 0 {
            lemma_table_link_facts(tw(mem@, t3_at(mem@, root, i), j));
        }
    }
    let pt2 = match e3.get(mem) {
        None => {
            return None;
        },
        Some(v) => v.as_pagetable(),
    };
    proof {
        assert(t2_def(mem@, root, i, j));
        assert(pt2.addr_spec() == t2_at(mem@, root, i, j));
    }

    let e2 = PageTableEntry::at(&pt2, k);
    proof {
        lemma_slot_in_frame(t2_at(mem@, root, i, j), k);
        lemma_present_of_masked(tw(mem@, t2_at(mem@, root, i, j), k));
        if tw(mem@, t2_at(mem@, root, i, j), k) != 0 {
            lemma_table_link_facts(tw(mem@, t2_at(mem@, root, i, j), k));
        }
    }
    let pt1 = match e2.get(mem) {
        None => {
            return None;
        },
        Some(v) => v.as_pagetable(),
    };
    proof {
        assert(t1_def(mem@, root, i, j, k));
        assert(pt1.addr_spec() == t1_at(mem@, root, i, j, k));
    }

    let e1 = PageTableEntry::at(&pt1, pt1_index);
    proof {
        lemma_slot_in_frame(t1_at(mem@, root, i, j, k), pt1_index);
    }
    Some(e1)
}

/// The table-link flag bits form a value this system may store.
pub proof fn lemma_table_flags_producible()
    ensures
        TABLE_FLAGS & FLAG_MASK == TABLE_FLAGS,
        TABLE_FLAGS & FLAG_PRESENT == FLAG_PRESENT,
        TABLE_FLAGS & FLAG_HUGE_PAGE == 0,
{
    assert(0x3u64 & 0xFFF0_0000_0000_0FFF == 0x3 && 0x3u64 & 0x1 == 0x1 && 0x3u64 & 0x80
        == 0) by (bit_vector);
}

/// The guard word and its tag, related through the one-bit shift.
pub proof fn lemma_guard_word_facts()
    ensures
        GUARD_WORD & FLAG_PRESENT == 0,
        GUARD_WORD != 0,
        GUARD_WORD >> 1 == SPECIAL_GUARD,
        SPECIAL_GUARD << 1 == GUARD_WORD,
{
    assert(0x2u64 & 0x1 == 0 && 0x2u64 >> 1 == 0x1 && 0x1u64 << 1 == 0x2) by (bit_vector);
}

/// Every word a leaf slot may hold under the invariant is a word `get` can
/// decode.
pub proof fn lemma_leaf_ok_valid(w: u64)
    requires
        leaf_ok(w),
    ensures
        spec_word_valid(w),
{
    lemma_present_of_masked(w);
    if w == GUARD_WORD {
        lemma_guard_word_facts();
    }
}



/// The frame backing page `n` of the range at `ptr`, read off its leaf word.
pub open spec fn backing(m: Map<u64, u64>, root: u64, ptr: u64, n: int) -> u64 {
    link_target(leaf_at(m, root, page_va(ptr, n)))
}

/// Page `n` of the range at `ptr` is backed by a frame that reads as all
/// zero words.
pub open spec fn zero_backed(m: Map<u64, u64>, root: u64, ptr: u64, n: int) -> bool {
    forall|q: int| 0 <= q < 512 ==> #[trigger] mem_word(m, backing(m, root, ptr, n) + 8 * q) == 0
}

/// No two of the first `count` pages of the range at `ptr` share a backing
/// frame.
pub open spec fn distinct_backings(m: Map<u64, u64>, root: u64, ptr: u64, count: int) -> bool {
    forall|n1: int, n2: int|
        0 <= n1 < n2 < count ==> #[trigger] backing(m, root, ptr, n1) != #[trigger] backing(
            m,
            root,
            ptr,
            n2,
        )
}

/// A frame the walk machinery can never write into: it is neither the root,
/// nor any table of the tree, nor on the free list. Frames handed out to
/// clients stay pinned in this sense, so their contents survive every later
/// walk, creation and install.
pub open spec fn pinned_frame(m: Map<u64, u64>, root: u64, free: Seq<u64>, g: u64) -> bool {
    &&& g % 4096 == 0
    &&& g < MAX_PHYS_ADDR
    &&& not_table(m, root, g)
    &&& forall|x: int| 0 <= x < free.len() ==> free[x] != g
}

/// Every frame pinned before stays pinned, with all its words untouched.
pub open spec fn pins_hold(
    m0: Map<u64, u64>,
    root: u64,
    free0: Seq<u64>,
    m: Map<u64, u64>,
    free: Seq<u64>,
) -> bool {
    &&& forall|g: u64|
        pinned_frame(m0, root, free0, g) ==> #[trigger] pinned_frame(m, root, free, g)
    &&& forall|g: u64, a: int|
        pinned_frame(m0, root, free0, g) && #[trigger] in_frame(g, a) ==> #[trigger] mem_word(
            m,
            a,
        ) == mem_word(m0, a)
}

/// Walks the tree for `virt`, creating any missing intermediate table from
/// fresh zeroed frames, and hands back the level-1 slot. Creation never
/// changes what any address translates to; it only extends the tree. On
/// exhaustion the free list has run dry and the tables already built stay.
pub fn find_pte_or_create(
    mem: &mut PhysMemory,
    alloc: &mut FrameAllocator,
    ptroot: &PhysPtr<PageTable>,
    virt: u64,
) -> (r: Result<PageTableEntry, OutOfMemory>)
    requires
        inv_tree(old(mem)@, ptroot.addr_spec()),
        old(alloc).wf(old(mem)@),
        forall|q: int|
            0 <= q < old(alloc).free_seq().len() ==> not_table(
                old(mem)@,
                ptroot.addr_spec(),
                #[trigger] old(alloc).free_seq()[q],
            ),
    ensures
        inv_tree(final(mem)@, ptroot.addr_spec()),
        final(alloc).wf(final(mem)@),
        forall|q: int|
            0 <= q < final(alloc).free_seq().len() ==> not_table(
                final(mem)@,
                ptroot.addr_spec(),
                #[trigger] final(alloc).free_seq()[q],
            ),
        final(alloc).free_seq().len() <= old(alloc).free_seq().len(),
        forall|x: int|
            0 <= x < final(alloc).free_seq().len() ==> #[trigger] final(alloc).free_seq()[x] == old(
                alloc,
            ).free_seq()[x + (old(alloc).free_seq().len() - final(alloc).free_seq().len())],
        forall|va: u64|
            #[trigger] leaf_at(final(mem)@, ptroot.addr_spec(), va) == leaf_at(
                old(mem)@,
                ptroot.addr_spec(),
                va,
            ),
        r matches Ok(e) ==> t1_def(
            final(mem)@,
            ptroot.addr_spec(),
            l4_index(virt),
            l3_index(virt),
            l2_index(virt),
        ) && e.slot_spec() == t1_at(
            final(mem)@,
            ptroot.addr_spec(),
            l4_index(virt),
            l3_index(virt),
            l2_index(virt),
        ) + 8 * l1_index(virt) && e.slot_spec() % 8 == 0 && old(alloc).free_seq().len() - 3
            <= final(alloc).free_seq().len(),
        r is Err ==> final(alloc).free_seq().len() == 0,
        old(alloc).free_seq().len() <= final(alloc).free_seq().len() + 3,
        pins_hold(
            old(mem)@,
            ptroot.addr_spec(),
            old(alloc).free_seq(),
            final(mem)@,
            final(alloc).free_seq(),
        ),
        forall|x: u64|
            x < 512 && t3_def(old(mem)@, ptroot.addr_spec(), x) ==> #[trigger] t3_def(
                final(mem)@,
                ptroot.addr_spec(),
                x,
            ),
{
    let ghost root = ptroot.addr_spec();
    let ghost m0 = old(mem)@;
    let pt4_index = get_bits_u64(virt, 39, 48);
    let pt3_index = get_bits_u64(virt, 30, 39);
    let pt2_index = get_bits_u64(virt, 21, 30);
    let pt1_index = get_bits_u64(virt, 12, 21);
    proof {
        lemma_nine_bit_mask();
        lemma_index_bounds(virt);
        assert(pt4_index == l4_index(virt) && pt3_index == l3_index(virt) && pt2_index == l2_index(
            virt,
        ) && pt1_index == l1_index(virt));
    }
    let i = pt4_index;
    let j = pt3_index;
    let k = pt2_index;

    // Level 4: find or create the level-3 table under root slot i.
    let e4 = PageTableEntry::at(ptroot, i);
    proof {
        lemma_slot_in_frame(root, i);
        lemma_present_of_masked(tw(mem@, root, i));
        if tw(mem@, root, i) != 0 {
            lemma_table_link_facts(tw(mem@, root, i));
        }
    }
    let got4 = e4.get(mem);
    let pt3: PhysPtr<PageTable> = match got4 {
        Some(v) => {
            let t = v.as_pagetable();
            proof {
                assert(t3_def(mem@, root, i));
                assert(t.addr_spec() == t3_at(mem@, root, i));
            }
            t
        },
        None => {
            let ghost m_pre = mem@;
            let ghost free_pre = alloc.free_seq();
            proof {
                alloc.lemma_no_double_allocation(mem@);
            }
            let table = PageTable::new(mem, alloc)?;
            let ghost f = table.addr_spec();
            proof {
                assert(not_table(m_pre, root, f));
                lemma_frame_write_preserves_tree(m_pre, mem@, root, f);
                assert forall|q: int|
                    0 <= q < alloc.free_seq().len() implies not_table(
                    mem@,
                    root,
                    #[trigger] alloc.free_seq()[q],
                ) by {
                    assert(alloc.free_seq()[q] == free_pre[q + 1]);
                    assert(not_table(m_pre, root, free_pre[q + 1]));
                }
                assert(!t3_def(mem@, root, i));
                assert(tw(mem@, root, i) == 0);
                lemma_table_flags_producible();
                lemma_flag_values();
            }
            let value = PageTableValue::Mapping {
                phys: table.cast(),
                flags: PageTableFlags::from_kind(MappingKind::Full),
            };
            let ghost m_mid = mem@;
            match e4.set(mem, value) {
                Ok(_) => {
                    proof {
                        lemma_encode_table(f);
                        lemma_table_word_fields(f);
                        assert(spec_to_u64(value) == table_word(f));
                        assert(mem_word(mem@, root + 8 * i) == table_word(f));
                        lemma_install_l3(m_mid, mem@, root, i, f);
                        alloc.lemma_free_frames_ok(m_mid);
                        assert forall|x: int, a: int|
                            0 <= x < alloc.free_seq().len() && in_frame(
                                #[trigger] alloc.free_seq()[x],
                                a,
                            ) implies #[trigger] mem_word(mem@, a) == mem_word(m_mid, a) by {
                            assert(not_table(m_mid, root, alloc.free_seq()[x]));
                            assert(alloc.free_seq()[x] != root);
                            lemma_frames_disjoint(root, alloc.free_seq()[x]);
                            assert(in_frame(root, root + 8 * i));
                            assert(a != root + 8 * i);
                        }
                        alloc.lemma_wf_preserved(m_mid, mem@);
                        assert forall|q: int|
                            0 <= q < alloc.free_seq().len() implies not_table(
                            mem@,
                            root,
                            #[trigger] alloc.free_seq()[q],
                        ) by {
                            assert(alloc.free_seq()[q] == free_pre[q + 1]);
                            assert(free_pre[q + 1] != free_pre[0]);
                            assert(not_table(m_mid, root, alloc.free_seq()[q]));
                        }
                        assert forall|g: u64|
                            pinned_frame(m_pre, root, free_pre, g) implies #[trigger] pinned_frame(
                            mem@,
                            root,
                            alloc.free_seq(),
                            g,
                        ) by {
                            assert(g != free_pre[0]);
                            assert forall|x: int|
                                0 <= x < alloc.free_seq().len() implies #[trigger] alloc.free_seq()[x]
                                != g by {
                                assert(alloc.free_seq()[x] == free_pre[x + 1]);
                            }
                            assert(not_table(m_mid, root, g));
                            assert(not_table(mem@, root, g));
                        }
                        assert forall|g: u64, a: int|
                            pinned_frame(m_pre, root, free_pre, g) && #[trigger] in_frame(g, a)
                            implies #[trigger] mem_word(mem@, a) == mem_word(m_pre, a) by {
                            assert(g != f);
                            lemma_frames_disjoint(g, f);
                            assert(mem_word(m_mid, a) == mem_word(m_pre, a));
                            assert(not_table(m_mid, root, g));
                            assert(g != root);
                            lemma_frames_disjoint(g, root);
                            lemma_slot_in_frame(root, i);
                            assert(in_frame(root, root + 8 * i));
                            assert(a != root + 8 * i);
                        }
                    }
                    table
                },
                Err(winner) => {
                    // With memory serialized behind one exclusive reference,
                    // the compare-and-swap cannot lose; the loser's path
                    // (free the fresh table, adopt the winner's) is provably
                    // unreachable here.
                    proof {
                        assert(false);
                    }
                    alloc.dealloc(mem, table.cast());
                    winner.as_pagetable()
                },
            }
        },
    };
    proof {
        assert(inv_tree(mem@, root));
        assert(t3_def(mem@, root, i));
        assert(pt3.addr_spec() == t3_at(mem@, root, i));
        assert(table_ok(pt3.addr_spec()));
        assert(pins_hold(m0, root, old(alloc).free_seq(), mem@, alloc.free_seq()));
        assert(forall|x: u64|
            x < 512 && t3_def(m0, root, x) ==> #[trigger] t3_def(mem@, root, x));
    }
    let ghost m_l4 = mem@;
    let ghost free_l4 = alloc.free_seq();

    // Level 3: find or create the level-2 table.
    let e3 = PageTableEntry::at(&pt3, j);
    proof {
        lemma_slot_in_frame(t3_at(mem@, root, i), j);
        lemma_present_of_masked(tw(mem@, t3_at(mem@, root, i), j));
        if tw(mem@, t3_at(mem@, root, i), j) != 0 {
            lemma_table_link_facts(tw(mem@, t3_at(mem@, root, i), j));
        }
    }
    let got3 = e3.get(mem);
    let pt2: PhysPtr<PageTable> = match got3 {
        Some(v) => {
            let t = v.as_pagetable();
            proof {
                assert(t2_def(mem@, root, i, j));
                assert(t.addr_spec() == t2_at(mem@, root, i, j));
            }
            t
        },
        None => {
            let ghost m_pre = mem@;
            let ghost free_pre = alloc.free_seq();
            proof {
                alloc.lemma_no_double_allocation(mem@);
            }
            let table = PageTable::new(mem, alloc)?;
            let ghost f = table.addr_spec();
            proof {
                assert(not_table(m_pre, root, f));
                lemma_frame_write_preserves_tree(m_pre, mem@, root, f);
                assert forall|q: int|
                    0 <= q < alloc.free_seq().len() implies not_table(
                    mem@,
                    root,
                    #[trigger] alloc.free_seq()[q],
                ) by {
                    assert(alloc.free_seq()[q] == free_pre[q + 1]);
                    assert(not_table(m_pre, root, free_pre[q + 1]));
                }
                assert(t3_def(mem@, root, i) && t3_at(mem@, root, i) == pt3.addr_spec());
                assert(!t2_def(mem@, root, i, j));
                assert(tw(mem@, t3_at(mem@, root, i), j) == 0);
                lemma_table_flags_producible();
                lemma_flag_values();
            }
            let value = PageTableValue::Mapping {
                phys: table.cast(),
                flags: PageTableFlags::from_kind(MappingKind::Full),
            };
            let ghost m_mid = mem@;
            match e3.set(mem, value) {
                Ok(_) => {
                    proof {
                        lemma_encode_table(f);
                        lemma_table_word_fields(f);
                        assert(spec_to_u64(value) == table_word(f));
                        assert(mem_word(mem@, t3_at(m_mid, root, i) + 8 * j) == table_word(f));
                        lemma_install_l2(m_mid, mem@, root, i, j, f);
                        alloc.lemma_free_frames_ok(m_mid);
                        assert forall|x: int, a: int|
                            0 <= x < alloc.free_seq().len() && in_frame(
                                #[trigger] alloc.free_seq()[x],
                                a,
                            ) implies #[trigger] mem_word(mem@, a) == mem_word(m_mid, a) by {
                            assert(not_table(m_mid, root, alloc.free_seq()[x]));
                            assert(alloc.free_seq()[x] != t3_at(m_mid, root, i));
                            lemma_frames_disjoint(t3_at(m_mid, root, i), alloc.free_seq()[x]);
                            lemma_slot_in_frame(t3_at(m_mid, root, i), j);
                            assert(in_frame(t3_at(m_mid, root, i), t3_at(m_mid, root, i) + 8 * j));
                            assert(a != t3_at(m_mid, root, i) + 8 * j);
                        }
                        alloc.lemma_wf_preserved(m_mid, mem@);
                        assert forall|q: int|
                            0 <= q < alloc.free_seq().len() implies not_table(
                            mem@,
                            root,
                            #[trigger] alloc.free_seq()[q],
                        ) by {
                            assert(alloc.free_seq()[q] == free_pre[q + 1]);
                            assert(free_pre[q + 1] != free_pre[0]);
                            assert(not_table(m_mid, root, alloc.free_seq()[q]));
                        }
                        assert forall|g: u64|
                            pinned_frame(m_pre, root, free_pre, g) implies #[trigger] pinned_frame(
                            mem@,
                            root,
                            alloc.free_seq(),
                            g,
                        ) by {
                            assert(g != free_pre[0]);
                            assert forall|x: int|
                                0 <= x < alloc.free_seq().len() implies #[trigger] alloc.free_seq()[x]
                                != g by {
                                assert(alloc.free_seq()[x] == free_pre[x + 1]);
                            }
                            assert(not_table(m_mid, root, g));
                            assert(not_table(mem@, root, g));
                        }
                        assert forall|g: u64, a: int|
                            pinned_frame(m_pre, root, free_pre, g) && #[trigger] in_frame(g, a)
                            implies #[trigger] mem_word(mem@, a) == mem_word(m_pre, a) by {
                            assert(g != f);
                            lemma_frames_disjoint(g, f);
                            assert(mem_word(m_mid, a) == mem_word(m_pre, a));
                            assert(not_table(m_mid, root, g));
                            assert(g != t3_at(m_mid, root, i));
                            lemma_frames_disjoint(g, t3_at(m_mid, root, i));
                            lemma_slot_in_frame(t3_at(m_mid, root, i), j);
                            assert(in_frame(t3_at(m_mid, root, i), t3_at(m_mid, root, i) + 8 * j));
                            assert(a != t3_at(m_mid, root, i) + 8 * j);
                        }
                    }
                    table
                },
                Err(winner) => {
                    // With memory serialized behind one exclusive reference,
                    // the compare-and-swap cannot lose; the loser's path
                    // (free the fresh table, adopt the winner's) is provably
                    // unreachable here.
                    proof {
                        assert(false);
                    }
                    alloc.dealloc(mem, table.cast());
                    winner.as_pagetable()
                },
            }
        },
    };
    proof {
        assert(inv_tree(mem@, root));
        assert(t2_def(mem@, root, i, j));
        assert(pt2.addr_spec() == t2_at(mem@, root, i, j));
        assert(table_ok(pt2.addr_spec()));
        assert forall|va: u64| #[trigger] leaf_at(mem@, root, va) == leaf_at(m0, root, va) by {
            assert(leaf_at(m_l4, root, va) == leaf_at(m0, root, va));
        }
        assert forall|g: u64|
            pinned_frame(m0, root, old(alloc).free_seq(), g) implies #[trigger] pinned_frame(
            mem@,
            root,
            alloc.free_seq(),
            g,
        ) by {
            assert(pinned_frame(m_l4, root, free_l4, g));
        }
        assert forall|g: u64, a: int|
            pinned_frame(m0, root, old(alloc).free_seq(), g) && #[trigger] in_frame(g, a)
            implies #[trigger] mem_word(mem@, a) == mem_word(m0, a) by {
            assert(pinned_frame(m_l4, root, free_l4, g));
            assert(mem_word(m_l4, a) == mem_word(m0, a));
        }
        assert forall|x: u64| x < 512 && t3_def(m0, root, x) implies #[trigger] t3_def(
            mem@,
            root,
            x,
        ) by {
            assert(t3_def(m_l4, root, x));
        }
    }
    let ghost m_l3 = mem@;
    let ghost free_l3 = alloc.free_seq();

    // Level 2: find or create the level-1 table.
    let e2 = PageTableEntry::at(&pt2, k);
    proof {
        lemma_slot_in_frame(t2_at(mem@, root, i, j), k);
        lemma_present_of_masked(tw(mem@, t2_at(mem@, root, i, j), k));
        if tw(mem@, t2_at(mem@, root, i, j), k) != 0 {
            lemma_table_link_facts(tw(mem@, t2_at(mem@, root, i, j), k));
        }
    }
    let got2 = e2.get(mem);
    let pt1: PhysPtr<PageTable> = match got2 {
        Some(v) => {
            let t = v.as_pagetable();
            proof {
                assert(t1_def(mem@, root, i, j, k));
                assert(t.addr_spec() == t1_at(mem@, root, i, j, k));
            }
            t
        },
        None => {
            let ghost m_pre = mem@;
            let ghost free_pre = alloc.free_seq();
            proof {
                alloc.lemma_no_double_allocation(mem@);
            }
            let table = PageTable::new(mem, alloc)?;
            let ghost f = table.addr_spec();
            proof {
                assert(not_table(m_pre, root, f));
                lemma_frame_write_preserves_tree(m_pre, mem@, root, f);
                assert forall|q: int|
                    0 <= q < alloc.free_seq().len() implies not_table(
                    mem@,
                    root,
                    #[trigger] alloc.free_seq()[q],
                ) by {
                    assert(alloc.free_seq()[q] == free_pre[q + 1]);
                    assert(not_table(m_pre, root, free_pre[q + 1]));
                }
                assert(t2_def(mem@, root, i, j) && t2_at(mem@, root, i, j) == pt2.addr_spec());
                assert(!t1_def(mem@, root, i, j, k));
                assert(tw(mem@, t2_at(mem@, root, i, j), k) == 0);
                lemma_table_flags_producible();
                lemma_flag_values();
            }
            let value = PageTableValue::Mapping {
                phys: table.cast(),
                flags: PageTableFlags::from_kind(MappingKind::Full),
            };
            let ghost m_mid = mem@;
            match e2.set(mem, value) {
                Ok(_) => {
                    proof {
                        lemma_encode_table(f);
                        lemma_table_word_fields(f);
                        assert(spec_to_u64(value) == table_word(f));
                        assert(mem_word(mem@, t2_at(m_mid, root, i, j) + 8 * k) == table_word(f));
                        lemma_install_l1(m_mid, mem@, root, i, j, k, f);
                        alloc.lemma_free_frames_ok(m_mid);
                        assert forall|x: int, a: int|
                            0 <= x < alloc.free_seq().len() && in_frame(
                                #[trigger] alloc.free_seq()[x],
                                a,
                            ) implies #[trigger] mem_word(mem@, a) == mem_word(m_mid, a) by {
                            assert(not_table(m_mid, root, alloc.free_seq()[x]));
                            assert(alloc.free_seq()[x] != t2_at(m_mid, root, i, j));
                            lemma_frames_disjoint(t2_at(m_mid, root, i, j), alloc.free_seq()[x]);
                            lemma_slot_in_frame(t2_at(m_mid, root, i, j), k);
                            assert(in_frame(
                                t2_at(m_mid, root, i, j),
                                t2_at(m_mid, root, i, j) + 8 * k,
                            ));
                            assert(a != t2_at(m_mid, root, i, j) + 8 * k);
                        }
                        alloc.lemma_wf_preserved(m_mid, mem@);
                        assert forall|q: int|
                            0 <= q < alloc.free_seq().len() implies not_table(
                            mem@,
                            root,
                            #[trigger] alloc.free_seq()[q],
                        ) by {
                            assert(alloc.free_seq()[q] == free_pre[q + 1]);
                            assert(free_pre[q + 1] != free_pre[0]);
                            assert(not_table(m_mid, root, alloc.free_seq()[q]));
                        }
                        assert forall|g: u64|
                            pinned_frame(m_pre, root, free_pre, g) implies #[trigger] pinned_frame(
                            mem@,
                            root,
                            alloc.free_seq(),
                            g,
                        ) by {
                            assert(g != free_pre[0]);
                            assert forall|x: int|
                                0 <= x < alloc.free_seq().len() implies #[trigger] alloc.free_seq()[x]
                                != g by {
                                assert(alloc.free_seq()[x] == free_pre[x + 1]);
                            }
                            assert(not_table(m_mid, root, g));
                            assert(not_table(mem@, root, g));
                        }
                        assert forall|g: u64, a: int|
                            pinned_frame(m_pre, root, free_pre, g) && #[trigger] in_frame(g, a)
                            implies #[trigger] mem_word(mem@, a) == mem_word(m_pre, a) by {
                            assert(g != f);
                            lemma_frames_disjoint(g, f);
                            assert(mem_word(m_mid, a) == mem_word(m_pre, a));
                            assert(not_table(m_mid, root, g));
                            assert(g != t2_at(m_mid, root, i, j));
                            lemma_frames_disjoint(g, t2_at(m_mid, root, i, j));
                            lemma_slot_in_frame(t2_at(m_mid, root, i, j), k);
                            assert(in_frame(t2_at(m_mid, root, i, j), t2_at(m_mid, root, i, j) + 8 * k));
                            assert(a != t2_at(m_mid, root, i, j) + 8 * k);
                        }
                    }
                    table
                },
                Err(winner) => {
                    // With memory serialized behind one exclusive reference,
                    // the compare-and-swap cannot lose; the loser's path
                    // (free the fresh table, adopt the winner's) is provably
                    // unreachable here.
                    proof {
                        assert(false);
                    }
                    alloc.dealloc(mem, table.cast());
                    winner.as_pagetable()
                },
            }
        },
    };
    proof {
        assert(inv_tree(mem@, root));
        assert(t1_def(mem@, root, i, j, k));
        assert(pt1.addr_spec() == t1_at(mem@, root, i, j, k));
        assert(table_ok(pt1.addr_spec()));
        assert forall|va: u64| #[trigger] leaf_at(mem@, root, va) == leaf_at(m0, root, va) by {
            assert(leaf_at(m_l3, root, va) == leaf_at(m0, root, va));
        }
        assert forall|g: u64|
            pinned_frame(m0, root, old(alloc).free_seq(), g) implies #[trigger] pinned_frame(
            mem@,
            root,
            alloc.free_seq(),
            g,
        ) by {
            assert(pinned_frame(m_l3, root, free_l3, g));
        }
        assert forall|g: u64, a: int|
            pinned_frame(m0, root, old(alloc).free_seq(), g) && #[trigger] in_frame(g, a)
            implies #[trigger] mem_word(mem@, a) == mem_word(m0, a) by {
            assert(pinned_frame(m_l3, root, free_l3, g));
            assert(mem_word(m_l3, a) == mem_word(m0, a));
        }
        assert forall|x: u64| x < 512 && t3_def(m0, root, x) implies #[trigger] t3_def(
            mem@,
            root,
            x,
        ) by {
            assert(t3_def(m_l3, root, x));
        }
    }

    let e1 = PageTableEntry::at(&pt1, pt1_index);
    proof {
        lemma_slot_in_frame(t1_at(mem@, root, i, j, k), pt1_index);
    }
    Ok(e1)
}

/// The start address of page `n` of a range beginning at `ptr`.
pub open spec fn page_va(ptr: u64, n: int) -> u64 {
    (ptr + 4096 * n) as u64
}

/// The whole range lies inside one 48-bit translation window, so its pages
/// walk to pairwise distinct leaf slots.
pub open spec fn in_window(ptr: u64, size: u64) -> bool {
    ptr % 0x1_0000_0000_0000 + size <= 0x1_0000_0000_0000
}

/// Whether `va` walks to the same leaf slot as some page of the range
/// `[ptr, ptr + size)`.
pub open spec fn covered(ptr: u64, size: u64, va: u64) -> bool {
    exists|n: int| 0 <= n < size / 4096 && same_page(va, #[trigger] page_va(ptr, n))
}

/// Addresses that walk alike reach the same leaf and the same answer.
pub proof fn lemma_same_page_same_leaf(m: Map<u64, u64>, root: u64, va: u64, vb: u64)
    requires
        same_page(va, vb),
    ensures
        leaf_at(m, root, va) == leaf_at(m, root, vb),
        query_of(m, root, va) == query_of(m, root, vb),
{
}

/// Distinct pages of one in-window range never share a leaf slot.
pub proof fn lemma_pages_distinct(ptr: u64, size: u64, n1: int, n2: int)
    requires
        ptr % 4096 == 0,
        size % 4096 == 0,
        in_window(ptr, size),
        ptr + size <= 0x1_0000_0000_0000_0000,
        0 <= n1 < size / 4096,
        0 <= n2 < size / 4096,
        n1 != n2,
    ensures
        !same_page(page_va(ptr, n1), page_va(ptr, n2)),
{
    vstd::arithmetic::div_mod::lemma_fundamental_div_mod(size as int, 4096);
    assert(4096 * (size / 4096) == size);
    assert(4096 * n1 + 4096 <= size) by (nonlinear_arith)
        requires
            0 <= n1 < size / 4096,
            4096 * (size as int / 4096) == size,
    ;
    assert(4096 * n2 + 4096 <= size) by (nonlinear_arith)
        requires
            0 <= n2 < size / 4096,
            4096 * (size as int / 4096) == size,
    ;
    let a = n1 as u64;
    let b = n2 as u64;
    let x = page_va(ptr, n1);
    let y = page_va(ptr, n2);
    assert(!(((x >> 39) & 0x1ff == (y >> 39) & 0x1ff) && ((x >> 30) & 0x1ff == (y >> 30) & 0x1ff)
        && ((x >> 21) & 0x1ff == (y >> 21) & 0x1ff) && ((x >> 12) & 0x1ff == (y >> 12)
        & 0x1ff))) by (bit_vector)
        requires
            ptr % 4096 == 0,
            a != b,
            ptr % 0x1_0000_0000_0000 + 4096 * a + 4096 <= 0x1_0000_0000_0000,
            ptr % 0x1_0000_0000_0000 + 4096 * b + 4096 <= 0x1_0000_0000_0000,
            x == ptr + 4096 * a,
            y == ptr + 4096 * b,
    ;
}

/// The flag bits of each encodable kind fit the flag mask, carry the
/// present bit, never mark a huge page, and decode back to the kind.
pub proof fn lemma_kind_flags_wf(kind: MappingKind)
    requires
        kind != MappingKind::Guard,
    ensures
        spec_flags_of_kind(kind) & FLAG_MASK == spec_flags_of_kind(kind),
        spec_flags_of_kind(kind) & FLAG_PRESENT == 1,
        spec_flags_of_kind(kind) & FLAG_HUGE_PAGE == 0,
        spec_kind_of_flags(spec_flags_of_kind(kind)) == Some(kind),
{
    lemma_flag_values();
    PageTableFlags::lemma_kind_round_trip(kind);
    assert((0x1u64 & 0xFFF0_0000_0000_0FFF == 0x1 && 0x1u64 & 0x1 == 0x1 && 0x1u64 & 0x80 == 0)
        && (0x8000_0000_0000_0001u64 & 0xFFF0_0000_0000_0FFF == 0x8000_0000_0000_0001
        && 0x8000_0000_0000_0001u64 & 0x1 == 0x1 && 0x8000_0000_0000_0001u64 & 0x80 == 0) && (
    0x8000_0000_0000_0003u64 & 0xFFF0_0000_0000_0FFF == 0x8000_0000_0000_0003
        && 0x8000_0000_0000_0003u64 & 0x1 == 0x1 && 0x8000_0000_0000_0003u64 & 0x80 == 0) && (
    0x3u64 & 0xFFF0_0000_0000_0FFF == 0x3 && 0x3u64 & 0x1 == 0x1 && 0x3u64 & 0x80 == 0) && (
    0x8000_0000_0000_0013u64 & 0xFFF0_0000_0000_0FFF == 0x8000_0000_0000_0013
        && 0x8000_0000_0000_0013u64 & 0x1 == 0x1 && 0x8000_0000_0000_0013u64 & 0x80 == 0) && (
    0x8000_0000_0000_001Bu64 & 0xFFF0_0000_0000_0FFF == 0x8000_0000_0000_001B
        && 0x8000_0000_0000_001Bu64 & 0x1 == 0x1 && 0x8000_0000_0000_001Bu64 & 0x80
        == 0)) by (bit_vector);
}

/// A present leaf word assembled from an aligned frame address and flag
/// bits decomposes back into exactly those parts.
pub proof fn lemma_mapping_word(a: u64, fb: u64)
    requires
        a % 4096 == 0,
        a < MAX_PHYS_ADDR,
        fb & FLAG_MASK == fb,
        fb & FLAG_PRESENT == 1,
    ensures
        ((a & !FLAG_MASK) | (fb & FLAG_MASK)) & FLAG_PRESENT == 1,
        ((a & !FLAG_MASK) | (fb & FLAG_MASK)) != 0,
        ((a & !FLAG_MASK) | (fb & FLAG_MASK)) & FLAG_MASK == fb,
        link_target((a & !FLAG_MASK) | (fb & FLAG_MASK)) == a,
{
    assert(((a & !0xFFF0_0000_0000_0FFFu64) | (fb & 0xFFF0_0000_0000_0FFFu64)) & 0x1 == 1 && ((a
        & !0xFFF0_0000_0000_0FFFu64) | (fb & 0xFFF0_0000_0000_0FFFu64)) != 0 && ((a
        & !0xFFF0_0000_0000_0FFFu64) | (fb & 0xFFF0_0000_0000_0FFFu64)) & 0xFFF0_0000_0000_0FFFu64
        == fb && ((a & !0xFFF0_0000_0000_0FFFu64) | (fb & 0xFFF0_0000_0000_0FFFu64))
        & !0xFFF0_0000_0000_0FFFu64 == a) by (bit_vector)
        requires
            a % 4096 == 0,
            a < 0x100_0000_0000u64,
            fb & 0xFFF0_0000_0000_0FFFu64 == fb,
            fb & 0x1 == 1,
    ;
}

} // verus!
