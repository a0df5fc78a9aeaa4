//! Page tables and entries carried as plain values, with a phantom level
//! tag: an entry of a level-4 table can only yield a level-3 table, and so
//! on down to the level-1 leaves.

use vstd::prelude::*;

use crate::mem::mapping::x86_64::{
    spec_flags_of_kind, FLAG_HUGE_PAGE, FLAG_MASK, FLAG_PRESENT, PageTableFlags,
};
use crate::mem::mapping::MappingKind;
use crate::mem::physptr::{spec_phys_ptr, PhysPtr};
use crate::mem::MAX_PHYS_ADDR;

verus! {

/// A level of the 4-level paging hierarchy.
pub trait Level {
    /// The level's number, 4 down to 1.
    spec fn lvl() -> nat;

    /// The level's number as a machine value.
    fn num() -> (n: u8)
        ensures
            n as nat == Self::lvl(),
    ;
}

/// A level that has a level below it.
pub trait LevelDec: Level {
    /// The next level down.
    type Dec: Level;
}

/// The root level.
#[derive(Debug, Clone, Copy)]
pub struct Level4;

impl Level for Level4 {
    open spec fn lvl() -> nat {
        4
    }

    fn num() -> u8 {
        4
    }
}

impl LevelDec for Level4 {
    type Dec = Level3;
}

/// The second level from the top.
#[derive(Debug, Clone, Copy)]
pub struct Level3;

impl Level for Level3 {
    open spec fn lvl() -> nat {
        3
    }

    fn num() -> u8 {
        3
    }
}

impl LevelDec for Level3 {
    type Dec = Level2;
}

/// The third level from the top.
#[derive(Debug, Clone, Copy)]
pub struct Level2;

impl Level for Level2 {
    open spec fn lvl() -> nat {
        2
    }

    fn num() -> u8 {
        2
    }
}

impl LevelDec for Level2 {
    type Dec = Level1;
}

/// The leaf level.
#[derive(Debug, Clone, Copy)]
pub struct Level1;

impl Level for Level1 {
    open spec fn lvl() -> nat {
        1
    }

    fn num() -> u8 {
        1
    }
}

/// One entry of a level-`L` table, carried by value.
#[derive(Debug)]
pub struct PageTableEntry<L: Level> {
    data: u64,
    _phantom: core::marker::PhantomData<L>,
}

impl<L: Level> Clone for PageTableEntry<L> {
    fn clone(&self) -> (r: Self)
        ensures
            r == *self,
    {
        *self
    }
}

impl<L: Level> Copy for PageTableEntry<L> {

}

impl<L: Level> PageTableEntry<L> {
    /// The raw entry word.
    pub closed spec fn data_spec(&self) -> u64 {
        self.data
    }

    /// An entry whose address field stays below the physical limit.
    pub open spec fn wf(&self) -> bool {
        self.data_spec() & !FLAG_MASK < MAX_PHYS_ADDR
    }

    /// A present entry from a frame address and flags; the present bit is a
    /// precondition, since a non-present word is no entry.
    pub fn new(ptr: PhysPtr<()>, flags: PageTableFlags) -> (r: Self)
        requires
            flags.bits & FLAG_PRESENT == FLAG_PRESENT,
            ptr.addr_spec() % 4096 == 0,
            ptr.wf(),
        ensures
            r.data_spec() == (flags.bits & FLAG_MASK) | ptr.addr_spec(),
            r.wf(),
    {
        proof {
            lemma_entry_fields(ptr.addr_spec(), flags.bits);
        }
        PageTableEntry {
            data: (flags.bits & FLAG_MASK) | ptr.addr(),
            _phantom: core::marker::PhantomData,
        }
    }

    /// Decodes a raw word: an entry only if the present bit is set.
    pub fn from_bits(data: u64) -> (r: Option<Self>)
        requires
            data & !FLAG_MASK < MAX_PHYS_ADDR,
        ensures
            data & FLAG_PRESENT == FLAG_PRESENT ==> (r matches Some(e) && e.data_spec() == data
                && e.wf()),
            data & FLAG_PRESENT != FLAG_PRESENT ==> r is None,
    {
        if data & FLAG_MASK & FLAG_PRESENT == FLAG_PRESENT {
            proof {
                crate::mem::mapping::x86_64::lemma_present_of_masked(data);
            }
            Some(PageTableEntry { data, _phantom: core::marker::PhantomData })
        } else {
            proof {
                crate::mem::mapping::x86_64::lemma_present_of_masked(data);
            }
            None
        }
    }

    /// The flag bits of the entry.
    pub fn flags(&self) -> (r: PageTableFlags)
        ensures
            r.bits == self.data_spec() & FLAG_MASK,
    {
        PageTableFlags { bits: self.data & FLAG_MASK }
    }

    /// The frame address the entry points at.
    pub fn ptr(&self) -> (r: PhysPtr<()>)
        requires
            self.wf(),
        ensures
            r.addr_spec() == self.data_spec() & !FLAG_MASK,
    {
        PhysPtr::new(self.data & !FLAG_MASK)
    }
}

impl<L: LevelDec> PageTableEntry<L> {
    /// The child table one level down.
    pub fn table(&self) -> (r: PhysPtr<PageTable<L::Dec>>)
        requires
            self.wf(),
        ensures
            r.addr_spec() == self.data_spec() & !FLAG_MASK,
    {
        proof {
            crate::mem::mapping::x86_64::lemma_addr_field_aligned(self.data_spec());
        }
        self.ptr().cast()
    }

    /// The child table one level down, read straight off the address field.
    pub fn read_table(&self) -> (r: PhysPtr<PageTable<L::Dec>>)
        requires
            self.wf(),
        ensures
            r.addr_spec() == self.data_spec() & !FLAG_MASK,
    {
        self.table()
    }
}

impl PageTableEntry<Level1> {
    /// The mapped frame of a leaf entry.
    pub fn read(&self) -> (r: PhysPtr<()>)
        requires
            self.wf(),
        ensures
            r.addr_spec() == self.data_spec() & !FLAG_MASK,
    {
        self.ptr()
    }
}

/// A 4096-byte table of 512 entries at level `L`, carried by value.
#[derive(Debug)]
pub struct PageTable<L: Level> {
    data: Vec<u64>,
    _phantom: core::marker::PhantomData<L>,
}

impl<L: Level> crate::mem::physptr::Pointee for PageTable<L> {
    open spec fn spec_align() -> u64 {
        4096
    }
}

impl<L: Level> PageTable<L> {
    /// The stored entry words.
    pub closed spec fn data_spec(&self) -> Seq<u64> {
        self.data@
    }

    /// A table always holds exactly 512 slots with in-range addresses.
    pub open spec fn wf(&self) -> bool {
        &&& self.data_spec().len() == 512
        &&& forall|i: int|
            0 <= i < 512 ==> (#[trigger] self.data_spec()[i]) & !FLAG_MASK < MAX_PHYS_ADDR
    }

    /// An empty table.
    pub fn new() -> (r: Self)
        ensures
            r.wf(),
            forall|i: int| 0 <= i < 512 ==> #[trigger] r.data_spec()[i] == 0,
    {
        let mut data: Vec<u64> = Vec::new();
        let mut i: usize = 0;
        while i < 512
            invariant
                0 <= i <= 512,
                data@.len() == i,
                forall|x: int| 0 <= x < i ==> #[trigger] data@[x] == 0,
            decreases 512 - i,
        {
            data.push(0);
            i = i + 1;
        }
        proof {
            assert forall|i2: int| 0 <= i2 < 512 implies (#[trigger] data@[i2]) & !FLAG_MASK
                < MAX_PHYS_ADDR by {
                lemma_zero_addr_field();
            }
        }
        PageTable { data, _phantom: core::marker::PhantomData }
    }

    /// Stores an entry; a huge-page entry is allowed only in the levels
    /// where the hardware accepts one.
    pub fn set_entry(&mut self, index: usize, entry: PageTableEntry<L>)
        requires
            old(self).wf(),
            index < 512,
            entry.wf(),
            L::lvl() >= 3 ==> entry.data_spec() & FLAG_HUGE_PAGE == 0,
        ensures
            final(self).wf(),
            final(self).data_spec() == old(self).data_spec().update(
                index as int,
                entry.data_spec(),
            ),
    {
        let w = entry.data;
        self.data.set(index, w);
    }

    /// Loads an entry; an empty or non-present slot reads as nothing.
    pub fn get_entry(&self, index: usize) -> (r: Option<PageTableEntry<L>>)
        requires
            self.wf(),
            index < 512,
        ensures
            self.data_spec()[index as int] & FLAG_PRESENT == FLAG_PRESENT ==> (r matches Some(e)
                && e.data_spec() == self.data_spec()[index as int]),
            self.data_spec()[index as int] & FLAG_PRESENT != FLAG_PRESENT ==> r is None,
    {
        PageTableEntry::from_bits(self.data[index])
    }
}

/// The assembled entry word decomposes back into its parts.
proof fn lemma_entry_fields(a: u64, fb: u64)
    requires
        a % 4096 == 0,
        a < MAX_PHYS_ADDR,
    ensures
        ((fb & FLAG_MASK) | a) & !FLAG_MASK < MAX_PHYS_ADDR,
{
    assert(((fb & 0xFFF0_0000_0000_0FFFu64) | a) & !0xFFF0_0000_0000_0FFFu64
        == a) by (bit_vector)
        requires
            a % 4096 == 0,
            a < 0x100_0000_0000u64,
    ;
}

/// The empty word has an empty address field.
proof fn lemma_zero_addr_field()
    ensures
        0u64 & !FLAG_MASK < MAX_PHYS_ADDR,
{
    assert(0u64 & !0xFFF0_0000_0000_0FFFu64 == 0) by (bit_vector);
}

} // verus!
