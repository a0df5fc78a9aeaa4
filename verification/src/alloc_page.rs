//! A bump allocator over a fixed range of virtual pages, used to carve out
//! page-aligned regions (heaps, stacks) from a reserved window.

use vstd::prelude::*;

use crate::mem::PAGE_SIZE;

verus! {

/// A half-open range of virtual pages, `[start, end)`, both page-aligned.
#[derive(Debug, Clone, Copy, PartialEq, Eq, Structural)]
pub struct PageRange {
    pub start: u64,
    pub end: u64,
}

/// Hands out consecutive page ranges from a window, never reusing any.
#[derive(Debug)]
pub struct PageAllocator {
    range: PageRange,
    next: u64,
}

impl PageAllocator {
    /// The window this allocator draws from.
    pub closed spec fn range_spec(&self) -> PageRange {
        self.range
    }

    /// The start of the next allocation.
    pub closed spec fn next_spec(&self) -> u64 {
        self.next
    }

    /// An allocator over `range`, starting at its first page.
    pub fn new(range: PageRange) -> (r: Self)
        ensures
            r.range_spec() == range,
            r.next_spec() == range.start,
    {
        PageAllocator { range, next: range.start }
    }

    /// Takes the next `count` pages. Only the start is checked against the
    /// window's end, so the last range handed out may
    /// stick out past it; a start at or past the end reports exhaustion,
    /// though the cursor has already moved.
    pub fn alloc_pages(&mut self, count: u64) -> (r: Option<PageRange>)
        requires
            count * PAGE_SIZE <= u64::MAX,
            old(self).next_spec() + count * PAGE_SIZE <= u64::MAX,
        ensures
            final(self).range_spec() == old(self).range_spec(),
            final(self).next_spec() == old(self).next_spec() + count * PAGE_SIZE,
            old(self).next_spec() >= old(self).range_spec().end ==> r is None,
            old(self).next_spec() < old(self).range_spec().end ==> r == Some(
                PageRange {
                    start: old(self).next_spec(),
                    end: (old(self).next_spec() + count * PAGE_SIZE) as u64,
                },
            ),
    {
        let size = count * PAGE_SIZE;
        let start = self.next;
        self.next = start + size;
        if start >= self.range.end {
            None
        } else {
            Some(PageRange { start, end: start + size })
        }
    }
}

} // verus!
