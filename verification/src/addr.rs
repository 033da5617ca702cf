//! Addresses, pages, frames, and their closed inclusive ranges.
//!
//! A `VirtualAddress` is a 48-bit canonical address; it splits into a page
//! number (the upper 36 bits) and a 12-bit page offset.  The page number
//! further splits into four 9-bit table indices, one per page-table level.

use vstd::prelude::*;

verus! {

/// Bytes in one page or frame.
pub const PAGE_SIZE: u64 = 4096;

/// Entries in one page table.
pub const ENTRIES_PER_PAGE_TABLE: u64 = 512;

/// Virtual addresses are 48-bit.
pub const ADDRESS_LIMIT: u64 = 0x1_0000_0000_0000;

/// Page numbers are 36-bit (48-bit address minus the 12-bit offset).
pub const PAGE_NUMBER_LIMIT: u64 = 0x10_0000_0000;

/// Frame numbers are 40-bit (52-bit physical address minus the offset).
pub const FRAME_NUMBER_LIMIT: u64 = 0x100_0000_0000;

/// A virtual address.
#[derive(Clone, Copy, PartialEq, Eq, Structural, Debug)]
pub struct VirtualAddress {
    pub value: u64,
}

/// A physical address.
#[derive(Clone, Copy, PartialEq, Eq, Structural, Debug)]
pub struct PhysicalAddress {
    pub value: u64,
}

/// A 4 KiB virtual page, identified by its page number.
#[derive(Clone, Copy, PartialEq, Eq, Structural, Debug)]
pub struct Page {
    pub number: u64,
}

/// A 4 KiB physical frame, identified by its frame number.
#[derive(Clone, Copy, PartialEq, Eq, Structural, Debug)]
pub struct Frame {
    pub number: u64,
}

impl VirtualAddress {
    /// A canonical address fits in 48 bits.
    pub open spec fn wf(self) -> bool {
        self.value < ADDRESS_LIMIT
    }

    pub fn new(value: u64) -> (r: VirtualAddress)
        requires
            value < ADDRESS_LIMIT,
        ensures
            r.value == value,
            r.wf(),
    {
        VirtualAddress { value }
    }

    /// The offset of this address within its page.
    pub open spec fn spec_page_offset(self) -> u64 {
        self.value & 0xfff
    }

    pub fn page_offset(self) -> (r: u64)
        ensures
            r == self.spec_page_offset(),
            r < PAGE_SIZE,
    {
        proof {
            let v = self.value;
            assert(v & 0xfff < 4096) by (bit_vector);
        }
        self.value & 0xfff
    }
}

impl PhysicalAddress {
    pub fn new(value: u64) -> (r: PhysicalAddress)
        ensures
            r.value == value,
    {
        PhysicalAddress { value }
    }
}

impl Page {
    /// A page number fits in 36 bits.
    pub open spec fn wf(self) -> bool {
        self.number < PAGE_NUMBER_LIMIT
    }

    /// The page holding the given virtual address.
    pub open spec fn spec_containing_address(va: VirtualAddress) -> Page {
        Page { number: va.value >> 12 }
    }

    pub fn containing_address(va: VirtualAddress) -> (r: Page)
        requires
            va.wf(),
        ensures
            r == Page::spec_containing_address(va),
            r.wf(),
    {
        proof {
            let v = va.value;
            assert(v < 0x1_0000_0000_0000 ==> v >> 12 < 0x10_0000_0000) by (bit_vector);
        }
        Page { number: va.value >> 12 }
    }

    /// The lowest virtual address inside this page.
    pub open spec fn spec_start_address(self) -> VirtualAddress {
        VirtualAddress { value: self.number << 12 }
    }

    pub fn start_address(self) -> (r: VirtualAddress)
        requires
            self.wf(),
        ensures
            r == self.spec_start_address(),
            r.wf(),
            r.value == self.number * PAGE_SIZE,
    {
        proof {
            let n = self.number;
            assert(n < 0x10_0000_0000 ==> (n << 12) < 0x1_0000_0000_0000) by (bit_vector);
            assert(n < 0x10_0000_0000 ==> (n << 12) == n * 4096) by (bit_vector);
        }
        VirtualAddress { value: self.number << 12 }
    }

    /// The table index this page uses at the given level (4 down to 1).
    pub open spec fn spec_index_at(self, level: nat) -> u64 {
        if level == 4 {
            (self.number >> 27) & 0x1ff
        } else if level == 3 {
            (self.number >> 18) & 0x1ff
        } else if level == 2 {
            (self.number >> 9) & 0x1ff
        } else {
            self.number & 0x1ff
        }
    }

    pub fn p4_index(self) -> (r: u64)
        ensures
            r == self.spec_index_at(4),
            r < ENTRIES_PER_PAGE_TABLE,
    {
        proof {
            let n = self.number;
            assert((n >> 27) & 0x1ff < 512) by (bit_vector);
        }
        (self.number >> 27) & 0x1ff
    }

    pub fn p3_index(self) -> (r: u64)
        ensures
            r == self.spec_index_at(3),
            r < ENTRIES_PER_PAGE_TABLE,
    {
        proof {
            let n = self.number;
            assert((n >> 18) & 0x1ff < 512) by (bit_vector);
        }
        (self.number >> 18) & 0x1ff
    }

    pub fn p2_index(self) -> (r: u64)
        ensures
            r == self.spec_index_at(2),
            r < ENTRIES_PER_PAGE_TABLE,
    {
        proof {
            let n = self.number;
            assert((n >> 9) & 0x1ff < 512) by (bit_vector);
        }
        (self.number >> 9) & 0x1ff
    }

    pub fn p1_index(self) -> (r: u64)
        ensures
            r == self.spec_index_at(1),
            r < ENTRIES_PER_PAGE_TABLE,
    {
        proof {
            let n = self.number;
            assert(n & 0x1ff < 512) by (bit_vector);
        }
        self.number & 0x1ff
    }

    /// An exec mirror of `spec_index_at`.
    pub fn index_at(self, level: u64) -> (r: u64)
        requires
            1 <= level <= 4,
        ensures
            r == self.spec_index_at(level as nat),
            r < ENTRIES_PER_PAGE_TABLE,
    {
        if level == 4 {
            self.p4_index()
        } else if level == 3 {
            self.p3_index()
        } else if level == 2 {
            self.p2_index()
        } else {
            self.p1_index()
        }
    }
}

impl Frame {
    /// A frame number fits in 40 bits.
    pub open spec fn wf(self) -> bool {
        self.number < FRAME_NUMBER_LIMIT
    }

    /// The frame holding the given physical address.
    pub fn containing_address(pa: PhysicalAddress) -> (r: Frame)
        ensures
            r.number == pa.value >> 12,
    {
        Frame { number: pa.value >> 12 }
    }

    /// The lowest physical address inside this frame.
    pub open spec fn spec_start_address(self) -> PhysicalAddress {
        PhysicalAddress { value: (self.number * PAGE_SIZE) as u64 }
    }

    pub fn start_address(self) -> (r: PhysicalAddress)
        requires
            self.wf(),
        ensures
            r == self.spec_start_address(),
            r.value == self.number * PAGE_SIZE,
    {
        proof {
            let n = self.number;
            assert(n < 0x100_0000_0000 ==> (n << 12) == n * 4096) by (bit_vector);
            assert(n < 0x100_0000_0000 ==> (n << 12) >> 12 == n) by (bit_vector);
        }
        PhysicalAddress { value: self.number << 12 }
    }
}

/// Every table index is below the number of entries per table.
pub proof fn lemma_index_bound(p: Page, l: nat)
    ensures
        p.spec_index_at(l) < ENTRIES_PER_PAGE_TABLE,
{
    let n = p.number;
    assert((n >> 27) & 0x1ff < 512 && (n >> 18) & 0x1ff < 512 && (n >> 9) & 0x1ff < 512 && n
        & 0x1ff < 512) by (bit_vector);
}

/// Two pages with the same four table indices are the same page.
pub proof fn lemma_page_indices_injective(a: Page, b: Page)
    requires
        a.wf(),
        b.wf(),
        a.spec_index_at(4) == b.spec_index_at(4),
        a.spec_index_at(3) == b.spec_index_at(3),
        a.spec_index_at(2) == b.spec_index_at(2),
        a.spec_index_at(1) == b.spec_index_at(1),
    ensures
        a == b,
{
    let x = a.number;
    let y = b.number;
    assert(x == y) by (bit_vector)
        requires
            x < 0x10_0000_0000,
            y < 0x10_0000_0000,
            (x >> 27) & 0x1ff == (y >> 27) & 0x1ff,
            (x >> 18) & 0x1ff == (y >> 18) & 0x1ff,
            (x >> 9) & 0x1ff == (y >> 9) & 0x1ff,
            x & 0x1ff == y & 0x1ff,
    ;
}

/// A page's start address plus an in-page offset decomposes back into that
/// page and that offset.
pub proof fn lemma_address_in_page(p: Page, k: u64)
    requires
        p.wf(),
        k < PAGE_SIZE,
    ensures
        (p.number * PAGE_SIZE + k) < ADDRESS_LIMIT,
        Page::spec_containing_address(
            VirtualAddress { value: (p.number * PAGE_SIZE + k) as u64 },
        ) == p,
        (VirtualAddress { value: (p.number * PAGE_SIZE + k) as u64 }).spec_page_offset() == k,
{
    let n = p.number;
    assert(n * 4096 + k < 0x1_0000_0000_0000 && ((n * 4096 + k) as u64) >> 12 == n && ((n * 4096
        + k) as u64) & 0xfff == k) by (bit_vector)
        requires
            n < 0x10_0000_0000,
            k < 4096,
    ;
}

/// A closed inclusive range of contiguous virtual pages; empty when
/// `end < start`.
#[derive(Clone, Copy, PartialEq, Eq, Structural, Debug)]
pub struct PageRange {
    pub start: Page,
    pub end: Page,
}

impl PageRange {
    pub open spec fn wf(self) -> bool {
        self.start.wf() && self.end.wf()
    }

    pub open spec fn spec_contains(self, p: Page) -> bool {
        self.start.number <= p.number <= self.end.number
    }

    pub open spec fn spec_size_in_pages(self) -> int {
        if self.start.number <= self.end.number {
            self.end.number - self.start.number + 1
        } else {
            0
        }
    }

    pub open spec fn is_empty_spec(self) -> bool {
        self.end.number < self.start.number
    }

    pub fn new(start: Page, end: Page) -> (r: PageRange)
        ensures
            r.start == start,
            r.end == end,
    {
        PageRange { start, end }
    }

    /// An empty range: it contains no page.
    pub fn empty() -> (r: PageRange)
        ensures
            r.is_empty_spec(),
            r.spec_size_in_pages() == 0,
            r.wf(),
    {
        PageRange { start: Page { number: 1 }, end: Page { number: 0 } }
    }

    pub fn size_in_pages(self) -> (r: u64)
        requires
            self.wf(),
        ensures
            r == self.spec_size_in_pages(),
    {
        if self.start.number <= self.end.number {
            self.end.number - self.start.number + 1
        } else {
            0
        }
    }

    pub fn contains(self, p: Page) -> (r: bool)
        ensures
            r == self.spec_contains(p),
    {
        self.start.number <= p.number && p.number <= self.end.number
    }
}

/// A closed inclusive range of contiguous physical frames; empty when
/// `end < start`.
#[derive(Clone, Copy, PartialEq, Eq, Structural, Debug)]
pub struct FrameRange {
    pub start: Frame,
    pub end: Frame,
}

impl FrameRange {
    pub open spec fn wf(self) -> bool {
        self.start.wf() && self.end.wf()
    }

    pub open spec fn spec_size_in_frames(self) -> int {
        if self.start.number <= self.end.number {
            self.end.number - self.start.number + 1
        } else {
            0
        }
    }

    pub fn new(start: Frame, end: Frame) -> (r: FrameRange)
        ensures
            r.start == start,
            r.end == end,
    {
        FrameRange { start, end }
    }

    pub fn size_in_frames(self) -> (r: u64)
        requires
            self.wf(),
        ensures
            r == self.spec_size_in_frames(),
    {
        if self.start.number <= self.end.number {
            self.end.number - self.start.number + 1
        } else {
            0
        }
    }
}

} // verus!
