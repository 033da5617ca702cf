//! The model of physical memory and of the two allocators.
//!
//! `PhysicalMemory` plays the part of the machine's RAM together with the
//! frame allocator: it hands out fresh frames from a bump counter and stores
//! the byte contents of data frames.  A frame with no recorded contents reads
//! as zeroes.  `PageAllocator` is the virtual-page allocator; it hands out
//! contiguous, never-reused page ranges as owned `AllocatedPages` tokens.

use vstd::prelude::*;
use std::collections::HashMap;
use crate::addr::{Frame, Page, PageRange, PAGE_SIZE, PAGE_NUMBER_LIMIT, FRAME_NUMBER_LIMIT};

verus! {

broadcast use vstd::std_specs::hash::group_hash_axioms;

/// Physical memory: a frame allocator plus the bytes of each data frame.
pub struct PhysicalMemory {
    /// The next frame number the allocator will hand out.
    pub next_free_frame: u64,
    /// Frames at or above this number are not available for allocation.
    pub frame_limit: u64,
    /// The bytes stored in each frame; an absent frame reads as zeroes.
    pub contents: HashMap<u64, Vec<u8>>,
}

impl PhysicalMemory {
    pub open spec fn wf(self) -> bool {
        &&& self.next_free_frame <= self.frame_limit <= FRAME_NUMBER_LIMIT
        &&& forall|f: u64|
            self.contents@.contains_key(f) ==> (#[trigger] self.contents@[f])@.len() == PAGE_SIZE
    }

    /// The byte stored at `offset` within `frame`.
    pub open spec fn byte_at(self, frame: u64, offset: int) -> u8 {
        if self.contents@.contains_key(frame) && 0 <= offset < self.contents@[frame]@.len() {
            self.contents@[frame]@[offset]
        } else {
            0
        }
    }

    pub fn new(first_free_frame: u64, frame_limit: u64) -> (r: PhysicalMemory)
        requires
            first_free_frame <= frame_limit <= FRAME_NUMBER_LIMIT,
        ensures
            r.wf(),
            r.next_free_frame == first_free_frame,
            r.frame_limit == frame_limit,
            forall|f: u64, o: int| r.byte_at(f, o) == 0,
    {
        PhysicalMemory {
            next_free_frame: first_free_frame,
            frame_limit,
            contents: HashMap::new(),
        }
    }

    /// Hands out the next free frame.  Frames are never handed out twice.
    pub fn allocate_frame(&mut self) -> (r: Option<Frame>)
        requires
            old(self).wf(),
        ensures
            final(self).wf(),
            final(self).frame_limit == old(self).frame_limit,
            final(self).contents == old(self).contents,
            r is Some <==> old(self).next_free_frame < old(self).frame_limit,
            match r {
                Some(f) => {
                    &&& f.number == old(self).next_free_frame
                    &&& f.wf()
                    &&& final(self).next_free_frame == old(self).next_free_frame + 1
                },
                None => final(self).next_free_frame == old(self).next_free_frame,
            },
    {
        if self.next_free_frame < self.frame_limit {
            let f = Frame { number: self.next_free_frame };
            self.next_free_frame = self.next_free_frame + 1;
            Some(f)
        } else {
            None
        }
    }

    pub fn read_byte(&self, frame: u64, offset: u64) -> (r: u8)
        requires
            offset < PAGE_SIZE,
        ensures
            r == self.byte_at(frame, offset as int),
    {
        match self.contents.get(&frame) {
            Some(v) => {
                if (offset as usize) < v.len() {
                    v[offset as usize]
                } else {
                    0
                }
            },
            None => 0,
        }
    }

    pub fn write_byte(&mut self, frame: u64, offset: u64, value: u8)
        requires
            old(self).wf(),
            offset < PAGE_SIZE,
        ensures
            final(self).wf(),
            final(self).next_free_frame == old(self).next_free_frame,
            final(self).frame_limit == old(self).frame_limit,
            forall|f: u64, o: int|
                #![trigger final(self).byte_at(f, o)]
                final(self).byte_at(f, o) == if f == frame && o == offset as int {
                    value
                } else {
                    old(self).byte_at(f, o)
                },
    {
        let mut v: Vec<u8> = Vec::new();
        let mut i: u64 = 0;
        while i < PAGE_SIZE
            invariant
                i <= PAGE_SIZE,
                v@.len() == i,
                forall|j: int| 0 <= j < i ==> v@[j] == self.byte_at(frame, j),
                *self == *old(self),
                offset < PAGE_SIZE,
            decreases PAGE_SIZE - i,
        {
            v.push(self.read_byte(frame, i));
            i = i + 1;
        }
        v[offset as usize] = value;
        self.contents.insert(frame, v);
        proof {
            assert forall|f: u64, o: int|
                #![trigger final(self).byte_at(f, o)]
                final(self).byte_at(f, o) == if f == frame && o == offset as int {
                    value
                } else {
                    old(self).byte_at(f, o)
                } by {}
        }
    }
}

/// An owned range of virtual pages handed out by the page allocator.
#[derive(Debug)]
pub struct AllocatedPages {
    pub pages: PageRange,
}

/// The virtual-page allocator: a bump counter over page numbers.
pub struct PageAllocator {
    /// The next page number the allocator will hand out.
    pub next_free_page: u64,
}

impl PageAllocator {
    pub open spec fn wf(self) -> bool {
        self.next_free_page <= PAGE_NUMBER_LIMIT
    }

    pub fn new(first_free_page: u64) -> (r: PageAllocator)
        requires
            first_free_page <= PAGE_NUMBER_LIMIT,
        ensures
            r.wf(),
            r.next_free_page == first_free_page,
    {
        PageAllocator { next_free_page: first_free_page }
    }

    /// Reserves `count` contiguous fresh pages.  Fails only on a zero count
    /// or on exhaustion of the page-number space.
    pub fn allocate_pages(&mut self, count: u64) -> (r: Option<AllocatedPages>)
        requires
            old(self).wf(),
        ensures
            final(self).wf(),
            r is Some <==> (count > 0 && old(self).next_free_page + count <= PAGE_NUMBER_LIMIT),
            match r {
                Some(ap) => {
                    &&& ap.pages.start.number == old(self).next_free_page
                    &&& ap.pages.end.number == old(self).next_free_page + count - 1
                    &&& ap.pages.wf()
                    &&& ap.pages.spec_size_in_pages() == count
                    &&& final(self).next_free_page == old(self).next_free_page + count
                },
                None => *final(self) == *old(self),
            },
    {
        if count == 0 {
            return None;
        }
        if count > PAGE_NUMBER_LIMIT - self.next_free_page {
            return None;
        }
        let start = Page { number: self.next_free_page };
        let end = Page { number: self.next_free_page + count - 1 };
        self.next_free_page = self.next_free_page + count;
        Some(AllocatedPages { pages: PageRange { start, end } })
    }
}

} // verus!
