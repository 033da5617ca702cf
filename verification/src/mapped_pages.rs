//! `MappedPages`: an owning handle over a live, contiguous virtual mapping.
//!
//! The handle records the P4 frame it was installed under, the page range it
//! covers, and the flags it was mapped with.  `covers` is the handle's
//! governing invariant: every page of the range is mapped by a present
//! level-1 entry whose flags are exactly the handle's flags (plus PRESENT).
//! Tearing a handle down is an explicit operation here (`unmap`); the
//! surrounding program is expected to call it where a destructor would run.

use vstd::prelude::*;
use crate::addr::{Frame, Page, PageRange, VirtualAddress, PAGE_SIZE, PAGE_NUMBER_LIMIT};
use crate::flags::{EntryFlags, PRESENT, WRITABLE};
use crate::mapper::{frame_of, obs_eq, Mapper};
use crate::phys::{AllocatedPages, PhysicalMemory, PageAllocator};
use crate::table::{leaf_mapped, lemma_distinct_pages_differ, path_clear, table_remap, table_unmap, table_walk};

verus! {

/// The page range of a mapping: either owned by the virtual-page allocator
/// or a raw range created before the allocator existed.
#[derive(Debug)]
pub enum MaybeAllocatedPages {
    Allocated(AllocatedPages),
    NotAllocated(PageRange),
}

impl MaybeAllocatedPages {
    pub open spec fn range_spec(self) -> PageRange {
        match self {
            MaybeAllocatedPages::Allocated(ap) => ap.pages,
            MaybeAllocatedPages::NotAllocated(pr) => pr,
        }
    }

    pub open spec fn is_allocated_spec(self) -> bool {
        self is Allocated
    }

    pub fn is_allocated(&self) -> (r: bool)
        ensures
            r == self.is_allocated_spec(),
    {
        match self {
            MaybeAllocatedPages::Allocated(ap) => true,
            MaybeAllocatedPages::NotAllocated(pr) => false,
        }
    }

    pub fn range(&self) -> (r: PageRange)
        ensures
            r == self.range_spec(),
    {
        match self {
            MaybeAllocatedPages::Allocated(ap) => ap.pages,
            MaybeAllocatedPages::NotAllocated(pr) => *pr,
        }
    }
}

/// An owning handle to a contiguous range of mapped virtual pages.
#[derive(Debug)]
pub struct MappedPages {
    /// The frame of the P4 table this mapping was installed under.
    pub page_table_p4: Frame,
    /// The virtual pages covered by this mapping.
    pub pages: MaybeAllocatedPages,
    /// The flags every page of this mapping was mapped with.
    pub flags: EntryFlags,
}

impl MappedPages {
    pub open spec fn range_spec(self) -> PageRange {
        self.pages.range_spec()
    }

    pub open spec fn wf(self) -> bool {
        self.range_spec().wf()
    }

    /// The handle's invariant against a mapper: it was installed under the
    /// mapper's P4, and every covered page walks to a present level-1 entry
    /// carrying exactly the handle's flags.
    pub open spec fn covers(self, mapper: Mapper) -> bool {
        &&& self.page_table_p4 == mapper.target_p4
        &&& forall|p: Page|
            self.range_spec().spec_contains(p) ==> #[trigger] leaf_mapped(mapper.p4, 4, p) && (
            table_walk(mapper.p4, 4, p) matches Some(fb) && fb.1 == self.flags.bits | PRESENT)
    }

    /// An empty handle: covers no page, performs no teardown.
    pub fn empty() -> (r: MappedPages)
        ensures
            r.range_spec().is_empty_spec(),
            r.range_spec().spec_size_in_pages() == 0,
            r.wf(),
            r.flags.bits == 0,
    {
        MappedPages {
            page_table_p4: Frame { number: 0 },
            pages: MaybeAllocatedPages::NotAllocated(PageRange::empty()),
            flags: EntryFlags::default(),
        }
    }

    /// The flags this mapping was created with.
    pub fn flags(&self) -> (r: EntryFlags)
        ensures
            r == self.flags,
    {
        self.flags
    }

    /// Wraps an already existing raw mapping in a handle.  The caller names
    /// the P4 frame the mapping lives under.
    pub fn from_existing(already_mapped_pages: PageRange, flags: EntryFlags, page_table_p4: Frame)
        -> (r: MappedPages)
        ensures
            r.page_table_p4 == page_table_p4,
            r.range_spec() == already_mapped_pages,
            r.flags == flags,
            !r.pages.is_allocated_spec(),
    {
        MappedPages {
            page_table_p4,
            pages: MaybeAllocatedPages::NotAllocated(already_mapped_pages),
            flags,
        }
    }

    pub fn size_in_pages(&self) -> (r: u64)
        requires
            self.wf(),
        ensures
            r == self.range_spec().spec_size_in_pages(),
    {
        self.pages.range().size_in_pages()
    }

    pub fn size_in_bytes(&self) -> (r: u64)
        requires
            self.wf(),
        ensures
            r == self.range_spec().spec_size_in_pages() * PAGE_SIZE,
    {
        self.pages.range().size_in_pages() * PAGE_SIZE
    }

    /// The first virtual address of the mapping.
    pub fn start_address(&self) -> (r: VirtualAddress)
        requires
            self.wf(),
        ensures
            r == self.range_spec().start.spec_start_address(),
            r.value == self.range_spec().start.number * PAGE_SIZE,
            r.wf(),
    {
        self.pages.range().start.start_address()
    }

    /// Extends this mapping over the pages of `mp`, which must continue it
    /// exactly: same P4, same flags, `mp` starting right after this
    /// mapping's end, and the same allocated / not-allocated provenance.  On
    /// failure `mp` is handed back intact and this handle is unchanged.
    pub fn merge(&mut self, mp: MappedPages) -> (r: Result<(), (&'static str, MappedPages)>)
        requires
            old(self).wf(),
        ensures
            r is Ok <==> (mp.page_table_p4 == old(self).page_table_p4 && mp.flags == old(self).flags && mp.range_spec().start.number == old(self).range_spec().end.number + 1
                && mp.pages.is_allocated_spec() == old(self).pages.is_allocated_spec()),
            r is Ok ==> {
                &&& final(self).page_table_p4 == old(self).page_table_p4
                &&& final(self).flags == old(self).flags
                &&& final(self).range_spec().start == old(self).range_spec().start
                &&& final(self).range_spec().end == mp.range_spec().end
                &&& final(self).pages.is_allocated_spec() == old(self).pages.is_allocated_spec()
            },
            r matches Err((m, returned)) ==> returned == mp && *final(self) == *old(self),
            mp.page_table_p4 != old(self).page_table_p4 ==> (r matches Err((m, returned)) && m@
                == "mappings were mapped with different page tables"@),
            mp.page_table_p4 == old(self).page_table_p4 && mp.flags != old(self).flags ==> (
            r matches Err((m, returned)) && m@ == "mappings were mapped with different flags"@),
            mp.page_table_p4 == old(self).page_table_p4 && mp.flags == old(self).flags
                && mp.range_spec().start.number != old(self).range_spec().end.number + 1 ==> (
            r matches Err((m, returned)) && m@
                == "mappings were not contiguous in virtual memory"@),
            mp.page_table_p4 == old(self).page_table_p4 && mp.flags == old(self).flags
                && mp.range_spec().start.number == old(self).range_spec().end.number + 1
                && mp.pages.is_allocated_spec() != old(self).pages.is_allocated_spec() ==> (
            r matches Err((m, returned)) && m@
                == "some mappings were mapped to AllocatedPages, while others were not"@),
    {
        let previous_end: Page = self.pages.range().end;

        if mp.page_table_p4.number != self.page_table_p4.number {
            return Err(("mappings were mapped with different page tables", mp));
        }
        if mp.flags.bits() != self.flags.bits() {
            return Err(("mappings were mapped with different flags", mp));
        }
        if mp.pages.range().start.number != previous_end.number + 1 {
            return Err(("mappings were not contiguous in virtual memory", mp));
        }
        if mp.pages.is_allocated() != self.pages.is_allocated() {
            return Err(("some mappings were mapped to AllocatedPages, while others were not", mp));
        }

        let new_range = PageRange::new(self.pages.range().start, mp.pages.range().end);
        let new_pages = if self.pages.is_allocated() {
            MaybeAllocatedPages::Allocated(AllocatedPages { pages: new_range })
        } else {
            MaybeAllocatedPages::NotAllocated(new_range)
        };
        self.pages = new_pages;
        Ok(())
    }

    /// Rewrites every page's level-1 entry with `new_flags`, preserving the
    /// mapped frames, then records the new flags in the handle.  On the real
    /// machine each rewrite is followed by a TLB invalidation and the whole
    /// batch by one shootdown broadcast; the model has no TLB.  Remapping to
    /// the flags already held, or remapping an empty handle, changes
    /// nothing.
    pub fn remap(&mut self, active_table_mapper: &mut Mapper, new_flags: EntryFlags) -> (r: Result<
        (),
        &'static str,
    >)
        requires
            old(self).wf(),
            old(active_table_mapper).wf(),
            old(self).covers(*old(active_table_mapper)),
        ensures
            r is Ok,
            final(active_table_mapper).wf(),
            final(active_table_mapper).target_p4 == old(active_table_mapper).target_p4,
            final(self).page_table_p4 == old(self).page_table_p4,
            final(self).pages == old(self).pages,
            final(self).covers(*final(active_table_mapper)),
            new_flags == old(self).flags ==> (*final(self) == *old(self) && *final(active_table_mapper) == *old(active_table_mapper)),
            old(self).range_spec().spec_size_in_pages() == 0 ==> (*final(self) == *old(self)
                && *final(active_table_mapper) == *old(active_table_mapper)),
            old(self).range_spec().spec_size_in_pages() > 0 && new_flags != old(self).flags ==> {
                &&& final(self).flags == new_flags
                &&& forall|p: Page|
                    old(self).range_spec().spec_contains(p) ==> (old(active_table_mapper).translation(p) matches Some(fb) && #[trigger] final(active_table_mapper).translation(p) == Some((fb.0, new_flags.bits | PRESENT)))
                &&& forall|q: Page|
                    q.wf() && !old(self).range_spec().spec_contains(q) ==> #[trigger] obs_eq(
                        final(active_table_mapper).p4,
                        old(active_table_mapper).p4,
                        q,
                    )
            },
    {
        if self.size_in_pages() == 0 {
            return Ok(());
        }
        if new_flags.bits() == self.flags.bits() {
            return Ok(());
        }
        let range = self.pages.range();
        let ghost m0 = *active_table_mapper;
        let mut n: u64 = range.start.number;
        while n <= range.end.number
            invariant
                active_table_mapper.wf(),
                active_table_mapper.target_p4 == m0.target_p4,
                *self == *old(self),
                m0 == *old(active_table_mapper),
                old(self).covers(m0),
                range == old(self).range_spec(),
                range.wf(),
                range.start.number <= n <= range.end.number + 1,
                forall|q: Page|
                    q.wf() && !(range.start.number <= q.number < n) ==> #[trigger] obs_eq(
                        active_table_mapper.p4,
                        m0.p4,
                        q,
                    ),
                forall|p: Page|
                    range.start.number <= p.number < n ==> (table_walk(m0.p4, 4, p)
                        matches Some(fb) && #[trigger] table_walk(active_table_mapper.p4, 4, p)
                        == Some((fb.0, new_flags.bits | PRESENT)) && leaf_mapped(
                        active_table_mapper.p4,
                        4,
                        p,
                    )),
            decreases range.end.number + 1 - n,
        {
            let page = Page { number: n };
            let ghost iter_p4 = active_table_mapper.p4;
            proof {
                assert(range.spec_contains(page));
                assert(old(self).range_spec().spec_contains(page));
                assert(leaf_mapped(m0.p4, 4, page));
                assert(table_walk(m0.p4, 4, page) matches Some(fb) && fb.1 == old(
                    self,
                ).flags.bits | PRESENT);
                assert(obs_eq(iter_p4, m0.p4, page));
            }
            let res = table_remap(&mut active_table_mapper.p4, 4, page, new_flags);
            match res {
                Ok(f) => {},
                Err(m) => {
                    proof {
                        assert(false);
                    }
                    return Err(m);
                },
            }
            proof {
                assert forall|q: Page|
                    q.wf() && !(range.start.number <= q.number < n + 1) implies #[trigger] obs_eq(
                    active_table_mapper.p4,
                    m0.p4,
                    q,
                ) by {
                    assert(obs_eq(iter_p4, m0.p4, q));
                    lemma_distinct_pages_differ(q, page);
                    assert(table_walk(active_table_mapper.p4, 4, q) == table_walk(iter_p4, 4, q));
                    assert(path_clear(active_table_mapper.p4, 4, q) == path_clear(iter_p4, 4, q));
                    assert(leaf_mapped(active_table_mapper.p4, 4, q) == leaf_mapped(iter_p4, 4, q));
                }
                assert forall|p: Page|
                    range.start.number <= p.number < n + 1 implies (table_walk(m0.p4, 4, p)
                    matches Some(fb) && #[trigger] table_walk(active_table_mapper.p4, 4, p)
                    == Some((fb.0, new_flags.bits | PRESENT))) && leaf_mapped(
                    active_table_mapper.p4,
                    4,
                    p,
                ) by {
                    if p.number < n {
                        assert(p.wf());
                        lemma_distinct_pages_differ(p, page);
                        assert(table_walk(active_table_mapper.p4, 4, p) == table_walk(
                            iter_p4,
                            4,
                            p,
                        ));
                        assert(leaf_mapped(active_table_mapper.p4, 4, p) == leaf_mapped(
                            iter_p4,
                            4,
                            p,
                        ));
                    } else {
                        assert(p == page);
                        assert(res is Ok);
                        assert(table_walk(iter_p4, 4, page) == table_walk(m0.p4, 4, page));
                        assert(res matches Ok(f) ==> (table_walk(iter_p4, 4, page) matches Some(
                            fb2,
                        ) && f.number == fb2.0));
                        assert(res matches Ok(f) ==> table_walk(active_table_mapper.p4, 4, page)
                            == Some((f.number, new_flags.bits | PRESENT)));
                        assert(table_walk(m0.p4, 4, page) matches Some(fb3) && table_walk(
                            active_table_mapper.p4,
                            4,
                            page,
                        ) == Some((fb3.0, new_flags.bits | PRESENT)));
                        assert(leaf_mapped(active_table_mapper.p4, 4, page));
                    }
                }
            }
            n = n + 1;
        }
        self.flags = new_flags;
        proof {
            assert forall|p: Page| self.range_spec().spec_contains(p) implies #[trigger]
            leaf_mapped(active_table_mapper.p4, 4, p) && (table_walk(active_table_mapper.p4, 4, p)
                matches Some(fb) && fb.1 == self.flags.bits | PRESENT) by {
                assert(range.spec_contains(p));
                assert(table_walk(m0.p4, 4, p) matches Some(fb0) && table_walk(
                    active_table_mapper.p4,
                    4,
                    p,
                ) == Some((fb0.0, new_flags.bits | PRESENT)));
            }
        }
        Ok(())
    }

    /// Removes the translation of every page in the range: each level-1
    /// entry becomes unused.  The mapped frames are recorded but not
    /// returned to the frame allocator, and intermediate tables are kept
    /// even when they become empty.  On the real machine each clear is
    /// followed by a TLB invalidation and the batch by one shootdown
    /// broadcast.
    pub fn unmap(&mut self, active_table_mapper: &mut Mapper) -> (r: Result<(), &'static str>)
        requires
            old(self).wf(),
            old(active_table_mapper).wf(),
            old(self).covers(*old(active_table_mapper)),
        ensures
            r is Ok,
            final(active_table_mapper).wf(),
            final(active_table_mapper).target_p4 == old(active_table_mapper).target_p4,
            *final(self) == *old(self),
            forall|p: Page|
                old(self).range_spec().spec_contains(p) ==> #[trigger] final(active_table_mapper).translation(p) is None && !leaf_mapped(final(active_table_mapper).p4, 4, p)
                    && path_clear(final(active_table_mapper).p4, 4, p),
            forall|q: Page|
                q.wf() && !old(self).range_spec().spec_contains(q) ==> #[trigger] obs_eq(
                    final(active_table_mapper).p4,
                    old(active_table_mapper).p4,
                    q,
                ),
    {
        if self.size_in_pages() == 0 {
            return Ok(());
        }
        let range = self.pages.range();
        let ghost m0 = *active_table_mapper;
        let mut n: u64 = range.start.number;
        while n <= range.end.number
            invariant
                active_table_mapper.wf(),
                active_table_mapper.target_p4 == m0.target_p4,
                *self == *old(self),
                m0 == *old(active_table_mapper),
                old(self).covers(m0),
                range == old(self).range_spec(),
                range.wf(),
                range.start.number <= n <= range.end.number + 1,
                forall|q: Page|
                    q.wf() && !(range.start.number <= q.number < n) ==> #[trigger] obs_eq(
                        active_table_mapper.p4,
                        m0.p4,
                        q,
                    ),
                forall|p: Page|
                    range.start.number <= p.number < n ==> #[trigger] table_walk(
                        active_table_mapper.p4,
                        4,
                        p,
                    ) is None && !leaf_mapped(active_table_mapper.p4, 4, p) && path_clear(
                        active_table_mapper.p4,
                        4,
                        p,
                    ),
            decreases range.end.number + 1 - n,
        {
            let page = Page { number: n };
            let ghost iter_p4 = active_table_mapper.p4;
            proof {
                assert(range.spec_contains(page));
                assert(old(self).range_spec().spec_contains(page));
                assert(leaf_mapped(m0.p4, 4, page));
                assert(table_walk(m0.p4, 4, page) matches Some(fb) && fb.1 == old(
                    self,
                ).flags.bits | PRESENT);
                assert(obs_eq(iter_p4, m0.p4, page));
            }
            let res = table_unmap(&mut active_table_mapper.p4, 4, page);
            match res {
                Ok(f) => {},
                Err(m) => {
                    proof {
                        assert(false);
                    }
                    return Err(m);
                },
            }
            proof {
                assert forall|q: Page|
                    q.wf() && !(range.start.number <= q.number < n + 1) implies #[trigger] obs_eq(
                    active_table_mapper.p4,
                    m0.p4,
                    q,
                ) by {
                    assert(obs_eq(iter_p4, m0.p4, q));
                    lemma_distinct_pages_differ(q, page);
                    assert(table_walk(active_table_mapper.p4, 4, q) == table_walk(iter_p4, 4, q));
                    assert(path_clear(active_table_mapper.p4, 4, q) == path_clear(iter_p4, 4, q));
                    assert(leaf_mapped(active_table_mapper.p4, 4, q) == leaf_mapped(iter_p4, 4, q));
                }
                assert forall|p: Page|
                    range.start.number <= p.number < n + 1 implies (#[trigger] table_walk(
                    active_table_mapper.p4,
                    4,
                    p,
                ) is None) && !leaf_mapped(active_table_mapper.p4, 4, p) && path_clear(
                    active_table_mapper.p4,
                    4,
                    p,
                ) by {
                    if p.number < n {
                        assert(p.wf());
                        lemma_distinct_pages_differ(p, page);
                        assert(table_walk(active_table_mapper.p4, 4, p) == table_walk(
                            iter_p4,
                            4,
                            p,
                        ));
                        assert(path_clear(active_table_mapper.p4, 4, p) == path_clear(
                            iter_p4,
                            4,
                            p,
                        ));
                        assert(leaf_mapped(active_table_mapper.p4, 4, p) == leaf_mapped(
                            iter_p4,
                            4,
                            p,
                        ));
                    } else {
                        assert(p == page);
                        assert(res is Ok);
                        assert(table_walk(active_table_mapper.p4, 4, page) is None);
                        assert(!leaf_mapped(active_table_mapper.p4, 4, page));
                        assert(path_clear(active_table_mapper.p4, 4, page));
                    }
                }
            }
            n = n + 1;
        }
        Ok(())
    }
}

/// A range's byte size never exceeds the virtual address space.
proof fn lemma_size_bytes_bound(r: PageRange)
    requires
        r.wf(),
    ensures
        r.spec_size_in_pages() * PAGE_SIZE <= 0x1_0000_0000_0000,
{
    let sz = r.spec_size_in_pages();
    assert(sz * 4096 <= 0x1_0000_0000_0000) by (nonlinear_arith)
        requires
            0 <= sz <= 0x10_0000_0000,
    ;
}

/// A byte offset splits into a page index and an in-page offset.
proof fn lemma_offset_split(offset: u64, size: int)
    requires
        0 < size,
        offset < size * 4096,
    ensures
        0 <= offset / 4096 < size,
        0 <= offset % 4096 < 4096,
{
    assert(offset / 4096 < size) by (nonlinear_arith)
        requires
            offset < size * 4096,
            size > 0,
    ;
}

/// Two distinct offsets within the same page have distinct in-page offsets.
proof fn lemma_same_page_distinct(a: u64, b: u64)
    requires
        a != b,
        a / 4096 == b / 4096,
    ensures
        a % 4096 != b % 4096,
{
    assert(a % 4096 != b % 4096) by (nonlinear_arith)
        requires
            a != b,
            a / 4096 == b / 4096,
    ;
}

/// Adding less than the remainder of the page stays within the page.
proof fn lemma_offset_step(offset: u64, k: u64)
    requires
        offset % 4096 + k < 4096,
        offset + k <= u64::MAX,
    ensures
        (offset + k) / 4096 == offset / 4096,
        (offset + k) % 4096 == offset % 4096 + k,
{
    assert((offset + k) / 4096 == offset / 4096 && (offset + k) % 4096 == offset % 4096 + k)
        by (nonlinear_arith)
        requires
            offset % 4096 + k < 4096,
    ;
}

impl MappedPages {
    /// The byte visible at `off` within the mapping: the walk of the page
    /// holding `off` gives a frame, and physical memory gives its byte.
    pub open spec fn byte_at(self, mapper: Mapper, mem: PhysicalMemory, off: int) -> u8 {
        let p = Page { number: (self.range_spec().start.number + off / 4096) as u64 };
        mem.byte_at(frame_of(mapper.p4, p), off % 4096)
    }

    /// Checks that a value of `size` bytes fits at `offset`, and returns the
    /// virtual address where it overlays the mapping.
    pub fn as_type(&self, offset: u64, size: u64) -> (r: Result<VirtualAddress, &'static str>)
        requires
            self.wf(),
        ensures
            r is Ok <==> offset + size <= self.range_spec().spec_size_in_pages() * PAGE_SIZE,
            r matches Ok(va) ==> va.value == self.range_spec().start.number * PAGE_SIZE + offset,
            r matches Err(m) ==> m@
                == "requested type and offset would not fit within the MappedPages bounds"@,
    {
        proof {
            lemma_size_bytes_bound(self.range_spec());
        }
        let total = self.size_in_bytes();
        if offset > total || size > total - offset {
            return Err("requested type and offset would not fit within the MappedPages bounds");
        }
        let start = self.start_address();
        Ok(VirtualAddress { value: start.value + offset })
    }

    /// As `as_type`, but for a mutable overlay: also checks that the
    /// mapping is writable.  It never mutates anything.
    pub fn as_type_mut(&mut self, offset: u64, size: u64) -> (r: Result<
        VirtualAddress,
        &'static str,
    >)
        requires
            old(self).wf(),
        ensures
            *final(self) == *old(self),
            r is Ok <==> (old(self).flags.spec_is_writable() && offset + size <= old(
                self,
            ).range_spec().spec_size_in_pages() * PAGE_SIZE),
            r matches Ok(va) ==> va.value == old(self).range_spec().start.number * PAGE_SIZE
                + offset,
            !old(self).flags.spec_is_writable() ==> (r matches Err(m) && m@
                == "MappedPages were not writable"@),
            old(self).flags.spec_is_writable() && r is Err ==> (r matches Err(m) && m@
                == "requested type and offset would not fit within the MappedPages bounds"@),
    {
        if !self.flags.is_writable() {
            return Err("MappedPages were not writable");
        }
        proof {
            lemma_size_bytes_bound(self.range_spec());
        }
        let total = self.size_in_bytes();
        if offset > total || size > total - offset {
            return Err("requested type and offset would not fit within the MappedPages bounds");
        }
        let start = self.start_address();
        Ok(VirtualAddress { value: start.value + offset })
    }

    /// Checks that a slice of `length` elements of `elem_size` bytes fits at
    /// `byte_offset`, and returns the virtual address of its first element.
    pub fn as_slice(&self, byte_offset: u64, length: u64, elem_size: u64) -> (r: Result<
        VirtualAddress,
        &'static str,
    >)
        requires
            self.wf(),
        ensures
            r is Ok <==> byte_offset + length * elem_size <= self.range_spec().spec_size_in_pages()
                * PAGE_SIZE,
            r matches Ok(va) ==> va.value == self.range_spec().start.number * PAGE_SIZE
                + byte_offset,
            r matches Err(m) ==> m@
                == "requested slice length and offset would not fit within the MappedPages bounds"@,
    {
        proof {
            lemma_size_bytes_bound(self.range_spec());
        }
        let total = self.size_in_bytes();
        proof {
            assert((length as int) * (elem_size as int) < 0x1_0000_0000_0000_0000_0000_0000_0000_0000)
                by (nonlinear_arith)
                requires
                    length <= 0xffff_ffff_ffff_ffffu64,
                    elem_size <= 0xffff_ffff_ffff_ffffu64,
            ;
        }
        let bytes = (length as u128) * (elem_size as u128);
        if byte_offset > total || bytes > (total - byte_offset) as u128 {
            return Err(
                "requested slice length and offset would not fit within the MappedPages bounds",
            );
        }
        let start = self.start_address();
        Ok(VirtualAddress { value: start.value + byte_offset })
    }

    /// As `as_slice`, but for a mutable slice: also checks that the mapping
    /// is writable.  It never mutates anything.
    pub fn as_slice_mut(&mut self, byte_offset: u64, length: u64, elem_size: u64) -> (r: Result<
        VirtualAddress,
        &'static str,
    >)
        requires
            old(self).wf(),
        ensures
            *final(self) == *old(self),
            r is Ok <==> (old(self).flags.spec_is_writable() && byte_offset + length * elem_size
                <= old(self).range_spec().spec_size_in_pages() * PAGE_SIZE),
            r matches Ok(va) ==> va.value == old(self).range_spec().start.number * PAGE_SIZE
                + byte_offset,
            !old(self).flags.spec_is_writable() ==> (r matches Err(m) && m@
                == "MappedPages were not writable"@),
            old(self).flags.spec_is_writable() && r is Err ==> (r matches Err(m) && m@
                == "requested slice length and offset would not fit within the MappedPages bounds"@),
    {
        if !self.flags.is_writable() {
            return Err("MappedPages were not writable");
        }
        let total = self.size_in_bytes();
        proof {
            assert((length as int) * (elem_size as int) < 0x1_0000_0000_0000_0000_0000_0000_0000_0000)
                by (nonlinear_arith)
                requires
                    length <= 0xffff_ffff_ffff_ffffu64,
                    elem_size <= 0xffff_ffff_ffff_ffffu64,
            ;
        }
        let bytes = (length as u128) * (elem_size as u128);
        if byte_offset > total || bytes > (total - byte_offset) as u128 {
            return Err(
                "requested slice length and offset would not fit within the MappedPages bounds",
            );
        }
        let start = self.start_address();
        Ok(VirtualAddress { value: start.value + byte_offset })
    }

    /// Checks that a function of `size` bytes fits at `offset` and that the
    /// mapping is executable, and returns the function's entry address.
    pub fn as_func(&self, offset: u64, size: u64) -> (r: Result<VirtualAddress, &'static str>)
        requires
            self.wf(),
        ensures
            r is Ok <==> (self.flags.spec_is_executable() && offset + size <= self.range_spec()
                .spec_size_in_pages() * PAGE_SIZE),
            r matches Ok(va) ==> va.value == self.range_spec().start.number * PAGE_SIZE + offset,
            !self.flags.spec_is_executable() ==> (r matches Err(m) && m@
                == "MappedPages were not executable"@),
            self.flags.spec_is_executable() && r is Err ==> (r matches Err(m) && m@
                == "requested type and offset would not fit within the MappedPages bounds"@),
    {
        if !self.flags.is_executable() {
            return Err("MappedPages were not executable");
        }
        proof {
            lemma_size_bytes_bound(self.range_spec());
        }
        let total = self.size_in_bytes();
        if offset > total || size > total - offset {
            return Err("requested type and offset would not fit within the MappedPages bounds");
        }
        let start = self.start_address();
        Ok(VirtualAddress { value: start.value + offset })
    }

    /// Reads the byte at `offset` within the mapping.
    pub fn read_byte(&self, mapper: &Mapper, mem: &PhysicalMemory, offset: u64) -> (r: u8)
        requires
            self.wf(),
            mapper.wf(),
            self.covers(*mapper),
            offset < self.range_spec().spec_size_in_pages() * PAGE_SIZE,
        ensures
            r == self.byte_at(*mapper, *mem, offset as int),
    {
        proof {
            lemma_offset_split(offset, self.range_spec().spec_size_in_pages());
        }
        let page_index = offset / PAGE_SIZE;
        let page = Page { number: self.pages.range().start.number + page_index };
        proof {
            assert(self.range_spec().spec_contains(page));
            assert(leaf_mapped(mapper.p4, 4, page));
            assert(table_walk(mapper.p4, 4, page) matches Some(fb) && fb.1 == self.flags.bits
                | PRESENT);
        }
        match mapper.translate_page(page) {
            Some(frame) => mem.read_byte(frame.number, offset % PAGE_SIZE),
            None => {
                proof {
                    assert(false);
                }
                0
            },
        }
    }

    /// Writes the byte at `offset` within the mapping, which must be
    /// writable.
    pub fn write_byte(&mut self, mapper: &Mapper, mem: &mut PhysicalMemory, offset: u64, value: u8)
        requires
            old(self).wf(),
            mapper.wf(),
            old(self).covers(*mapper),
            old(self).flags.spec_is_writable(),
            old(mem).wf(),
            offset < old(self).range_spec().spec_size_in_pages() * PAGE_SIZE,
        ensures
            *final(self) == *old(self),
            final(mem).wf(),
            final(mem).next_free_frame == old(mem).next_free_frame,
            final(mem).frame_limit == old(mem).frame_limit,
            final(self).byte_at(*mapper, *final(mem), offset as int) == value,
            forall|f: u64, o: int|
                #![trigger final(mem).byte_at(f, o)]
                final(mem).byte_at(f, o) == if f == frame_of(
                    mapper.p4,
                    (Page {
                        number: (old(self).range_spec().start.number + offset / PAGE_SIZE) as u64,
                    }),
                ) && o == (offset % PAGE_SIZE) as int {
                    value
                } else {
                    old(mem).byte_at(f, o)
                },
    {
        proof {
            lemma_offset_split(offset, self.range_spec().spec_size_in_pages());
        }
        let page_index = offset / PAGE_SIZE;
        let page = Page { number: self.pages.range().start.number + page_index };
        proof {
            assert(self.range_spec().spec_contains(page));
            assert(leaf_mapped(mapper.p4, 4, page));
            assert(table_walk(mapper.p4, 4, page) matches Some(fb) && fb.1 == self.flags.bits
                | PRESENT);
        }
        match mapper.translate_page(page) {
            Some(frame) => {
                mem.write_byte(frame.number, offset % PAGE_SIZE, value);
            },
            None => {
                proof {
                    assert(false);
                }
            },
        }
    }

    /// Reads a little-endian 32-bit word whose four bytes lie in one page.
    pub fn read_u32(&self, mapper: &Mapper, mem: &PhysicalMemory, offset: u64) -> (r: u32)
        requires
            self.wf(),
            mapper.wf(),
            self.covers(*mapper),
            offset + 4 <= self.range_spec().spec_size_in_pages() * PAGE_SIZE,
            offset % PAGE_SIZE <= PAGE_SIZE - 4,
        ensures
            r == self.byte_at(*mapper, *mem, offset as int) + 256 * self.byte_at(
                *mapper,
                *mem,
                offset + 1,
            ) + 65536 * self.byte_at(*mapper, *mem, offset + 2) + 16777216 * self.byte_at(
                *mapper,
                *mem,
                offset + 3,
            ),
    {
        let b0 = self.read_byte(mapper, mem, offset);
        let b1 = self.read_byte(mapper, mem, offset + 1);
        let b2 = self.read_byte(mapper, mem, offset + 2);
        let b3 = self.read_byte(mapper, mem, offset + 3);
        (b0 as u32) + 256 * (b1 as u32) + 65536 * (b2 as u32) + 16777216 * (b3 as u32)
    }

    /// Writes a little-endian 32-bit word whose four bytes lie in one page.
    pub fn write_u32(&mut self, mapper: &Mapper, mem: &mut PhysicalMemory, offset: u64, value: u32)
        requires
            old(self).wf(),
            mapper.wf(),
            old(self).covers(*mapper),
            old(self).flags.spec_is_writable(),
            old(mem).wf(),
            offset + 4 <= old(self).range_spec().spec_size_in_pages() * PAGE_SIZE,
            offset % PAGE_SIZE <= PAGE_SIZE - 4,
        ensures
            *final(self) == *old(self),
            final(mem).wf(),
            final(mem).next_free_frame == old(mem).next_free_frame,
            final(mem).frame_limit == old(mem).frame_limit,
            final(self).byte_at(*mapper, *final(mem), offset as int) == value % 256,
            final(self).byte_at(*mapper, *final(mem), offset + 1) == (value / 256) % 256,
            final(self).byte_at(*mapper, *final(mem), offset + 2) == (value / 65536) % 256,
            final(self).byte_at(*mapper, *final(mem), offset + 3) == (value / 16777216) % 256,
            forall|f: u64, o: int|
                #![trigger final(mem).byte_at(f, o)]
                (f != frame_of(
                    mapper.p4,
                    (Page {
                        number: (old(self).range_spec().start.number + offset / PAGE_SIZE) as u64,
                    }),
                ) || !((offset % PAGE_SIZE) as int <= o < (offset % PAGE_SIZE) as int + 4))
                    ==> final(mem).byte_at(f, o) == old(mem).byte_at(f, o),
    {
        proof {
            lemma_offset_split(offset, self.range_spec().spec_size_in_pages());
            lemma_offset_step(offset, 1);
            lemma_offset_step(offset, 2);
            lemma_offset_step(offset, 3);
        }
        self.write_byte(mapper, mem, offset, (value % 256) as u8);
        self.write_byte(mapper, mem, offset + 1, ((value / 256) % 256) as u8);
        self.write_byte(mapper, mem, offset + 2, ((value / 65536) % 256) as u8);
        self.write_byte(mapper, mem, offset + 3, ((value / 16777216) % 256) as u8);
    }
}

impl MappedPages {
    /// Duplicates this mapping into a fresh virtual range backed by fresh
    /// frames, copying every byte.  The copy is mapped writable while the
    /// bytes are written; if the requested flags are not writable it is
    /// remapped to them afterwards.  The caller may pass `new_flags` for the
    /// copy; otherwise the source's flags are used.
    pub fn deep_copy(
        &self,
        new_flags: Option<EntryFlags>,
        active_table_mapper: &mut Mapper,
        allocator: &mut PhysicalMemory,
        page_allocator: &mut PageAllocator,
    ) -> (r: Result<MappedPages, &'static str>)
        requires
            self.wf(),
            old(active_table_mapper).wf(),
            self.covers(*old(active_table_mapper)),
            old(allocator).wf(),
            old(page_allocator).wf(),
        ensures
            final(active_table_mapper).wf(),
            final(active_table_mapper).target_p4 == old(active_table_mapper).target_p4,
            final(allocator).wf(),
            final(allocator).frame_limit == old(allocator).frame_limit,
            final(allocator).next_free_frame >= old(allocator).next_free_frame,
            final(page_allocator).wf(),
            (self.range_spec().spec_size_in_pages() > 0 && old(page_allocator).next_free_page
                + self.range_spec().spec_size_in_pages() <= PAGE_NUMBER_LIMIT && (forall|p: Page|
                old(page_allocator).next_free_page <= p.number < old(page_allocator).next_free_page
                    + self.range_spec().spec_size_in_pages() ==> #[trigger] path_clear(
                    old(active_table_mapper).p4,
                    4,
                    p,
                )) && old(allocator).next_free_frame + 4 * self.range_spec().spec_size_in_pages()
                <= old(allocator).frame_limit) ==> r is Ok,
            r matches Ok(mp) ==> {
                &&& mp.flags == (match new_flags {
                    Some(f) => f,
                    None => self.flags,
                })
                &&& mp.pages.is_allocated_spec()
                &&& mp.wf()
                &&& mp.range_spec().start.number == old(page_allocator).next_free_page
                &&& mp.range_spec().spec_size_in_pages() == self.range_spec().spec_size_in_pages()
                &&& mp.covers(*final(active_table_mapper))
                &&& final(page_allocator).next_free_page == old(page_allocator).next_free_page
                    + self.range_spec().spec_size_in_pages()
                &&& forall|off: int|
                    0 <= off < self.range_spec().spec_size_in_pages() * PAGE_SIZE ==> #[trigger]
                    mp.byte_at(*final(active_table_mapper), *final(allocator), off)
                        == self.byte_at(*old(active_table_mapper), *old(allocator), off)
                &&& forall|f: u64, o: int|
                    f < old(allocator).next_free_frame ==> #[trigger] final(allocator).byte_at(
                        f,
                        o,
                    ) == old(allocator).byte_at(f, o)
                &&& forall|q: Page|
                    q.wf() && !mp.range_spec().spec_contains(q) ==> #[trigger] obs_eq(
                        final(active_table_mapper).p4,
                        old(active_table_mapper).p4,
                        q,
                    )
            },
            r matches Err(m) ==> (m@ == "Couldn't allocate_pages()"@ || m@
                == "page was already in use"@ || m@ == "mapping code does not support huge pages"@
                || m@ == "couldn't allocate new frame, out of memory!"@),
            r is Err ==> final(allocator).contents == old(allocator).contents,
            r is Err ==> forall|q: Page|
                q.wf() && !(old(page_allocator).next_free_page <= q.number < old(page_allocator).next_free_page + self.range_spec().spec_size_in_pages()) ==> #[trigger] obs_eq(
                    final(active_table_mapper).p4,
                    old(active_table_mapper).p4,
                    q,
                ),
    {
        let ghost m0 = *active_table_mapper;
        let ghost mem0 = *allocator;
        let ghost pa0 = *page_allocator;
        let size_in_pages = self.size_in_pages();
        let size_in_bytes = self.size_in_bytes();
        let new_pages = match page_allocator.allocate_pages(size_in_pages) {
            Some(ap) => ap,
            None => {
                return Err("Couldn't allocate_pages()");
            },
        };

        let mut buf: Vec<u8> = Vec::new();
        let mut off: u64 = 0;
        while off < size_in_bytes
            invariant
                off <= size_in_bytes,
                buf@.len() == off,
                self.wf(),
                m0.wf(),
                self.covers(m0),
                *active_table_mapper == m0,
                *allocator == mem0,
                size_in_bytes == self.range_spec().spec_size_in_pages() * PAGE_SIZE,
                forall|j: int| 0 <= j < off ==> buf@[j] == self.byte_at(m0, mem0, j),
            decreases size_in_bytes - off,
        {
            buf.push(self.read_byte(active_table_mapper, allocator, off));
            off = off + 1;
        }

        let wanted = match new_flags {
            Some(f) => f,
            None => self.flags,
        };
        let needs_remapping = !wanted.is_writable();
        let write_flags = wanted.or(EntryFlags::new(WRITABLE));
        proof {
            let a = wanted.bits;
            assert((a | 0x2u64) & 0x2u64 != 0) by (bit_vector);
        }
        let ghost fresh_range = new_pages.pages;
        let mut new_mapped_pages = match active_table_mapper.map_allocated_pages(
            new_pages,
            write_flags,
            allocator,
        ) {
            Ok(mp) => mp,
            Err(e) => {
                proof {
                    assert forall|q: Page|
                        q.wf() && !(pa0.next_free_page <= q.number < pa0.next_free_page
                            + self.range_spec().spec_size_in_pages()) implies #[trigger] obs_eq(
                        active_table_mapper.p4,
                        m0.p4,
                        q,
                    ) by {
                        assert(!fresh_range.spec_contains(q));
                    }
                }
                return Err(e);
            },
        };
        let ghost m1 = *active_table_mapper;
        let ghost mem1 = *allocator;
        let ghost dest = new_mapped_pages;

        let mut off2: u64 = 0;
        while off2 < size_in_bytes
            invariant
                off2 <= size_in_bytes,
                buf@.len() == size_in_bytes,
                self.wf(),
                m0.wf(),
                m1.wf(),
                dest.wf(),
                new_mapped_pages == dest,
                *active_table_mapper == m1,
                dest.covers(m1),
                dest.flags == write_flags,
                write_flags.bits & WRITABLE != 0,
                size_in_bytes == self.range_spec().spec_size_in_pages() * PAGE_SIZE,
                size_in_bytes == dest.range_spec().spec_size_in_pages() * PAGE_SIZE,
                allocator.wf(),
                allocator.next_free_frame == mem1.next_free_frame,
                allocator.frame_limit == mem1.frame_limit,
                forall|j: int| 0 <= j < size_in_bytes ==> buf@[j] == self.byte_at(m0, mem0, j),
                forall|j: int|
                    0 <= j < off2 ==> #[trigger] dest.byte_at(m1, *allocator, j) == buf@[j],
                forall|f: u64, o: int|
                    f < mem0.next_free_frame ==> #[trigger] allocator.byte_at(f, o)
                        == mem0.byte_at(f, o),
                forall|p: Page|
                    dest.range_spec().spec_contains(p) ==> #[trigger] leaf_mapped(m1.p4, 4, p) && (
                    table_walk(m1.p4, 4, p) matches Some(fb) && fb.1 == write_flags.bits | PRESENT
                        && mem0.next_free_frame <= fb.0),
                forall|p: Page, q: Page|
                    #![trigger frame_of(m1.p4, p), frame_of(m1.p4, q)]
                    dest.range_spec().spec_contains(p) && dest.range_spec().spec_contains(q)
                        && p.number < q.number ==> frame_of(m1.p4, p) < frame_of(m1.p4, q),
            decreases size_in_bytes - off2,
        {
            let ghost mem_pre = *allocator;
            let buf_len: usize = buf.len();
            proof {
                assert(off2 < buf_len);
            }
            let b = buf[off2 as usize];
            new_mapped_pages.write_byte(active_table_mapper, allocator, off2, b);
            proof {
                lemma_offset_split(off2, dest.range_spec().spec_size_in_pages());
                let po = Page { number: (dest.range_spec().start.number + off2 / 4096) as u64 };
                assert(dest.range_spec().spec_contains(po));
                assert(leaf_mapped(m1.p4, 4, po));
                assert(table_walk(m1.p4, 4, po) matches Some(fb) && mem0.next_free_frame <= fb.0);
                assert(dest.byte_at(m1, *allocator, off2 as int) == b);
                assert forall|j: int| 0 <= j < off2 + 1 implies #[trigger] dest.byte_at(
                    m1,
                    *allocator,
                    j,
                ) == buf@[j] by {
                    if j < off2 {
                        lemma_offset_split(j as u64, dest.range_spec().spec_size_in_pages());
                        let pj = Page {
                            number: (dest.range_spec().start.number + j / 4096) as u64,
                        };
                        assert(dest.range_spec().spec_contains(pj));
                        if j / 4096 == off2 as int / 4096 {
                            assert(pj == po);
                            lemma_same_page_distinct(j as u64, off2);
                        } else {
                            assert(pj.number != po.number);
                            if pj.number < po.number {
                                assert(frame_of(m1.p4, pj) < frame_of(m1.p4, po));
                            } else {
                                assert(frame_of(m1.p4, po) < frame_of(m1.p4, pj));
                            }
                        }
                        assert(allocator.byte_at(frame_of(m1.p4, pj), j % 4096) == mem_pre.byte_at(
                            frame_of(m1.p4, pj),
                            j % 4096,
                        ));
                        assert(dest.byte_at(m1, mem_pre, j) == buf@[j]);
                    }
                }
                assert forall|f: u64, o: int| f < mem0.next_free_frame implies #[trigger]
                allocator.byte_at(f, o) == mem0.byte_at(f, o) by {
                    assert(f != frame_of(m1.p4, po));
                    assert(allocator.byte_at(f, o) == mem_pre.byte_at(f, o));
                }
            }
            off2 = off2 + 1;
        }

        if needs_remapping {
            proof {
                let a = wanted.bits;
                assert(a & 0x2u64 == 0 ==> (a | 0x2u64) != a) by (bit_vector);
                assert(wanted != write_flags);
            }
            match new_mapped_pages.remap(active_table_mapper, wanted) {
                Ok(()) => {},
                Err(e) => {
                    proof {
                        assert(false);
                    }
                    return Err(e);
                },
            }
            proof {
                assert forall|j: int| 0 <= j < size_in_bytes implies #[trigger] new_mapped_pages
                    .byte_at(*active_table_mapper, *allocator, j) == buf@[j] by {
                    lemma_offset_split(j as u64, dest.range_spec().spec_size_in_pages());
                    let pj = Page { number: (dest.range_spec().start.number + j / 4096) as u64 };
                    assert(dest.range_spec().spec_contains(pj));
                    assert(m1.translation(pj) matches Some(fb)
                        && active_table_mapper.translation(pj) == Some(
                        (fb.0, wanted.bits | PRESENT),
                    ));
                    assert(frame_of(active_table_mapper.p4, pj) == frame_of(m1.p4, pj));
                    assert(dest.byte_at(m1, *allocator, j) == buf@[j]);
                }
                assert forall|q: Page|
                    q.wf() && !new_mapped_pages.range_spec().spec_contains(q) implies #[trigger]
                obs_eq(active_table_mapper.p4, m0.p4, q) by {
                    assert(obs_eq(m1.p4, m0.p4, q));
                    assert(obs_eq(active_table_mapper.p4, m1.p4, q));
                }
            }
        } else {
            proof {
                let a = wanted.bits;
                assert(a & 0x2u64 != 0 ==> (a | 0x2u64) == a) by (bit_vector);
                assert(new_mapped_pages.flags == wanted);
                assert forall|p: Page|
                    new_mapped_pages.range_spec().spec_contains(p) implies #[trigger] leaf_mapped(
                    active_table_mapper.p4,
                    4,
                    p,
                ) && (table_walk(active_table_mapper.p4, 4, p) matches Some(fb) && fb.1
                    == new_mapped_pages.flags.bits | PRESENT) by {
                    assert(leaf_mapped(m1.p4, 4, p));
                    assert(table_walk(m1.p4, 4, p) matches Some(fb) && fb.1 == write_flags.bits
                        | PRESENT);
                }
            }
        }
        Ok(new_mapped_pages)
    }
}

/// Round trip: for an address whose page a handle covers, the page is
/// reachable by the translation walk from the P4 recorded in that handle,
/// and the walk succeeds.
pub proof fn lemma_translation_round_trip(h: MappedPages, m: Mapper, va: VirtualAddress)
    requires
        h.covers(m),
        h.range_spec().spec_contains(Page::spec_containing_address(va)),
    ensures
        h.page_table_p4 == m.target_p4,
        leaf_mapped(m.p4, 4, Page::spec_containing_address(va)),
        m.translation(Page::spec_containing_address(va)) is Some,
{
    let p = Page::spec_containing_address(va);
    assert(leaf_mapped(m.p4, 4, p));
    assert(table_walk(m.p4, 4, p) matches Some(fb));
}

/// A page range that lies wholly below a bound is disjoint from any range
/// starting at or above it; hence a deep copy's pages never meet its
/// source's, since the allocator hands the copy a range above everything
/// handed out before.
pub proof fn lemma_fresh_range_disjoint(a: PageRange, b: PageRange, bound: u64)
    requires
        a.end.number < bound,
        b.start.number >= bound,
    ensures
        forall|p: Page| !(a.spec_contains(p) && b.spec_contains(p)),
{
}

/// Tears the mapping down through the mapper, as the handle's destructor
/// would on the real machine, and leaves the handle empty so a later
/// teardown is a no-op.
pub fn mapped_pages_unmap(mapped_pages: &mut MappedPages, mapper: &mut Mapper) -> (r: Result<
    (),
    &'static str,
>)
    requires
        old(mapped_pages).wf(),
        old(mapper).wf(),
        old(mapped_pages).covers(*old(mapper)),
    ensures
        r is Ok,
        final(mapper).wf(),
        final(mapper).target_p4 == old(mapper).target_p4,
        final(mapped_pages).range_spec().spec_size_in_pages() == 0,
        forall|p: Page|
            old(mapped_pages).range_spec().spec_contains(p) ==> #[trigger] final(mapper).translation(p) is None,
        forall|q: Page|
            q.wf() && !old(mapped_pages).range_spec().spec_contains(q) ==> #[trigger] obs_eq(
                final(mapper).p4,
                old(mapper).p4,
                q,
            ),
{
    let r = mapped_pages.unmap(mapper);
    mapped_pages.pages = MaybeAllocatedPages::NotAllocated(PageRange::empty());
    r
}

} // verus!
