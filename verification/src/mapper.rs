//! The mapper: owner of a 4-level page-table tree rooted at a P4 frame.
//!
//! `translate` / `translate_page` read the tree; the `map*` family installs
//! mappings page by page, allocating intermediate tables from the frame
//! allocator, and returns a `MappedPages` handle covering the new range.

use vstd::prelude::*;
use crate::addr::{
    Frame, FrameRange, Page, PageRange, PhysicalAddress, VirtualAddress, PAGE_SIZE,
    PAGE_NUMBER_LIMIT, FRAME_NUMBER_LIMIT,
};
use crate::flags::{EntryFlags, PRESENT, NO_EXECUTE};
use crate::mapped_pages::{MappedPages, MaybeAllocatedPages};
use crate::phys::{AllocatedPages, PhysicalMemory};
use crate::table::{
    entry_value, entry_word, leaf_mapped, lemma_distinct_pages_differ, lemma_tables_to_create_bound,
    path_clear, subtable, table_lookup, table_map, table_walk, table_wf, Entry, Table,
};

verus! {

/// The frame number `page` translates to, or 0 when it is unmapped.
pub open spec fn frame_of(t: Table, page: Page) -> u64 {
    match table_walk(t, 4, page) {
        Some(fb) => fb.0,
        None => 0,
    }
}

/// Every frame number a well-formed walk can produce is in range; huge
/// entries stay in range thanks to their alignment.
pub proof fn lemma_walk_frame_bound(t: Table, level: nat, page: Page)
    requires
        table_wf(t, level),
    ensures
        match table_walk(t, level, page) {
            Some(fb) => fb.0 < FRAME_NUMBER_LIMIT,
            None => true,
        },
    decreases level,
{
    crate::addr::lemma_index_bound(page, level);
    crate::addr::lemma_index_bound(page, 2);
    crate::addr::lemma_index_bound(page, 1);
    match t.entries@[page.spec_index_at(level) as int] {
        Entry::AsTable { table, flags } => {
            if level > 1 {
                lemma_walk_frame_bound(*table, (level - 1) as nat, page);
            }
        },
        Entry::AsFrame { frame, flags } => {
            let f = frame.number;
            let i2 = page.spec_index_at(2);
            let i1 = page.spec_index_at(1);
            if level == 3 {
                assert(f + i2 * 512 + i1 < 0x100_0000_0000) by (bit_vector)
                    requires
                        f % 0x40000 == 0,
                        f < 0x100_0000_0000,
                        i2 < 512,
                        i1 < 512,
                ;
            } else if level == 2 {
                assert(f + i1 < 0x100_0000_0000) by (bit_vector)
                    requires
                        f % 512 == 0,
                        f < 0x100_0000_0000,
                        i1 < 512,
                ;
            }
        },
        Entry::Unused => {},
    }
}

/// For any page and in-page offset `k`, the virtual address `page's start
/// plus k` decomposes back into that page and that offset; with the
/// mapper's translation contract this pins the translated physical address
/// to the mapped frame's start plus `k`.
pub proof fn lemma_translate_within_page(m: Mapper, page: Page, k: u64)
    requires
        m.wf(),
        page.wf(),
        k < PAGE_SIZE,
    ensures
        ({
            let va = VirtualAddress { value: (page.number * PAGE_SIZE + k) as u64 };
            &&& va.wf()
            &&& Page::spec_containing_address(va) == page
            &&& va.spec_page_offset() == k
        }),
{
    crate::addr::lemma_address_in_page(page, k);
}

/// All observations a page can make of two trees agree: the walk, the
/// clear-path test and leaf-mappedness.
pub open spec fn obs_eq(t1: Table, t0: Table, q: Page) -> bool {
    &&& table_walk(t1, 4, q) == table_walk(t0, 4, q)
    &&& path_clear(t1, 4, q) == path_clear(t0, 4, q)
    &&& leaf_mapped(t1, 4, q) == leaf_mapped(t0, 4, q)
}

/// The state a failed multi-page mapping leaves behind: pages of the
/// request below the boundary `b` are installed with the requested flags,
/// and every page at or above `b` observes an unchanged tree.  Failure
/// never rolls back entries installed for earlier pages of the request, and
/// no handle is returned for them.
#[verifier::opaque]
pub open spec fn partial_map_outcome(
    t1: Table,
    t0: Table,
    pages: PageRange,
    flag_bits: u64,
    b: u64,
) -> bool {
    &&& pages.start.number <= b <= pages.end.number
    &&& forall|p: Page|
        pages.start.number <= p.number < b ==> #[trigger] leaf_mapped(t1, 4, p) && (table_walk(
            t1,
            4,
            p,
        ) matches Some(fb) && fb.1 == flag_bits | PRESENT)
    &&& forall|q: Page| q.wf() && q.number >= b ==> #[trigger] obs_eq(t1, t0, q)
}

/// A handle to a 4-level page table: the owned table tree plus the frame
/// holding its top-level P4 table.
pub struct Mapper {
    /// The owned P4 table tree.
    pub p4: Table,
    /// The frame containing the top-level P4 page table.
    pub target_p4: Frame,
}

impl Mapper {
    /// The mapper owns a well-formed tree whose root sits in `target_p4`.
    pub open spec fn wf(self) -> bool {
        &&& table_wf(self.p4, 4)
        &&& self.p4.frame == self.target_p4
    }

    /// The translation the tree defines for `page`.
    pub open spec fn translation(self, page: Page) -> Option<(u64, u64)> {
        table_walk(self.p4, 4, page)
    }

    /// A mapper over a brand-new, empty page table rooted in `p4`.
    pub fn with_p4_frame(p4: Frame) -> (r: Mapper)
        requires
            p4.wf(),
        ensures
            r.wf(),
            r.target_p4 == p4,
            forall|q: Page| #[trigger] r.translation(q) is None,
            forall|q: Page| #[trigger] path_clear(r.p4, 4, q),
            forall|q: Page| !(#[trigger] leaf_mapped(r.p4, 4, q)),
    {
        let r = Mapper { p4: Table::new_empty(p4), target_p4: p4 };
        proof {
            assert forall|q: Page| #[trigger] r.translation(q) is None by {
                assert(table_walk(r.p4, 4, q) is None);
            }
            assert forall|q: Page| #[trigger] path_clear(r.p4, 4, q) by {
                assert(table_walk(r.p4, 4, q) is None);
            }
            assert forall|q: Page| !(#[trigger] leaf_mapped(r.p4, 4, q)) by {
                assert(table_walk(r.p4, 4, q) is None);
            }
        }
        r
    }

    /// A read-only view of the P4 table.
    pub fn p4(&self) -> (r: &Table)
        ensures
            r == &self.p4,
    {
        &self.p4
    }

    /// Translates a virtual memory `Page` to the physical `Frame` it is
    /// mapped to by walking the page tables.
    pub fn translate_page(&self, page: Page) -> (r: Option<Frame>)
        requires
            self.wf(),
        ensures
            match self.translation(page) {
                Some(fb) => r == Some(Frame { number: fb.0 }),
                None => r is None,
            },
    {
        table_lookup(&self.p4, 4, page)
    }

    /// Translates a `VirtualAddress` to a `PhysicalAddress`: the mapped
    /// frame's start address plus the in-page offset.
    pub fn translate(&self, virtual_address: VirtualAddress) -> (r: Option<PhysicalAddress>)
        requires
            self.wf(),
            virtual_address.wf(),
        ensures
            match self.translation(Page::spec_containing_address(virtual_address)) {
                Some(fb) => r == Some(
                    PhysicalAddress {
                        value: (fb.0 * PAGE_SIZE + virtual_address.spec_page_offset()) as u64,
                    },
                ),
                None => r is None,
            },
    {
        let page = Page::containing_address(virtual_address);
        match self.translate_page(page) {
            Some(frame) => {
                proof {
                    lemma_walk_frame_bound(self.p4, 4, page);
                }
                let start = frame.start_address();
                Some(PhysicalAddress::new(start.value + virtual_address.page_offset()))
            },
            None => None,
        }
    }
    /// Reads the page-table entry words on the walk of the given address,
    /// one per level: the P4 entry always exists; each deeper entry is
    /// reported only when its table exists.  Useful for debugging page
    /// faults.
    #[verifier::rlimit(60)]
    pub fn dump_pte(&self, virtual_address: VirtualAddress) -> (r: (
        u64,
        Option<u64>,
        Option<u64>,
        Option<u64>,
    ))
        requires
            self.wf(),
            virtual_address.wf(),
        ensures
            ({
                let page = Page::spec_containing_address(virtual_address);
                &&& r.0 == entry_word(self.p4.entries@[page.spec_index_at(4) as int])
                &&& r.1 == (match subtable(self.p4, 4, 3, page) {
                    Some(t) => Some(entry_word(t.entries@[page.spec_index_at(3) as int])),
                    None => None,
                })
                &&& r.2 == (match subtable(self.p4, 4, 2, page) {
                    Some(t) => Some(entry_word(t.entries@[page.spec_index_at(2) as int])),
                    None => None,
                })
                &&& r.3 == (match subtable(self.p4, 4, 1, page) {
                    Some(t) => Some(entry_word(t.entries@[page.spec_index_at(1) as int])),
                    None => None,
                })
            }),
    {
        proof {
            reveal_with_fuel(subtable, 5);
        }
        let page = Page::containing_address(virtual_address);
        let i4 = page.p4_index() as usize;
        let i3 = page.p3_index() as usize;
        let i2 = page.p2_index() as usize;
        let i1 = page.p1_index() as usize;
        let e4 = &self.p4.entries[i4];
        proof {
            assert(match self.p4.entries@[i4 as int] {
                Entry::Unused => true,
                Entry::AsFrame { frame, flags } => frame.number < FRAME_NUMBER_LIMIT,
                Entry::AsTable { table, flags } => table_wf(*table, 3),
            });
        }
        let w4 = entry_value(e4);
        match e4 {
            Entry::AsTable { table: t3, flags: _f4 } => {
                let e3 = &t3.entries[i3];
                proof {
                    assert(match t3.entries@[i3 as int] {
                        Entry::Unused => true,
                        Entry::AsFrame { frame, flags } => frame.number < FRAME_NUMBER_LIMIT,
                        Entry::AsTable { table, flags } => table_wf(*table, 2),
                    });
                }
                let w3 = entry_value(e3);
                match e3 {
                    Entry::AsTable { table: t2, flags: _f3 } => {
                        let e2 = &t2.entries[i2];
                        proof {
                            assert(match t2.entries@[i2 as int] {
                                Entry::Unused => true,
                                Entry::AsFrame { frame, flags } => frame.number
                                    < FRAME_NUMBER_LIMIT,
                                Entry::AsTable { table, flags } => table_wf(*table, 1),
                            });
                        }
                        let w2 = entry_value(e2);
                        match e2 {
                            Entry::AsTable { table: t1, flags: _f2 } => {
                                let e1 = &t1.entries[i1];
                                proof {
                                    assert(match t1.entries@[i1 as int] {
                                        Entry::Unused => true,
                                        Entry::AsFrame { frame, flags } => frame.number
                                            < FRAME_NUMBER_LIMIT,
                                        Entry::AsTable { table, flags } => false,
                                    });
                                }
                                let w1 = entry_value(e1);
                                (w4, Some(w3), Some(w2), Some(w1))
                            },
                            _ => (w4, Some(w3), Some(w2), None),
                        }
                    },
                    _ => (w4, Some(w3), None, None),
                }
            },
            _ => (w4, None, None, None),
        }
    }

    /// The mapping workhorse when frames are freshly allocated: maps every
    /// page of `pages` to a fresh frame from the allocator.  Frames are
    /// handed out in increasing order, so distinct pages of the range get
    /// distinct frames.
    pub fn internal_map(
        &mut self,
        pages: PageRange,
        flags: EntryFlags,
        allocator: &mut PhysicalMemory,
    ) -> (r: Result<MappedPages, &'static str>)
        requires
            old(self).wf(),
            pages.wf(),
            old(allocator).wf(),
        ensures
            final(self).wf(),
            final(self).target_p4 == old(self).target_p4,
            final(allocator).wf(),
            final(allocator).frame_limit == old(allocator).frame_limit,
            final(allocator).contents == old(allocator).contents,
            final(allocator).next_free_frame >= old(allocator).next_free_frame,
            forall|q: Page|
                q.wf() && !pages.spec_contains(q) ==> #[trigger] obs_eq(
                    final(self).p4,
                    old(self).p4,
                    q,
                ),
            ((forall|p: Page|
                pages.spec_contains(p) ==> #[trigger] path_clear(old(self).p4, 4, p))
                && old(allocator).next_free_frame + 4 * pages.spec_size_in_pages() <= old(allocator).frame_limit)
                ==> r is Ok,
            r is Ok ==> forall|p: Page|
                pages.spec_contains(p) ==> #[trigger] path_clear(old(self).p4, 4, p),
            r matches Ok(mp) ==> {
                &&& mp.page_table_p4 == old(self).target_p4
                &&& mp.flags == flags
                &&& !mp.pages.is_allocated_spec()
                &&& mp.range_spec() == pages
                &&& mp.covers(*final(self))
                &&& forall|p: Page|
                    pages.spec_contains(p) ==> #[trigger] leaf_mapped(final(self).p4, 4, p) && (
                    table_walk(final(self).p4, 4, p) matches Some(fb) && fb.1 == flags.bits
                        | PRESENT && old(allocator).next_free_frame <= fb.0 && fb.0 < final(allocator).next_free_frame)
                &&& mp.covers(*final(self))
                &&& forall|p: Page, q: Page|
                    #![trigger frame_of(final(self).p4, p), frame_of(final(self).p4, q)]
                    pages.spec_contains(p) && pages.spec_contains(q) && p.number < q.number
                        ==> frame_of(final(self).p4, p) < frame_of(final(self).p4, q)
            },
            r matches Err(m) ==> (m@ == "page was already in use"@ || m@
                == "mapping code does not support huge pages"@ || m@
                == "couldn't allocate new frame, out of memory!"@),
            r is Err && pages.start.number <= pages.end.number ==> exists|b: u64|
                #[trigger] partial_map_outcome(final(self).p4, old(self).p4, pages, flags.bits, b),
    {
        let top_flags = flags.without_no_execute();
        if pages.start.number > pages.end.number {
            let mp = MappedPages {
                page_table_p4: self.target_p4,
                pages: MaybeAllocatedPages::NotAllocated(pages),
                flags,
            };
            proof {
                assert(mp.covers(*self));
            }
            return Ok(mp);
        }
        let ghost old_p4 = self.p4;
        let ghost next0 = allocator.next_free_frame;
        let mut n: u64 = pages.start.number;
        while n <= pages.end.number
            invariant
                self.wf(),
                self.target_p4 == old(self).target_p4,
                allocator.wf(),
                allocator.frame_limit == old(allocator).frame_limit,
                allocator.contents == old(allocator).contents,
                pages.wf(),
                pages.start.number <= n <= pages.end.number + 1,
                top_flags.bits & NO_EXECUTE == 0,
                next0 == old(allocator).next_free_frame,
                old_p4 == old(self).p4,
                allocator.next_free_frame >= next0,
                allocator.next_free_frame <= next0 + 4 * (n - pages.start.number),
                forall|q: Page|
                    q.wf() && (q.number < pages.start.number || q.number >= n) ==> #[trigger]
                    obs_eq(self.p4, old_p4, q),
                forall|p: Page|
                    pages.start.number <= p.number < n ==> #[trigger] path_clear(old_p4, 4, p),
                forall|p: Page|
                    pages.start.number <= p.number < n ==> #[trigger] leaf_mapped(self.p4, 4, p)
                        && (table_walk(self.p4, 4, p) matches Some(fb) && fb.1 == flags.bits
                        | PRESENT && next0 <= fb.0 && fb.0 < allocator.next_free_frame),
                forall|p: Page, q: Page|
                    #![trigger frame_of(self.p4, p), frame_of(self.p4, q)]
                    pages.start.number <= p.number < n && pages.start.number <= q.number < n
                        && p.number < q.number ==> frame_of(self.p4, p) < frame_of(self.p4, q),
            decreases pages.end.number + 1 - n,
        {
            let page = Page { number: n };
            let ghost iter_p4 = self.p4;
            let ghost iter_next = allocator.next_free_frame;
            let frame = match allocator.allocate_frame() {
                Some(f) => f,
                None => {
                    proof {
                        if (forall|p: Page|
                            pages.spec_contains(p) ==> #[trigger] path_clear(old_p4, 4, p)) && next0
                            + 4 * pages.spec_size_in_pages() <= allocator.frame_limit {
                            assert(false);
                        }
                        reveal(partial_map_outcome);
                        assert(partial_map_outcome(self.p4, old_p4, pages, flags.bits, n));
                    }
                    return Err("couldn't allocate new frame, out of memory!");
                },
            };
            let res = table_map(&mut self.p4, 4, page, frame, flags, top_flags, allocator);
            match res {
                Err(m) => {
                    proof {
                        if (forall|p: Page|
                            pages.spec_contains(p) ==> #[trigger] path_clear(old_p4, 4, p)) && next0
                            + 4 * pages.spec_size_in_pages() <= allocator.frame_limit {
                            assert(pages.spec_contains(page));
                            assert(obs_eq(iter_p4, old_p4, page));
                            assert(path_clear(iter_p4, 4, page));
                            lemma_tables_to_create_bound(iter_p4, 4, page);
                            assert(false);
                        }
                        assert forall|q: Page| q.wf() && !pages.spec_contains(q) implies #[trigger]
                        obs_eq(self.p4, old_p4, q) by {
                            assert(obs_eq(iter_p4, old_p4, q));
                            assert(table_walk(self.p4, 4, q) == table_walk(iter_p4, 4, q));
                            assert(path_clear(self.p4, 4, q) == path_clear(iter_p4, 4, q));
                            assert(leaf_mapped(self.p4, 4, q) == leaf_mapped(iter_p4, 4, q));
                        }
                        assert forall|q: Page| q.wf() && q.number >= n implies #[trigger] obs_eq(
                            self.p4,
                            old_p4,
                            q,
                        ) by {
                            assert(obs_eq(iter_p4, old_p4, q));
                            assert(table_walk(self.p4, 4, q) == table_walk(iter_p4, 4, q));
                            assert(path_clear(self.p4, 4, q) == path_clear(iter_p4, 4, q));
                            assert(leaf_mapped(self.p4, 4, q) == leaf_mapped(iter_p4, 4, q));
                        }
                        assert forall|p: Page| pages.start.number <= p.number < n implies #[trigger]
                        leaf_mapped(self.p4, 4, p) && (table_walk(self.p4, 4, p) matches Some(fb)
                            && fb.1 == flags.bits | PRESENT) by {
                            assert(leaf_mapped(iter_p4, 4, p) && (table_walk(iter_p4, 4, p)
                                matches Some(fb) && fb.1 == flags.bits | PRESENT));
                            assert(table_walk(self.p4, 4, p) == table_walk(iter_p4, 4, p));
                            assert(leaf_mapped(self.p4, 4, p) == leaf_mapped(iter_p4, 4, p));
                        }
                        reveal(partial_map_outcome);
                        assert(partial_map_outcome(self.p4, old_p4, pages, flags.bits, n));
                    }
                    return Err(m);
                },
                Ok(()) => {},
            }
            proof {
                assert(pages.spec_contains(page));
                assert(obs_eq(iter_p4, old_p4, page));
                assert(path_clear(iter_p4, 4, page));
                assert(path_clear(old_p4, 4, page));
                assert(table_walk(self.p4, 4, page) == Some((frame.number, flags.bits | PRESENT)));
                assert(frame.number == iter_next);
                assert forall|q: Page|
                    q.wf() && (q.number < pages.start.number || q.number >= n + 1) implies #[trigger]
                obs_eq(self.p4, old_p4, q) by {
                    assert(q != page);
                    assert(obs_eq(iter_p4, old_p4, q));
                    lemma_distinct_pages_differ(q, page);
                    assert(table_walk(self.p4, 4, q) == table_walk(iter_p4, 4, q));
                    assert(path_clear(self.p4, 4, q) == path_clear(iter_p4, 4, q));
                    assert(leaf_mapped(self.p4, 4, q) == leaf_mapped(iter_p4, 4, q));
                }
                assert forall|p: Page| pages.start.number <= p.number < n + 1 implies #[trigger]
                leaf_mapped(self.p4, 4, p) && (table_walk(self.p4, 4, p) matches Some(fb) && fb.1
                    == flags.bits | PRESENT && next0 <= fb.0 && fb.0 < allocator.next_free_frame) by {
                    if p.number < n {
                        assert(p.wf());
                        assert(leaf_mapped(iter_p4, 4, p) && (table_walk(iter_p4, 4, p)
                            matches Some(fb) && fb.1 == flags.bits | PRESENT && next0 <= fb.0
                            && fb.0 < iter_next));
                        lemma_distinct_pages_differ(p, page);
                        assert(table_walk(self.p4, 4, p) == table_walk(iter_p4, 4, p));
                        assert(leaf_mapped(self.p4, 4, p) == leaf_mapped(iter_p4, 4, p));
                    } else {
                        assert(p == page);
                    }
                }
                assert forall|p: Page, q: Page|
                    #![trigger frame_of(self.p4, p), frame_of(self.p4, q)]
                    pages.start.number <= p.number < n + 1 && pages.start.number <= q.number < n
                        + 1 && p.number < q.number implies frame_of(self.p4, p) < frame_of(
                    self.p4,
                    q,
                ) by {
                    if q.number < n {
                        assert(frame_of(iter_p4, p) < frame_of(iter_p4, q));
                        assert(p.wf() && q.wf());
                        lemma_distinct_pages_differ(p, page);
                        lemma_distinct_pages_differ(q, page);
                        assert(table_walk(self.p4, 4, p) == table_walk(iter_p4, 4, p));
                        assert(table_walk(self.p4, 4, q) == table_walk(iter_p4, 4, q));
                    } else {
                        assert(q == page);
                        assert(p.wf());
                        lemma_distinct_pages_differ(p, page);
                        assert(table_walk(self.p4, 4, p) == table_walk(iter_p4, 4, p));
                        assert(leaf_mapped(iter_p4, 4, p) && (table_walk(iter_p4, 4, p)
                            matches Some(fb) && fb.1 == flags.bits | PRESENT && next0 <= fb.0
                            && fb.0 < iter_next));
                        assert(frame_of(self.p4, q) == iter_next);
                    }
                }
            }
            n = n + 1;
        }
        let mp = MappedPages {
            page_table_p4: self.target_p4,
            pages: MaybeAllocatedPages::NotAllocated(pages),
            flags,
        };
        proof {
            assert forall|p: Page| mp.range_spec().spec_contains(p) implies #[trigger] leaf_mapped(
                self.p4,
                4,
                p,
            ) && (table_walk(self.p4, 4, p) matches Some(fb) && fb.1 == mp.flags.bits
                | PRESENT) by {
                assert(pages.start.number <= p.number < n);
            }
            assert(mp.covers(*self));
        }
        Ok(mp)
    }

    /// The mapping workhorse when frames are provided: walks pages and
    /// frames in lockstep, installing `pages.start + i -> frames.start + i`.
    #[verifier::rlimit(60)]
    pub fn internal_map_to(
        &mut self,
        pages: PageRange,
        frames: FrameRange,
        flags: EntryFlags,
        allocator: &mut PhysicalMemory,
    ) -> (r: Result<MappedPages, &'static str>)
        requires
            old(self).wf(),
            pages.wf(),
            frames.wf(),
            old(allocator).wf(),
        ensures
            final(self).wf(),
            final(self).target_p4 == old(self).target_p4,
            final(allocator).wf(),
            final(allocator).frame_limit == old(allocator).frame_limit,
            final(allocator).contents == old(allocator).contents,
            final(allocator).next_free_frame >= old(allocator).next_free_frame,
            forall|q: Page|
                q.wf() && !pages.spec_contains(q) ==> #[trigger] obs_eq(
                    final(self).p4,
                    old(self).p4,
                    q,
                ),
            pages.spec_size_in_pages() != frames.spec_size_in_frames() ==> (r matches Err(m) && m@
                == "page count must equal frame count"@ && *final(self) == *old(self)
                && *final(allocator) == *old(allocator)),
            (pages.spec_size_in_pages() == frames.spec_size_in_frames() && (forall|p: Page|
                pages.spec_contains(p) ==> #[trigger] path_clear(old(self).p4, 4, p))
                && old(allocator).next_free_frame + 3 * pages.spec_size_in_pages() <= old(allocator).frame_limit)
                ==> r is Ok,
            r is Ok ==> pages.spec_size_in_pages() == frames.spec_size_in_frames() && (forall|
                p: Page,
            |
                pages.spec_contains(p) ==> #[trigger] path_clear(old(self).p4, 4, p)),
            r matches Ok(mp) ==> {
                &&& mp.page_table_p4 == old(self).target_p4
                &&& mp.flags == flags
                &&& !mp.pages.is_allocated_spec()
                &&& mp.range_spec() == pages
                &&& mp.covers(*final(self))
                &&& forall|p: Page|
                    pages.spec_contains(p) ==> #[trigger] leaf_mapped(final(self).p4, 4, p)
                        && table_walk(final(self).p4, 4, p) == Some(
                        (
                            (frames.start.number + (p.number - pages.start.number)) as u64,
                            flags.bits | PRESENT,
                        ),
                    )
            },
            r matches Err(m) ==> (m@ == "page was already in use"@ || m@
                == "mapping code does not support huge pages"@ || m@
                == "couldn't allocate new frame, out of memory!"@ || m@
                == "page count must equal frame count"@),
            pages.spec_size_in_pages() == frames.spec_size_in_frames() ==> (r matches Err(m)
                ==> (m@ == "page was already in use"@ || m@
                == "mapping code does not support huge pages"@ || m@
                == "couldn't allocate new frame, out of memory!"@)),
            r is Err && pages.start.number <= pages.end.number ==> exists|b: u64|
                #[trigger] partial_map_outcome(final(self).p4, old(self).p4, pages, flags.bits, b),
    {
        let top_flags = flags.without_no_execute();
        let pages_count = pages.size_in_pages();
        let frames_count = frames.size_in_frames();
        if pages_count != frames_count {
            proof {
                if pages.start.number <= pages.end.number {
                    reveal(partial_map_outcome);
                    assert(partial_map_outcome(
                        self.p4,
                        self.p4,
                        pages,
                        flags.bits,
                        pages.start.number,
                    ));
                }
            }
            return Err("page count must equal frame count");
        }
        if pages.start.number > pages.end.number {
            let mp = MappedPages {
                page_table_p4: self.target_p4,
                pages: MaybeAllocatedPages::NotAllocated(pages),
                flags,
            };
            proof {
                assert(mp.covers(*self));
            }
            return Ok(mp);
        }
        let ghost old_p4 = self.p4;
        let ghost next0 = allocator.next_free_frame;
        let mut n: u64 = pages.start.number;
        while n <= pages.end.number
            invariant
                self.wf(),
                self.target_p4 == old(self).target_p4,
                allocator.wf(),
                allocator.frame_limit == old(allocator).frame_limit,
                allocator.contents == old(allocator).contents,
                pages.wf(),
                frames.wf(),
                pages.start.number <= n <= pages.end.number + 1,
                pages.spec_size_in_pages() == frames.spec_size_in_frames(),
                top_flags.bits & NO_EXECUTE == 0,
                next0 == old(allocator).next_free_frame,
                old_p4 == old(self).p4,
                allocator.next_free_frame >= next0,
                allocator.next_free_frame <= next0 + 3 * (n - pages.start.number),
                forall|q: Page|
                    q.wf() && (q.number < pages.start.number || q.number >= n) ==> #[trigger]
                    obs_eq(self.p4, old_p4, q),
                forall|p: Page|
                    pages.start.number <= p.number < n ==> #[trigger] path_clear(old_p4, 4, p),
                forall|p: Page|
                    pages.start.number <= p.number < n ==> #[trigger] leaf_mapped(self.p4, 4, p)
                        && table_walk(self.p4, 4, p) == Some(
                        (
                            (frames.start.number + (p.number - pages.start.number)) as u64,
                            flags.bits | PRESENT,
                        ),
                    ),
            decreases pages.end.number + 1 - n,
        {
            let page = Page { number: n };
            let frame = Frame { number: frames.start.number + (n - pages.start.number) };
            let ghost iter_p4 = self.p4;
            proof {
                assert(frame.number <= frames.end.number);
            }
            let res = table_map(&mut self.p4, 4, page, frame, flags, top_flags, allocator);
            match res {
                Err(m) => {
                    proof {
                        if (forall|p: Page|
                            pages.spec_contains(p) ==> #[trigger] path_clear(old_p4, 4, p)) && next0
                            + 3 * pages.spec_size_in_pages() <= allocator.frame_limit {
                            assert(pages.spec_contains(page));
                            assert(obs_eq(iter_p4, old_p4, page));
                            assert(path_clear(iter_p4, 4, page));
                            lemma_tables_to_create_bound(iter_p4, 4, page);
                            assert(false);
                        }
                        assert forall|q: Page| q.wf() && !pages.spec_contains(q) implies #[trigger]
                        obs_eq(self.p4, old_p4, q) by {
                            assert(obs_eq(iter_p4, old_p4, q));
                            assert(table_walk(self.p4, 4, q) == table_walk(iter_p4, 4, q));
                            assert(path_clear(self.p4, 4, q) == path_clear(iter_p4, 4, q));
                            assert(leaf_mapped(self.p4, 4, q) == leaf_mapped(iter_p4, 4, q));
                        }
                        assert forall|q: Page| q.wf() && q.number >= n implies #[trigger] obs_eq(
                            self.p4,
                            old_p4,
                            q,
                        ) by {
                            assert(obs_eq(iter_p4, old_p4, q));
                            assert(table_walk(self.p4, 4, q) == table_walk(iter_p4, 4, q));
                            assert(path_clear(self.p4, 4, q) == path_clear(iter_p4, 4, q));
                            assert(leaf_mapped(self.p4, 4, q) == leaf_mapped(iter_p4, 4, q));
                        }
                        assert forall|p: Page| pages.start.number <= p.number < n implies #[trigger]
                        leaf_mapped(self.p4, 4, p) && (table_walk(self.p4, 4, p) matches Some(fb)
                            && fb.1 == flags.bits | PRESENT) by {
                            assert(leaf_mapped(iter_p4, 4, p) && table_walk(iter_p4, 4, p) == Some(
                                (
                                    (frames.start.number + (p.number
                                        - pages.start.number)) as u64,
                                    flags.bits | PRESENT,
                                ),
                            ));
                            assert(table_walk(self.p4, 4, p) == table_walk(iter_p4, 4, p));
                            assert(leaf_mapped(self.p4, 4, p) == leaf_mapped(iter_p4, 4, p));
                        }
                        reveal(partial_map_outcome);
                        assert(partial_map_outcome(self.p4, old_p4, pages, flags.bits, n));
                    }
                    return Err(m);
                },
                Ok(()) => {},
            }
            proof {
                assert(pages.spec_contains(page));
                assert(obs_eq(iter_p4, old_p4, page));
                assert(path_clear(old_p4, 4, page));
                assert(table_walk(self.p4, 4, page) == Some((frame.number, flags.bits | PRESENT)));
                assert forall|q: Page|
                    q.wf() && (q.number < pages.start.number || q.number >= n + 1) implies #[trigger]
                obs_eq(self.p4, old_p4, q) by {
                    assert(q != page);
                    assert(obs_eq(iter_p4, old_p4, q));
                    lemma_distinct_pages_differ(q, page);
                    assert(table_walk(self.p4, 4, q) == table_walk(iter_p4, 4, q));
                    assert(path_clear(self.p4, 4, q) == path_clear(iter_p4, 4, q));
                    assert(leaf_mapped(self.p4, 4, q) == leaf_mapped(iter_p4, 4, q));
                }
                assert forall|p: Page| pages.start.number <= p.number < n + 1 implies #[trigger]
                leaf_mapped(self.p4, 4, p) && table_walk(self.p4, 4, p) == Some(
                    (
                        (frames.start.number + (p.number - pages.start.number)) as u64,
                        flags.bits | PRESENT,
                    ),
                ) by {
                    if p.number < n {
                        assert(p.wf());
                        lemma_distinct_pages_differ(p, page);
                        assert(table_walk(self.p4, 4, p) == table_walk(iter_p4, 4, p));
                        assert(leaf_mapped(self.p4, 4, p) == leaf_mapped(iter_p4, 4, p));
                    } else {
                        assert(p == page);
                    }
                }
            }
            n = n + 1;
        }
        let mp = MappedPages {
            page_table_p4: self.target_p4,
            pages: MaybeAllocatedPages::NotAllocated(pages),
            flags,
        };
        proof {
            assert forall|p: Page| mp.range_spec().spec_contains(p) implies #[trigger] leaf_mapped(
                self.p4,
                4,
                p,
            ) && (table_walk(self.p4, 4, p) matches Some(fb) && fb.1 == mp.flags.bits
                | PRESENT) by {
                assert(pages.start.number <= p.number < n);
            }
            assert(mp.covers(*self));
        }
        Ok(mp)
    }

    /// Creates a mapping from a specific page to a specific frame.
    #[verifier::rlimit(60)]
    pub fn map_to(
        &mut self,
        page: Page,
        frame: Frame,
        flags: EntryFlags,
        allocator: &mut PhysicalMemory,
    ) -> (r: Result<MappedPages, &'static str>)
        requires
            old(self).wf(),
            page.wf(),
            frame.wf(),
            old(allocator).wf(),
        ensures
            final(self).wf(),
            final(self).target_p4 == old(self).target_p4,
            final(allocator).wf(),
            final(allocator).frame_limit == old(allocator).frame_limit,
            final(allocator).contents == old(allocator).contents,
            final(allocator).next_free_frame >= old(allocator).next_free_frame,
            forall|q: Page|
                q.wf() && q != page ==> #[trigger] obs_eq(final(self).p4, old(self).p4, q),
            (path_clear(old(self).p4, 4, page) && old(allocator).next_free_frame + 3 <= old(allocator).frame_limit) ==> r is Ok,
            r is Ok ==> path_clear(old(self).p4, 4, page),
            r matches Ok(mp) ==> {
                &&& mp.page_table_p4 == old(self).target_p4
                &&& mp.flags == flags
                &&& !mp.pages.is_allocated_spec()
                &&& mp.range_spec() == (PageRange { start: page, end: page })
                &&& mp.covers(*final(self))
                &&& leaf_mapped(final(self).p4, 4, page)
                &&& final(self).translation(page) == Some((frame.number, flags.bits | PRESENT))
            },
            r matches Err(m) ==> (m@ == "page was already in use"@ || m@
                == "mapping code does not support huge pages"@ || m@
                == "couldn't allocate new frame, out of memory!"@),
            r is Err ==> forall|q: Page|
                q.wf() ==> #[trigger] obs_eq(final(self).p4, old(self).p4, q),
    {
        let r = self.internal_map_to(
            PageRange::new(page, page),
            FrameRange::new(frame, frame),
            flags,
            allocator,
        );
        proof {
            let pr = PageRange { start: page, end: page };
            assert(pr.spec_contains(page));
            assert forall|q: Page| q.wf() && q != page implies !pr.spec_contains(q) by {}
        }
        match &r {
            Ok(mp) => {
                proof {
                    assert(mp.covers(*self));
                }
            },
            Err(e) => {
                proof {
                    reveal(partial_map_outcome);
                    let pr = PageRange { start: page, end: page };
                    let b = choose|b: u64|
                        partial_map_outcome(self.p4, old(self).p4, pr, flags.bits, b);
                    assert(b == page.number);
                    assert forall|q: Page| q.wf() implies #[trigger] obs_eq(
                        self.p4,
                        old(self).p4,
                        q,
                    ) by {
                        if q.number < b {
                            assert(!pr.spec_contains(q));
                        }
                    }
                }
            },
        }
        r
    }

    /// Maps the given page to a freshly allocated frame.
    pub fn map(&mut self, page: Page, flags: EntryFlags, allocator: &mut PhysicalMemory) -> (r:
        Result<MappedPages, &'static str>)
        requires
            old(self).wf(),
            page.wf(),
            old(allocator).wf(),
        ensures
            final(self).wf(),
            final(self).target_p4 == old(self).target_p4,
            final(allocator).wf(),
            final(allocator).frame_limit == old(allocator).frame_limit,
            final(allocator).contents == old(allocator).contents,
            final(allocator).next_free_frame >= old(allocator).next_free_frame,
            forall|q: Page|
                q.wf() && q != page ==> #[trigger] obs_eq(final(self).p4, old(self).p4, q),
            (path_clear(old(self).p4, 4, page) && old(allocator).next_free_frame + 4 <= old(allocator).frame_limit) ==> r is Ok,
            r is Ok ==> path_clear(old(self).p4, 4, page),
            r matches Ok(mp) ==> {
                &&& mp.page_table_p4 == old(self).target_p4
                &&& mp.flags == flags
                &&& !mp.pages.is_allocated_spec()
                &&& mp.range_spec() == (PageRange { start: page, end: page })
                &&& mp.covers(*final(self))
                &&& leaf_mapped(final(self).p4, 4, page)
                &&& (final(self).translation(page) matches Some(fb) && fb.1 == flags.bits
                    | PRESENT && old(allocator).next_free_frame <= fb.0 && fb.0 < final(allocator).next_free_frame)
            },
            r matches Err(m) ==> (m@ == "page was already in use"@ || m@
                == "mapping code does not support huge pages"@ || m@
                == "couldn't allocate new frame, out of memory!"@),
            r is Err ==> forall|q: Page|
                q.wf() ==> #[trigger] obs_eq(final(self).p4, old(self).p4, q),
    {
        let r = self.internal_map(PageRange::new(page, page), flags, allocator);
        proof {
            let pr = PageRange { start: page, end: page };
            assert(pr.spec_contains(page));
            assert forall|q: Page| q.wf() && q != page implies !pr.spec_contains(q) by {}
            if r is Err {
                reveal(partial_map_outcome);
                let b = choose|b: u64|
                    partial_map_outcome(self.p4, old(self).p4, pr, flags.bits, b);
                assert(b == page.number);
                assert forall|q: Page| q.wf() implies #[trigger] obs_eq(
                    self.p4,
                    old(self).p4,
                    q,
                ) by {
                    if q.number < b {
                        assert(!pr.spec_contains(q));
                    }
                }
            }
        }
        r
    }

    /// Maps every page of `pages` to a freshly allocated frame.
    pub fn map_pages(
        &mut self,
        pages: PageRange,
        flags: EntryFlags,
        allocator: &mut PhysicalMemory,
    ) -> (r: Result<MappedPages, &'static str>)
        requires
            old(self).wf(),
            pages.wf(),
            old(allocator).wf(),
        ensures
            final(self).wf(),
            final(self).target_p4 == old(self).target_p4,
            final(allocator).wf(),
            final(allocator).frame_limit == old(allocator).frame_limit,
            final(allocator).contents == old(allocator).contents,
            final(allocator).next_free_frame >= old(allocator).next_free_frame,
            forall|q: Page|
                q.wf() && !pages.spec_contains(q) ==> #[trigger] obs_eq(
                    final(self).p4,
                    old(self).p4,
                    q,
                ),
            ((forall|p: Page|
                pages.spec_contains(p) ==> #[trigger] path_clear(old(self).p4, 4, p)) && old(allocator).next_free_frame + 4 * pages.spec_size_in_pages() <= old(allocator).frame_limit)
                ==> r is Ok,
            r is Ok ==> forall|p: Page|
                pages.spec_contains(p) ==> #[trigger] path_clear(old(self).p4, 4, p),
            r matches Ok(mp) ==> {
                &&& mp.page_table_p4 == old(self).target_p4
                &&& mp.flags == flags
                &&& !mp.pages.is_allocated_spec()
                &&& mp.range_spec() == pages
                &&& mp.covers(*final(self))
                &&& forall|p: Page|
                    pages.spec_contains(p) ==> #[trigger] leaf_mapped(final(self).p4, 4, p) && (
                    table_walk(final(self).p4, 4, p) matches Some(fb) && fb.1 == flags.bits
                        | PRESENT && old(allocator).next_free_frame <= fb.0 && fb.0 < final(allocator).next_free_frame)
                &&& forall|p: Page, q: Page|
                    #![trigger frame_of(final(self).p4, p), frame_of(final(self).p4, q)]
                    pages.spec_contains(p) && pages.spec_contains(q) && p.number < q.number
                        ==> frame_of(final(self).p4, p) < frame_of(final(self).p4, q)
            },
            r matches Err(m) ==> (m@ == "page was already in use"@ || m@
                == "mapping code does not support huge pages"@ || m@
                == "couldn't allocate new frame, out of memory!"@),
            r is Err && pages.start.number <= pages.end.number ==> exists|b: u64|
                #[trigger] partial_map_outcome(final(self).p4, old(self).p4, pages, flags.bits, b),
    {
        self.internal_map(pages, flags, allocator)
    }

    /// Maps the contiguous `frames` to contiguous pages starting at
    /// `start_page`.
    pub fn map_frames(
        &mut self,
        frames: FrameRange,
        start_page: Page,
        flags: EntryFlags,
        allocator: &mut PhysicalMemory,
    ) -> (r: Result<MappedPages, &'static str>)
        requires
            old(self).wf(),
            frames.wf(),
            frames.start.number <= frames.end.number,
            start_page.number + frames.spec_size_in_frames() <= PAGE_NUMBER_LIMIT,
            old(allocator).wf(),
        ensures
            final(self).wf(),
            final(self).target_p4 == old(self).target_p4,
            final(allocator).wf(),
            final(allocator).frame_limit == old(allocator).frame_limit,
            final(allocator).contents == old(allocator).contents,
            final(allocator).next_free_frame >= old(allocator).next_free_frame,
            forall|q: Page|
                q.wf() && !(start_page.number <= q.number < start_page.number
                    + frames.spec_size_in_frames()) ==> #[trigger] obs_eq(
                    final(self).p4,
                    old(self).p4,
                    q,
                ),
            r matches Ok(mp) ==> {
                &&& mp.page_table_p4 == old(self).target_p4
                &&& mp.flags == flags
                &&& !mp.pages.is_allocated_spec()
                &&& mp.range_spec().start == start_page
                &&& mp.covers(*final(self))
                &&& mp.range_spec().end.number == start_page.number + frames.spec_size_in_frames()
                    - 1
                &&& forall|p: Page|
                    start_page.number <= p.number < start_page.number
                        + frames.spec_size_in_frames() ==> #[trigger] leaf_mapped(
                        final(self).p4,
                        4,
                        p,
                    ) && table_walk(final(self).p4, 4, p) == Some(
                        (
                            (frames.start.number + (p.number - start_page.number)) as u64,
                            flags.bits | PRESENT,
                        ),
                    )
            },
            r matches Err(m) ==> (m@ == "page was already in use"@ || m@
                == "mapping code does not support huge pages"@ || m@
                == "couldn't allocate new frame, out of memory!"@),
            ((forall|p: Page|
                start_page.number <= p.number < start_page.number + frames.spec_size_in_frames()
                    ==> #[trigger] path_clear(old(self).p4, 4, p)) && old(allocator).next_free_frame
                + 3 * frames.spec_size_in_frames() <= old(allocator).frame_limit) ==> r is Ok,
            r is Ok ==> forall|p: Page|
                start_page.number <= p.number < start_page.number + frames.spec_size_in_frames()
                    ==> #[trigger] path_clear(old(self).p4, 4, p),
            r is Err ==> exists|b: u64|
                #[trigger] partial_map_outcome(
                    final(self).p4,
                    old(self).p4,
                    (PageRange {
                        start: start_page,
                        end: Page {
                            number: (start_page.number + frames.spec_size_in_frames() - 1) as u64,
                        },
                    }),
                    flags.bits,
                    b,
                ),
    {
        let count = frames.size_in_frames();
        let end_page = Page { number: start_page.number + (count - 1) };
        let pages = PageRange::new(start_page, end_page);
        let r = self.internal_map_to(pages, frames, flags, allocator);
        proof {
            assert(pages.spec_size_in_pages() == frames.spec_size_in_frames());
            assert forall|p: Page|
                start_page.number <= p.number < start_page.number + frames.spec_size_in_frames()
                    implies pages.spec_contains(p) by {}
            assert forall|p: Page|
                pages.spec_contains(p) implies start_page.number <= p.number < start_page.number
                + frames.spec_size_in_frames() by {}
        }
        r
    }

    /// Maps the given `AllocatedPages` to the given frames, consuming the
    /// allocation token into the returned `MappedPages`.
    pub fn map_allocated_pages_to(
        &mut self,
        allocated_pages: AllocatedPages,
        frames: FrameRange,
        flags: EntryFlags,
        allocator: &mut PhysicalMemory,
    ) -> (r: Result<MappedPages, &'static str>)
        requires
            old(self).wf(),
            allocated_pages.pages.wf(),
            frames.wf(),
            old(allocator).wf(),
        ensures
            final(self).wf(),
            final(self).target_p4 == old(self).target_p4,
            final(allocator).wf(),
            final(allocator).frame_limit == old(allocator).frame_limit,
            final(allocator).contents == old(allocator).contents,
            final(allocator).next_free_frame >= old(allocator).next_free_frame,
            forall|q: Page|
                q.wf() && !allocated_pages.pages.spec_contains(q) ==> #[trigger] obs_eq(
                    final(self).p4,
                    old(self).p4,
                    q,
                ),
            r matches Ok(mp) ==> {
                &&& mp.page_table_p4 == old(self).target_p4
                &&& mp.flags == flags
                &&& mp.pages.is_allocated_spec()
                &&& mp.range_spec() == allocated_pages.pages
                &&& mp.covers(*final(self))
                &&& forall|p: Page|
                    allocated_pages.pages.spec_contains(p) ==> #[trigger] leaf_mapped(
                        final(self).p4,
                        4,
                        p,
                    ) && table_walk(final(self).p4, 4, p) == Some(
                        (
                            (frames.start.number + (p.number
                                - allocated_pages.pages.start.number)) as u64,
                            flags.bits | PRESENT,
                        ),
                    )
            },
            r matches Err(m) ==> (m@ == "page was already in use"@ || m@
                == "mapping code does not support huge pages"@ || m@
                == "couldn't allocate new frame, out of memory!"@ || m@
                == "page count must equal frame count"@),
            (allocated_pages.pages.spec_size_in_pages() == frames.spec_size_in_frames() && (forall|
                p: Page,
            |
                allocated_pages.pages.spec_contains(p) ==> #[trigger] path_clear(
                    old(self).p4,
                    4,
                    p,
                )) && old(allocator).next_free_frame + 3
                * allocated_pages.pages.spec_size_in_pages() <= old(allocator).frame_limit) ==> r
                is Ok,
            r is Ok ==> allocated_pages.pages.spec_size_in_pages()
                == frames.spec_size_in_frames() && (forall|p: Page|
                allocated_pages.pages.spec_contains(p) ==> #[trigger] path_clear(
                    old(self).p4,
                    4,
                    p,
                )),
            r is Err && allocated_pages.pages.start.number <= allocated_pages.pages.end.number
                ==> exists|b: u64|
                #[trigger] partial_map_outcome(
                    final(self).p4,
                    old(self).p4,
                    allocated_pages.pages,
                    flags.bits,
                    b,
                ),
    {
        let pages = allocated_pages.pages;
        let res = self.internal_map_to(pages, frames, flags, allocator);
        match res {
            Ok(mut mp) => {
                mp.pages = MaybeAllocatedPages::Allocated(allocated_pages);
                proof {
                    assert(mp.covers(*self));
                }
                Ok(mp)
            },
            Err(e) => {
                proof {
                    if pages.start.number <= pages.end.number {
                        assert(exists|b: u64|
                            #[trigger] partial_map_outcome(
                                self.p4,
                                old(self).p4,
                                pages,
                                flags.bits,
                                b,
                            ));
                    }
                }
                Err(e)
            },
        }
    }

    /// Maps the given `AllocatedPages` to freshly allocated frames,
    /// consuming the allocation token into the returned `MappedPages`.
    pub fn map_allocated_pages(
        &mut self,
        allocated_pages: AllocatedPages,
        flags: EntryFlags,
        allocator: &mut PhysicalMemory,
    ) -> (r: Result<MappedPages, &'static str>)
        requires
            old(self).wf(),
            allocated_pages.pages.wf(),
            old(allocator).wf(),
        ensures
            final(self).wf(),
            final(self).target_p4 == old(self).target_p4,
            final(allocator).wf(),
            final(allocator).frame_limit == old(allocator).frame_limit,
            final(allocator).contents == old(allocator).contents,
            final(allocator).next_free_frame >= old(allocator).next_free_frame,
            forall|q: Page|
                q.wf() && !allocated_pages.pages.spec_contains(q) ==> #[trigger] obs_eq(
                    final(self).p4,
                    old(self).p4,
                    q,
                ),
            ((forall|p: Page|
                allocated_pages.pages.spec_contains(p) ==> #[trigger] path_clear(
                    old(self).p4,
                    4,
                    p,
                )) && old(allocator).next_free_frame + 4
                * allocated_pages.pages.spec_size_in_pages() <= old(allocator).frame_limit) ==> r
                is Ok,
            r is Ok ==> forall|p: Page|
                allocated_pages.pages.spec_contains(p) ==> #[trigger] path_clear(
                    old(self).p4,
                    4,
                    p,
                ),
            r matches Ok(mp) ==> {
                &&& mp.page_table_p4 == old(self).target_p4
                &&& mp.flags == flags
                &&& mp.pages.is_allocated_spec()
                &&& mp.range_spec() == allocated_pages.pages
                &&& mp.covers(*final(self))
                &&& forall|p: Page|
                    allocated_pages.pages.spec_contains(p) ==> #[trigger] leaf_mapped(
                        final(self).p4,
                        4,
                        p,
                    ) && (table_walk(final(self).p4, 4, p) matches Some(fb) && fb.1 == flags.bits
                        | PRESENT && old(allocator).next_free_frame <= fb.0 && fb.0 < final(allocator).next_free_frame)
                &&& forall|p: Page, q: Page|
                    #![trigger frame_of(final(self).p4, p), frame_of(final(self).p4, q)]
                    allocated_pages.pages.spec_contains(p) && allocated_pages.pages.spec_contains(
                        q,
                    ) && p.number < q.number ==> frame_of(final(self).p4, p) < frame_of(
                        final(self).p4,
                        q,
                    )
            },
            r matches Err(m) ==> (m@ == "page was already in use"@ || m@
                == "mapping code does not support huge pages"@ || m@
                == "couldn't allocate new frame, out of memory!"@),
            r is Err && allocated_pages.pages.start.number <= allocated_pages.pages.end.number
                ==> exists|b: u64|
                #[trigger] partial_map_outcome(
                    final(self).p4,
                    old(self).p4,
                    allocated_pages.pages,
                    flags.bits,
                    b,
                ),
    {
        let pages = allocated_pages.pages;
        let res = self.internal_map(pages, flags, allocator);
        match res {
            Ok(mut mp) => {
                mp.pages = MaybeAllocatedPages::Allocated(allocated_pages);
                proof {
                    assert(mp.covers(*self));
                }
                Ok(mp)
            },
            Err(e) => {
                proof {
                    if pages.start.number <= pages.end.number {
                        assert(exists|b: u64|
                            #[trigger] partial_map_outcome(
                                self.p4,
                                old(self).p4,
                                pages,
                                flags.bits,
                                b,
                            ));
                    }
                }
                Err(e)
            },
        }
    }
}

} // verus!
