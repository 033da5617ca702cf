use kernel_core::addr::{Frame, FrameRange, Page, PageRange, VirtualAddress};
use kernel_core::flags::{EntryFlags, NO_EXECUTE, PRESENT, WRITABLE};
use kernel_core::mapped_pages::{mapped_pages_unmap, MappedPages};
use kernel_core::mapper::Mapper;
use kernel_core::phys::{PageAllocator, PhysicalMemory};
use kernel_core::task::{RunState, Task, TaskId, TaskList};

fn setup() -> (Mapper, PhysicalMemory, PageAllocator) {
    let mapper = Mapper::with_p4_frame(Frame { number: 100 });
    let phys = PhysicalMemory::new(1000, 1_000_000);
    let pages = PageAllocator::new(0x900_0000);
    (mapper, phys, pages)
}

#[test]
fn single_page_map_translate_drop() {
    let (mut mapper, mut phys, _pa) = setup();
    let va = VirtualAddress::new(0x4000_0000);
    let page = Page::containing_address(va);
    let flags = EntryFlags::new(PRESENT | WRITABLE);
    let mut mp = mapper.map(page, flags, &mut phys).unwrap();
    let frame = mapper.translate_page(page).unwrap();
    let pa = mapper.translate(VirtualAddress::new(0x4000_0123)).unwrap();
    assert_eq!(pa.value, frame.number * 4096 + 0x123);
    mapped_pages_unmap(&mut mp, &mut mapper).unwrap();
    assert!(mapper.translate(VirtualAddress::new(0x4000_0123)).is_none());
    assert!(mapper.translate_page(page).is_none());
}

#[test]
fn writable_view_round_trip() {
    let (mut mapper, mut phys, _pa) = setup();
    let range = PageRange::new(Page { number: 0x40000 }, Page { number: 0x40001 });
    let flags = EntryFlags::new(PRESENT | WRITABLE);
    let mut mp = mapper.map_pages(range, flags, &mut phys).unwrap();
    // A mutable view over the whole region as 2048 32-bit words.
    let view = mp.as_slice_mut(0, 2048, 4).unwrap();
    assert_eq!(view.value, 0x40000 * 4096);
    mp.write_u32(&mapper, &mut phys, 0, 0xDEADBEEF);
    mp.write_u32(&mapper, &mut phys, 2047 * 4, 0xCAFEBABE);
    let view2 = mp.as_slice(0, 2048, 4).unwrap();
    assert_eq!(view2.value, 0x40000 * 4096);
    assert_eq!(mp.read_u32(&mapper, &phys, 0), 0xDEADBEEF);
    assert_eq!(mp.read_u32(&mapper, &phys, 2047 * 4), 0xCAFEBABE);
}

#[test]
fn permission_enforcement() {
    let (mut mapper, mut phys, _pa) = setup();
    let page = Page { number: 0x50000 };
    let flags = EntryFlags::new(PRESENT);
    let mut mp = mapper.map(page, flags, &mut phys).unwrap();
    let err = mp.as_type_mut(0, 8).unwrap_err();
    assert_eq!(err, "MappedPages were not writable");
    assert!(!mp.flags().is_writable());
    // The installed level-1 entry still lacks the writable bit.
    let (_w4, _w3, _w2, w1) = mapper.dump_pte(page.start_address());
    assert_eq!(w1.unwrap() & WRITABLE, 0);
    assert!(mapper.translate_page(page).is_some());
}

#[test]
fn remap_to_executable() {
    let (mut mapper, mut phys, _pa) = setup();
    let page = Page { number: 0x60000 };
    let mut mp = mapper
        .map(page, EntryFlags::new(PRESENT | WRITABLE | NO_EXECUTE), &mut phys)
        .unwrap();
    for k in 0..4u64 {
        mp.write_byte(&mapper, &mut phys, k, (0xA0 + k) as u8);
    }
    assert_eq!(mp.as_func(0, 16).unwrap_err(), "MappedPages were not executable");
    let frame_before = mapper.translate_page(page).unwrap();
    mp.remap(&mut mapper, EntryFlags::new(PRESENT)).unwrap();
    let frame_after = mapper.translate_page(page).unwrap();
    assert_eq!(frame_before.number, frame_after.number);
    assert!(mp.as_func(0, 16).is_ok());
    assert_eq!(mp.as_type_mut(0, 8).unwrap_err(), "MappedPages were not writable");
    for k in 0..4u64 {
        assert_eq!(mp.read_byte(&mapper, &phys, k), (0xA0 + k) as u8);
    }
}

#[test]
fn remap_same_flags_is_noop() {
    let (mut mapper, mut phys, _pa) = setup();
    let page = Page { number: 0x70000 };
    let flags = EntryFlags::new(PRESENT | WRITABLE);
    let mut mp = mapper.map(page, flags, &mut phys).unwrap();
    let before = mapper.translate_page(page).unwrap();
    mp.remap(&mut mapper, flags).unwrap();
    mp.remap(&mut mapper, flags).unwrap();
    let after = mapper.translate_page(page).unwrap();
    assert_eq!(before.number, after.number);
    assert_eq!(mp.flags().bits(), flags.bits());
}

#[test]
fn merge_contiguous_ranges() {
    let (mut mapper, mut phys, _pa) = setup();
    let flags = EntryFlags::new(PRESENT | WRITABLE);
    let mut a = mapper
        .map_pages(PageRange::new(Page { number: 0x10 }, Page { number: 0x12 }), flags, &mut phys)
        .unwrap();
    let b = mapper
        .map_pages(PageRange::new(Page { number: 0x13 }, Page { number: 0x15 }), flags, &mut phys)
        .unwrap();
    a.merge(b).unwrap();
    assert_eq!(a.size_in_pages(), 6);
    assert_eq!(a.start_address().value, 0x10 * 4096);
    // A third mapping with different flags is refused and handed back.
    let c = mapper
        .map_pages(
            PageRange::new(Page { number: 0x16 }, Page { number: 0x17 }),
            EntryFlags::new(PRESENT),
            &mut phys,
        )
        .unwrap();
    let (msg, returned) = a.merge(c).unwrap_err();
    assert_eq!(msg, "mappings were mapped with different flags");
    assert_eq!(returned.size_in_pages(), 2);
    assert_eq!(returned.start_address().value, 0x16 * 4096);
}

#[test]
fn merge_rejects_gaps_and_foreign_tables() {
    let (mut mapper, mut phys, _pa) = setup();
    let flags = EntryFlags::new(PRESENT);
    let mut a = mapper
        .map_pages(PageRange::new(Page { number: 0x20 }, Page { number: 0x21 }), flags, &mut phys)
        .unwrap();
    let gap = mapper
        .map_pages(PageRange::new(Page { number: 0x30 }, Page { number: 0x31 }), flags, &mut phys)
        .unwrap();
    let (msg, _returned) = a.merge(gap).unwrap_err();
    assert_eq!(msg, "mappings were not contiguous in virtual memory");
    let foreign = MappedPages::from_existing(
        PageRange::new(Page { number: 0x22 }, Page { number: 0x23 }),
        flags,
        Frame { number: 999 },
    );
    let (msg2, _returned2) = a.merge(foreign).unwrap_err();
    assert_eq!(msg2, "mappings were mapped with different page tables");
}

#[test]
fn merge_rejects_mixed_provenance() {
    let (mut mapper, mut phys, mut pa) = setup();
    let flags = EntryFlags::new(PRESENT);
    let mut a = mapper
        .map_pages(
            PageRange::new(Page { number: 0x8ff_fffe }, Page { number: 0x8ff_ffff }),
            flags,
            &mut phys,
        )
        .unwrap();
    let ap = pa.allocate_pages(2).unwrap();
    assert_eq!(ap.pages.start.number, 0x900_0000);
    let b = mapper.map_allocated_pages(ap, flags, &mut phys).unwrap();
    let (msg, _returned) = a.merge(b).unwrap_err();
    assert_eq!(msg, "some mappings were mapped to AllocatedPages, while others were not");
}

#[test]
fn map_to_and_map_frames_use_given_frames() {
    let (mut mapper, mut phys, _pa) = setup();
    let flags = EntryFlags::new(PRESENT);
    let page = Page { number: 0x1000 };
    let _mp = mapper.map_to(page, Frame { number: 5000 }, flags, &mut phys).unwrap();
    assert_eq!(mapper.translate_page(page).unwrap().number, 5000);
    let frames = FrameRange::new(Frame { number: 6000 }, Frame { number: 6002 });
    let start = Page { number: 0x2000 };
    let _mp2 = mapper.map_frames(frames, start, flags, &mut phys).unwrap();
    for i in 0..3u64 {
        assert_eq!(mapper.translate_page(Page { number: 0x2000 + i }).unwrap().number, 6000 + i);
    }
}

#[test]
fn mapping_a_used_page_fails() {
    let (mut mapper, mut phys, _pa) = setup();
    let page = Page { number: 0x3000 };
    let flags = EntryFlags::new(PRESENT);
    let _mp = mapper.map(page, flags, &mut phys).unwrap();
    let err = mapper.map(page, flags, &mut phys).unwrap_err();
    assert_eq!(err, "page was already in use");
}

#[test]
fn slice_bounds_are_checked() {
    let (mut mapper, mut phys, _pa) = setup();
    let page = Page { number: 0x4000 };
    let mut mp = mapper.map(page, EntryFlags::new(PRESENT | WRITABLE), &mut phys).unwrap();
    let err = mp.as_slice(0, 1025, 4).unwrap_err();
    assert_eq!(err, "requested slice length and offset would not fit within the MappedPages bounds");
    let err2 = mp.as_type(4093, 4).unwrap_err();
    assert_eq!(err2, "requested type and offset would not fit within the MappedPages bounds");
    assert!(mp.as_slice_mut(0, 1024, 4).is_ok());
}

#[test]
fn deep_copy_duplicates_bytes_in_fresh_pages() {
    let (mut mapper, mut phys, mut pa) = setup();
    let flags = EntryFlags::new(PRESENT | WRITABLE);
    let range = PageRange::new(Page { number: 0x40 }, Page { number: 0x41 });
    let mut src = mapper.map_pages(range, flags, &mut phys).unwrap();
    for k in 0..8u64 {
        src.write_byte(&mapper, &mut phys, k * 512, (k + 1) as u8);
    }
    let copy = src.deep_copy(None, &mut mapper, &mut phys, &mut pa).unwrap();
    assert_eq!(copy.size_in_pages(), 2);
    assert!(copy.start_address().value >= 0x900_0000 * 4096);
    for k in 0..8u64 {
        assert_eq!(copy.read_byte(&mapper, &phys, k * 512), (k + 1) as u8);
        assert_eq!(src.read_byte(&mapper, &phys, k * 512), (k + 1) as u8);
    }
    assert!(copy.flags().is_writable());
}

#[test]
fn deep_copy_to_read_only_flags() {
    let (mut mapper, mut phys, mut pa) = setup();
    let range = PageRange::new(Page { number: 0x80 }, Page { number: 0x80 });
    let mut src = mapper
        .map_pages(range, EntryFlags::new(PRESENT | WRITABLE), &mut phys)
        .unwrap();
    src.write_byte(&mapper, &mut phys, 7, 0x5A);
    let mut copy = src
        .deep_copy(Some(EntryFlags::new(PRESENT)), &mut mapper, &mut phys, &mut pa)
        .unwrap();
    assert_eq!(copy.read_byte(&mapper, &phys, 7), 0x5A);
    assert!(!copy.flags().is_writable());
    assert_eq!(copy.as_type_mut(0, 8).unwrap_err(), "MappedPages were not writable");
}

#[test]
fn empty_handle_covers_nothing() {
    let mp = MappedPages::empty();
    assert_eq!(mp.size_in_pages(), 0);
    assert_eq!(mp.flags().bits(), 0);
}

#[test]
fn translate_on_fresh_mapper_is_none() {
    let (mapper, _phys, _pa) = setup();
    assert!(mapper.translate(VirtualAddress::new(0x1234_5000)).is_none());
    let (w4, w3, w2, w1) = mapper.dump_pte(VirtualAddress::new(0x1234_5000));
    assert_eq!(w4, 0);
    assert!(w3.is_none() && w2.is_none() && w1.is_none());
}

#[test]
fn page_allocator_hands_out_fresh_ranges() {
    let mut pa = PageAllocator::new(10);
    assert!(pa.allocate_pages(0).is_none());
    let a = pa.allocate_pages(3).unwrap();
    let b = pa.allocate_pages(2).unwrap();
    assert_eq!(a.pages.start.number, 10);
    assert_eq!(a.pages.end.number, 12);
    assert_eq!(b.pages.start.number, 13);
    assert_eq!(b.pages.end.number, 14);
}

#[test]
fn task_names_follow_ids() {
    let t = Task::new(TaskId { num: 37 });
    assert_eq!(t.name.as_str(), "task37");
    let t0 = Task::new(TaskId { num: 0 });
    assert_eq!(t0.name.as_str(), "task0");
}

#[test]
fn task_registry_create_iterate_remove() {
    let mut tl = TaskList::new();
    tl.init_first_task(0xAAA0).unwrap();
    let id1 = tl.new_task().unwrap();
    let id2 = tl.new_task().unwrap();
    assert_eq!(id1.num, 1);
    assert_eq!(id2.num, 2);
    let ids: Vec<u64> = tl.iter().iter().map(|t| t.num).collect();
    assert_eq!(ids, vec![0, 1, 2]);
    assert!(tl.init_first_task(0xAAA0).is_err());
    let removed = tl.remove(TaskId { num: 1 }).unwrap();
    assert_eq!(removed.id.num, 1);
    assert!(matches!(removed.runstate, RunState::INITING));
    let ids2: Vec<u64> = tl.iter().iter().map(|t| t.num).collect();
    assert_eq!(ids2, vec![0, 2]);
    assert!(tl.remove(TaskId { num: 1 }).is_none());
}

#[test]
fn spawn_and_switch() {
    let mut tl = TaskList::new();
    tl.init_first_task(0xAAA0).unwrap();
    let entry: u64 = 0x1122_3344_5566_7788;
    let id1 = tl.spawn(entry).unwrap();
    assert_eq!(id1.num, 1);
    let i0 = tl.index_of(TaskId { num: 0 }).unwrap();
    let i1 = tl.index_of(id1).unwrap();
    {
        let t1 = tl.get_task(i1);
        assert!(matches!(t1.runstate, RunState::RUNNABLE));
        assert_eq!(t1.arch_state.page_table, 0xAAA0);
        assert_eq!(t1.arch_state.stack_pointer, 16376);
        let stack = t1.kstack.as_ref().unwrap();
        assert_eq!(stack.len(), 16384);
        assert_eq!(&stack[16376..16384], &entry.to_le_bytes());
    }
    tl.switch_context(i0, i1);
    assert!(matches!(tl.get_task(i1).runstate, RunState::RUNNING));
    assert!(matches!(tl.get_task(i0).runstate, RunState::RUNNABLE));
    assert_eq!(tl.current_task.num, 1);
    assert!(!tl.context_switch_lock);
}

#[test]
fn frame_exhaustion_is_reported() {
    let mut mapper = Mapper::with_p4_frame(Frame { number: 100 });
    // Room for nothing: the allocator starts at its limit.
    let mut phys = PhysicalMemory::new(1000, 1000);
    let err = mapper
        .map(Page { number: 0x40000 }, EntryFlags::new(PRESENT), &mut phys)
        .unwrap_err();
    assert_eq!(err, "couldn't allocate new frame, out of memory!");
}

#[test]
fn lockstep_count_mismatch_is_reported() {
    let (mut mapper, mut phys, mut pa) = setup();
    let ap = pa.allocate_pages(3).unwrap();
    let frames = FrameRange::new(Frame { number: 7000 }, Frame { number: 7001 });
    let err = mapper
        .map_allocated_pages_to(ap, frames, EntryFlags::new(PRESENT), &mut phys)
        .unwrap_err();
    assert_eq!(err, "page count must equal frame count");
}

#[test]
fn deep_copy_fails_without_pages() {
    let (mut mapper, mut phys, _pa) = setup();
    // A page allocator with nothing left to hand out.
    let mut empty_pa = PageAllocator::new(0x10_0000_0000);
    let range = PageRange::new(Page { number: 0x90 }, Page { number: 0x90 });
    let src = mapper
        .map_pages(range, EntryFlags::new(PRESENT | WRITABLE), &mut phys)
        .unwrap();
    let err = src.deep_copy(None, &mut mapper, &mut phys, &mut empty_pa).unwrap_err();
    assert_eq!(err, "Couldn't allocate_pages()");
}

#[test]
fn intermediate_entries_never_no_execute() {
    let (mut mapper, mut phys, _pa) = setup();
    let page = Page { number: 0x55000 };
    let _mp = mapper
        .map(page, EntryFlags::new(PRESENT | NO_EXECUTE), &mut phys)
        .unwrap();
    let (w4, w3, w2, w1) = mapper.dump_pte(page.start_address());
    assert_eq!(w4 & NO_EXECUTE, 0);
    assert_eq!(w3.unwrap() & NO_EXECUTE, 0);
    assert_eq!(w2.unwrap() & NO_EXECUTE, 0);
    let leaf = w1.unwrap();
    assert_ne!(leaf & NO_EXECUTE, 0);
    assert_ne!(leaf & PRESENT, 0);
}

#[test]
fn freed_ids_can_be_reused() {
    let mut tl = TaskList::new();
    tl.init_first_task(0).unwrap();
    assert_eq!(tl.new_task().unwrap().num, 1);
    assert_eq!(tl.new_task().unwrap().num, 2);
    tl.remove(TaskId { num: 1 }).unwrap();
    // Point the search back at the freed id; the scan skips taken ids.
    tl.taskid_counter = 1;
    assert_eq!(tl.new_task().unwrap().num, 1);
    assert_eq!(tl.new_task().unwrap().num, 3);
    let ids: Vec<u64> = tl.iter().iter().map(|t| t.num).collect();
    assert_eq!(ids, vec![0, 1, 2, 3]);
}

#[test]
fn failed_multi_page_map_keeps_earlier_entries() {
    let (mut mapper, mut phys, _pa) = setup();
    let flags = EntryFlags::new(PRESENT);
    // Occupy the middle page of the range about to be requested.
    let _collision = mapper.map(Page { number: 0x5001 }, flags, &mut phys).unwrap();
    let err = mapper
        .map_pages(PageRange::new(Page { number: 0x5000 }, Page { number: 0x5002 }), flags, &mut phys)
        .unwrap_err();
    assert_eq!(err, "page was already in use");
    // No rollback: the page mapped before the failure stays installed, the
    // pages at and after it are untouched.
    assert!(mapper.translate_page(Page { number: 0x5000 }).is_some());
    assert!(mapper.translate_page(Page { number: 0x5002 }).is_none());
}
