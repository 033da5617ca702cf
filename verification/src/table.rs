//! The 4-level page-table tree and the specification-level walk.
//!
//! A `Table` is one 512-entry page table occupying a physical frame; its
//! entries either point to a lower-level table, map a (possibly huge) frame,
//! or are unused.  `table_walk` is the mathematical meaning of the hardware
//! translation walk; every operation on the tree is specified against it.

use vstd::prelude::*;
use crate::addr::{Frame, Page, FRAME_NUMBER_LIMIT, ENTRIES_PER_PAGE_TABLE};
use crate::flags::{EntryFlags, PRESENT, WRITABLE, HUGE, NO_EXECUTE, FLAGS_MASK};
use crate::phys::PhysicalMemory;

verus! {

/// One page-table entry.
pub enum Entry {
    /// A zero entry.
    Unused,
    /// A present entry pointing at a lower-level table.
    AsTable { table: Box<Table>, flags: EntryFlags },
    /// A present entry mapping a frame: the normal case at level 1, a huge
    /// page at levels 2 and 3.
    AsFrame { frame: Frame, flags: EntryFlags },
}

/// One 512-entry page table, together with the physical frame it occupies.
pub struct Table {
    pub frame: Frame,
    pub entries: Vec<Entry>,
}

/// The 64-bit word a hardware entry would hold: address bits 12..51 plus the
/// flag bits.
pub open spec fn entry_word(e: Entry) -> u64 {
    match e {
        Entry::Unused => 0,
        Entry::AsTable { table, flags } => ((table.frame.number * 4096) as u64) | (flags.bits
            & FLAGS_MASK) | PRESENT,
        Entry::AsFrame { frame, flags } => ((frame.number * 4096) as u64) | (flags.bits
            & FLAGS_MASK) | PRESENT,
    }
}

/// Well-formedness of a table at a given level (4 down to 1): 512 entries,
/// lower tables only below level 4, huge frames only at levels 3 and 2 and
/// suitably aligned, and intermediate entries never no-execute.
pub open spec fn table_wf(t: Table, level: nat) -> bool
    decreases level,
{
    &&& 1 <= level <= 4
    &&& t.entries@.len() == 512
    &&& t.frame.number < FRAME_NUMBER_LIMIT
    &&& forall|i: int|
        0 <= i < 512 ==> match #[trigger] t.entries@[i] {
            Entry::Unused => true,
            Entry::AsFrame { frame, flags } => {
                &&& level <= 3
                &&& frame.number < FRAME_NUMBER_LIMIT
                &&& (level >= 2 ==> flags.bits & HUGE != 0)
                &&& (level == 3 ==> frame.number % 262144 == 0)
                &&& (level == 2 ==> frame.number % 512 == 0)
            },
            Entry::AsTable { table, flags } => {
                &&& level >= 2
                &&& flags.bits & NO_EXECUTE == 0
                &&& table_wf(*table, (level - 1) as nat)
            },
        }
}

/// The translation walk: the frame number and leaf flag bits that the
/// hardware would find for `page`, or `None` if the walk hits an absent
/// entry.  Huge entries at level 3 (1 GiB) and level 2 (2 MiB) resolve using
/// the remaining low indices of the page.
pub open spec fn table_walk(t: Table, level: nat, page: Page) -> Option<(u64, u64)>
    decreases level,
{
    if level < 1 {
        None
    } else {
        let e = t.entries@[page.spec_index_at(level) as int];
        if level == 1 {
            match e {
                Entry::AsFrame { frame, flags } => Some((frame.number, flags.bits)),
                _ => None,
            }
        } else {
            match e {
                Entry::AsTable { table, flags } => table_walk(*table, (level - 1) as nat, page),
                Entry::AsFrame { frame, flags } => {
                    if level == 3 {
                        Some(
                            (
                                ((frame.number + page.spec_index_at(2) * 512
                                    + page.spec_index_at(1)) as u64),
                                flags.bits,
                            ),
                        )
                    } else if level == 2 {
                        Some((((frame.number + page.spec_index_at(1)) as u64), flags.bits))
                    } else {
                        None
                    }
                },
                Entry::Unused => None,
            }
        }
    }
}

/// True when installing a mapping for `page` would find its level-1 slot
/// free: the walk descends only through lower tables or absent entries, and
/// the level-1 entry (if its table exists) is unused.
pub open spec fn path_clear(t: Table, level: nat, page: Page) -> bool
    decreases level,
{
    if level < 1 {
        true
    } else {
        let e = t.entries@[page.spec_index_at(level) as int];
        if level == 1 {
            e is Unused
        } else {
            match e {
                Entry::AsTable { table, flags } => path_clear(*table, (level - 1) as nat, page),
                Entry::AsFrame { frame, flags } => false,
                Entry::Unused => true,
            }
        }
    }
}

/// True when the walk for `page` is blocked by a huge-page entry before
/// reaching level 1.
pub open spec fn path_blocked_huge(t: Table, level: nat, page: Page) -> bool
    decreases level,
{
    if level <= 1 {
        false
    } else {
        match t.entries@[page.spec_index_at(level) as int] {
            Entry::AsTable { table, flags } => path_blocked_huge(*table, (level - 1) as nat, page),
            Entry::AsFrame { frame, flags } => true,
            Entry::Unused => false,
        }
    }
}

/// True when every table on the path of `page` down to level 1 exists.
pub open spec fn reaches_p1(t: Table, level: nat, page: Page) -> bool
    decreases level,
{
    if level <= 1 {
        true
    } else {
        match t.entries@[page.spec_index_at(level) as int] {
            Entry::AsTable { table, flags } => reaches_p1(*table, (level - 1) as nat, page),
            _ => false,
        }
    }
}

/// True when `page` is mapped by a present level-1 entry (not a huge page).
pub open spec fn leaf_mapped(t: Table, level: nat, page: Page) -> bool
    decreases level,
{
    if level < 1 {
        false
    } else {
        let e = t.entries@[page.spec_index_at(level) as int];
        if level == 1 {
            e is AsFrame
        } else {
            match e {
                Entry::AsTable { table, flags } => leaf_mapped(*table, (level - 1) as nat, page),
                _ => false,
            }
        }
    }
}

/// How many intermediate tables a mapping of `page` would have to create.
pub open spec fn tables_to_create(t: Table, level: nat, page: Page) -> int
    decreases level,
{
    if level <= 1 {
        0
    } else {
        match t.entries@[page.spec_index_at(level) as int] {
            Entry::AsTable { table, flags } => tables_to_create(*table, (level - 1) as nat, page),
            Entry::Unused => level - 1,
            Entry::AsFrame { frame, flags } => 0,
        }
    }
}

/// Two pages take the same sequence of table indices from `level` down to 1.
pub open spec fn same_path(a: Page, b: Page, level: nat) -> bool
    decreases level,
{
    if level < 1 {
        true
    } else {
        a.spec_index_at(level) == b.spec_index_at(level) && same_path(a, b, (level - 1) as nat)
    }
}

/// The table reached by following `page`'s path from `level` down to
/// `down`, if every entry on the way is a table.
#[verifier::opaque]
pub open spec fn subtable(t: Table, level: nat, down: nat, page: Page) -> Option<Table>
    decreases level,
{
    if level <= down {
        if level == down {
            Some(t)
        } else {
            None
        }
    } else {
        match t.entries@[page.spec_index_at(level) as int] {
            Entry::AsTable { table, flags } => subtable(*table, (level - 1) as nat, down, page),
            _ => None,
        }
    }
}

/// The 64-bit word of one entry; mirrors `entry_word`.
pub fn entry_value(e: &Entry) -> (r: u64)
    requires
        match *e {
            Entry::Unused => true,
            Entry::AsTable { table, flags } => table.frame.number < FRAME_NUMBER_LIMIT,
            Entry::AsFrame { frame, flags } => frame.number < FRAME_NUMBER_LIMIT,
        },
    ensures
        r == entry_word(*e),
{
    match e {
        Entry::Unused => 0,
        Entry::AsTable { table, flags } => (table.frame.number * 4096) | (flags.bits() & FLAGS_MASK)
            | PRESENT,
        Entry::AsFrame { frame, flags } => (frame.number * 4096) | (flags.bits() & FLAGS_MASK)
            | PRESENT,
    }
}

/// Well-formedness of a single entry at a given level; the per-entry part
/// of `table_wf`.
pub open spec fn entry_wf(e: Entry, level: nat) -> bool {
    match e {
        Entry::Unused => true,
        Entry::AsFrame { frame, flags } => {
            &&& level <= 3
            &&& frame.number < FRAME_NUMBER_LIMIT
            &&& (level >= 2 ==> flags.bits & HUGE != 0)
            &&& (level == 3 ==> frame.number % 262144 == 0)
            &&& (level == 2 ==> frame.number % 512 == 0)
        },
        Entry::AsTable { table, flags } => {
            &&& level >= 2
            &&& flags.bits & NO_EXECUTE == 0
            &&& table_wf(*table, (level - 1) as nat)
        },
    }
}

/// Replacing one entry of a well-formed table by a well-formed entry keeps
/// the table well-formed.
proof fn lemma_table_wf_update(t0: Table, t1: Table, level: nat, idx: int)
    requires
        table_wf(t0, level),
        t1.entries@.len() == 512,
        t1.frame == t0.frame,
        0 <= idx < 512,
        forall|i: int| 0 <= i < 512 && i != idx ==> t1.entries@[i] == t0.entries@[i],
        entry_wf(t1.entries@[idx], level),
    ensures
        table_wf(t1, level),
{
    assert forall|i: int| 0 <= i < 512 implies match #[trigger] t1.entries@[i] {
        Entry::Unused => true,
        Entry::AsFrame { frame, flags } => {
            &&& level <= 3
            &&& frame.number < FRAME_NUMBER_LIMIT
            &&& (level >= 2 ==> flags.bits & HUGE != 0)
            &&& (level == 3 ==> frame.number % 262144 == 0)
            &&& (level == 2 ==> frame.number % 512 == 0)
        },
        Entry::AsTable { table, flags } => {
            &&& level >= 2
            &&& flags.bits & NO_EXECUTE == 0
            &&& table_wf(*table, (level - 1) as nat)
        },
    } by {
        if i == idx {
            assert(entry_wf(t1.entries@[i], level));
        } else {
            assert(t1.entries@[i] == t0.entries@[i]);
        }
    }
}

/// A mapping never has to create more than `level - 1` tables.
pub proof fn lemma_tables_to_create_bound(t: Table, level: nat, page: Page)
    requires
        table_wf(t, level),
    ensures
        0 <= tables_to_create(t, level, page) <= level - 1,
    decreases level,
{
    crate::addr::lemma_index_bound(page, level);
    if level > 1 {
        match t.entries@[page.spec_index_at(level) as int] {
            Entry::AsTable { table, flags } => {
                lemma_tables_to_create_bound(*table, (level - 1) as nat, page);
            },
            _ => {},
        }
    }
}

/// Distinct well-formed pages never share the whole 4-level path.
pub proof fn lemma_distinct_pages_differ(a: Page, b: Page)
    requires
        a.wf(),
        b.wf(),
        a != b,
    ensures
        !same_path(a, b, 4),
{
    if same_path(a, b, 4) {
        assert(same_path(a, b, 3));
        assert(same_path(a, b, 2));
        assert(same_path(a, b, 1));
        assert(same_path(a, b, 0));
        crate::addr::lemma_page_indices_injective(a, b);
    }
}

impl Table {
    /// A freshly allocated, zeroed table: every entry unused.
    pub fn new_empty(frame: Frame) -> (r: Table)
        requires
            frame.wf(),
        ensures
            r.frame == frame,
            forall|l: nat| 1 <= l <= 4 ==> table_wf(r, l),
            forall|l: nat, q: Page|
                1 <= l <= 4 ==> #[trigger] table_walk(r, l, q) is None && path_clear(r, l, q)
                    && !leaf_mapped(r, l, q) && !path_blocked_huge(r, l, q) && !reaches_p1(
                    r,
                    l,
                    q,
                ) == (l != 1) && tables_to_create(r, l, q) == if l <= 1 {
                    0int
                } else {
                    l - 1
                },
    {
        let mut entries: Vec<Entry> = Vec::new();
        let mut i: u64 = 0;
        while i < ENTRIES_PER_PAGE_TABLE
            invariant
                i <= 512,
                entries@.len() == i,
                forall|j: int| 0 <= j < i ==> entries@[j] is Unused,
            decreases 512 - i,
        {
            entries.push(Entry::Unused);
            i = i + 1;
        }
        let r = Table { frame, entries };
        proof {
            assert forall|l: nat, q: Page| 1 <= l <= 4 implies #[trigger] table_walk(r, l, q)
                is None && path_clear(r, l, q) && !leaf_mapped(r, l, q) && !path_blocked_huge(
                r,
                l,
                q,
            ) && !reaches_p1(r, l, q) == (l != 1) && tables_to_create(r, l, q) == if l <= 1 {
                0int
            } else {
                l - 1
            } by {
                crate::addr::lemma_index_bound(q, l);
                assert(r.entries@[q.spec_index_at(l) as int] is Unused);
            }
        }
        r
    }
}

/// The executable translation walk; it mirrors `table_walk` exactly.
pub fn table_lookup(t: &Table, level: u64, page: Page) -> (r: Option<Frame>)
    requires
        table_wf(*t, level as nat),
        1 <= level <= 4,
    ensures
        match table_walk(*t, level as nat, page) {
            Some((f, b)) => r == Some(Frame { number: f }),
            None => r is None,
        },
    decreases level,
{
    proof {
        crate::addr::lemma_index_bound(page, level as nat);
    }
    let idx = page.index_at(level) as usize;
    let e = &t.entries[idx];
    if level == 1 {
        match e {
            Entry::AsFrame { frame, flags } => Some(*frame),
            _ => None,
        }
    } else {
        match e {
            Entry::AsTable { table, flags } => table_lookup(table, level - 1, page),
            Entry::AsFrame { frame, flags } => {
                if level == 3 {
                    Some(Frame { number: frame.number + page.p2_index() * 512 + page.p1_index() })
                } else if level == 2 {
                    Some(Frame { number: frame.number + page.p1_index() })
                } else {
                    None
                }
            },
            Entry::Unused => None,
        }
    }
}

/// Installs a level-1 mapping `page -> frame` with the given flags,
/// creating intermediate tables as needed (`next_table_create`).  Refuses to
/// descend through a huge entry and refuses a level-1 slot already in use.
pub fn table_map(
    t: &mut Table,
    level: u64,
    page: Page,
    frame: Frame,
    flags: EntryFlags,
    top_flags: EntryFlags,
    alloc: &mut PhysicalMemory,
) -> (r: Result<(), &'static str>)
    requires
        table_wf(*old(t), level as nat),
        1 <= level <= 4,
        old(alloc).wf(),
        frame.wf(),
        top_flags.bits & NO_EXECUTE == 0,
    ensures
        table_wf(*final(t), level as nat),
        final(t).frame == old(t).frame,
        final(alloc).wf(),
        final(alloc).frame_limit == old(alloc).frame_limit,
        final(alloc).contents == old(alloc).contents,
        final(alloc).next_free_frame >= old(alloc).next_free_frame,
        final(alloc).next_free_frame <= old(alloc).next_free_frame + level - 1,
        r is Ok <==> (path_clear(*old(t), level as nat, page) && old(alloc).next_free_frame
            + tables_to_create(*old(t), level as nat, page) <= old(alloc).frame_limit),
        path_blocked_huge(*old(t), level as nat, page) ==> (r matches Err(m) && m@
            == "mapping code does not support huge pages"@),
        !path_clear(*old(t), level as nat, page) && !path_blocked_huge(*old(t), level as nat, page)
            ==> (r matches Err(m) && m@ == "page was already in use"@),
        path_clear(*old(t), level as nat, page) && r is Err ==> (r matches Err(m) && m@
            == "couldn't allocate new frame, out of memory!"@),
        forall|q: Page|
            !same_path(q, page, level as nat) ==> #[trigger] table_walk(*final(t), level as nat, q)
                == table_walk(*old(t), level as nat, q) && path_clear(*final(t), level as nat, q)
                == path_clear(*old(t), level as nat, q) && leaf_mapped(*final(t), level as nat, q)
                == leaf_mapped(*old(t), level as nat, q),
        r is Ok ==> table_walk(*final(t), level as nat, page) == Some(
            (frame.number, flags.bits | PRESENT),
        ) && leaf_mapped(*final(t), level as nat, page),
        r is Err ==> forall|q: Page|
            #[trigger] table_walk(*final(t), level as nat, q) == table_walk(*old(t), level as nat, q)
                && path_clear(*final(t), level as nat, q) == path_clear(*old(t), level as nat, q)
                && leaf_mapped(*final(t), level as nat, q) == leaf_mapped(*old(t), level as nat, q),
    decreases level,
{
    proof {
        crate::addr::lemma_index_bound(page, level as nat);
    }
    let ghost t0 = *t;
    let idx = page.index_at(level) as usize;
    if level == 1 {
        let used: bool = match &t.entries[idx] {
            Entry::Unused => false,
            _ => true,
        };
        if used {
            return Err("page was already in use");
        }
        t.entries[idx] = Entry::AsFrame { frame, flags: flags.or(EntryFlags::new(PRESENT)) };
        proof {
            assert(entry_wf(t.entries@[idx as int], level as nat));
            lemma_table_wf_update(t0, *t, level as nat, idx as int);
            assert forall|q: Page| !same_path(q, page, level as nat) implies #[trigger] table_walk(
                *t,
                level as nat,
                q,
            ) == table_walk(t0, level as nat, q) && path_clear(*t, level as nat, q) == path_clear(
                t0,
                level as nat,
                q,
            ) && leaf_mapped(*t, level as nat, q) == leaf_mapped(t0, level as nat, q) by {
                crate::addr::lemma_index_bound(q, 1);
                assert(same_path(q, page, 0));
                assert(q.spec_index_at(1) != page.spec_index_at(1));
                assert(t.entries@[q.spec_index_at(1) as int] == t0.entries@[q.spec_index_at(
                    1,
                ) as int]);
            }
        }
        Ok(())
    } else {
        let kind: u8 = match &t.entries[idx] {
            Entry::Unused => 0,
            Entry::AsTable { table, flags } => 1,
            Entry::AsFrame { frame, flags } => 2,
        };
        if kind == 2 {
            return Err("mapping code does not support huge pages");
        }
        let nflags = top_flags.or(EntryFlags::new(PRESENT | WRITABLE));
        proof {
            let a = top_flags.bits;
            let b = nflags.bits;
            assert(b & 0x8000_0000_0000_0000u64 == 0) by (bit_vector)
                requires
                    a & 0x8000_0000_0000_0000u64 == 0,
                    b == a | (0x1u64 | 0x2u64),
            ;
            assert(nflags.bits & NO_EXECUTE == 0);
        }
        if kind == 0 {
            let nf = match alloc.allocate_frame() {
                Some(f) => f,
                None => {
                    return Err("couldn't allocate new frame, out of memory!");
                },
            };
            let fresh = Table::new_empty(nf);
            t.entries[idx] = Entry::AsTable { table: Box::new(fresh), flags: nflags };
        }
        let ghost t_mid = *t;
        let e = t.entries.remove(idx);
        match e {
            Entry::AsTable { table, flags: tflags } => {
                let mut sub: Table = *table;
                let ghost sub0 = sub;
                let r = table_map(&mut sub, level - 1, page, frame, flags, top_flags, alloc);
                t.entries.insert(idx, Entry::AsTable { table: Box::new(sub), flags: tflags });
                proof {
                    assert(t.entries@ =~= t_mid.entries@.update(
                        idx as int,
                        Entry::AsTable { table: Box::new(sub), flags: tflags },
                    ));
                    assert forall|i: int| 0 <= i < 512 && i != idx implies t.entries@[i]
                        == t0.entries@[i] by {
                        assert(t.entries@[i] == t_mid.entries@[i]);
                        assert(t_mid.entries@[i] == t0.entries@[i]);
                    }
                    assert(t.entries@[idx as int] == Entry::AsTable {
                        table: Box::new(sub),
                        flags: tflags,
                    });
                    assert(table_wf(sub, (level - 1) as nat));
                    if kind == 1 {
                        assert(t0.entries@[idx as int] == Entry::AsTable {
                            table: Box::new(sub0),
                            flags: tflags,
                        });
                    } else {
                        assert(tflags == nflags);
                    }
                    assert(tflags.bits & NO_EXECUTE == 0);
                    assert(entry_wf(t.entries@[idx as int], level as nat));
                    lemma_table_wf_update(t0, *t, level as nat, idx as int);
                    lemma_map_frame_post(t0, *t, sub0, sub, level as nat, page, idx as int);
                    if r is Err {
                        assert forall|q: Page| #[trigger] table_walk(*t, level as nat, q)
                            == table_walk(t0, level as nat, q) && path_clear(*t, level as nat, q)
                            == path_clear(t0, level as nat, q) && leaf_mapped(*t, level as nat, q)
                            == leaf_mapped(t0, level as nat, q) by {
                            crate::addr::lemma_index_bound(q, level as nat);
                            if same_path(q, page, level as nat) {
                                assert(q.spec_index_at(level as nat) == page.spec_index_at(
                                    level as nat,
                                ));
                                assert(table_walk(sub, (level - 1) as nat, q) == table_walk(
                                    sub0,
                                    (level - 1) as nat,
                                    q,
                                ));
                                assert(path_clear(sub, (level - 1) as nat, q) == path_clear(
                                    sub0,
                                    (level - 1) as nat,
                                    q,
                                ));
                                assert(leaf_mapped(sub, (level - 1) as nat, q) == leaf_mapped(
                                    sub0,
                                    (level - 1) as nat,
                                    q,
                                ));
                            }
                        }
                    }
                }
                r
            },
            _ => {
                proof {
                    assert(false);
                }
                Err("page was already in use")
            },
        }
    }
}

/// Rewrites the level-1 entry for `page` with its existing frame and the
/// given new flags.  Fails on a path blocked before level 1 (a huge page or
/// an absent table) or on an unused level-1 entry.
pub fn table_remap(t: &mut Table, level: u64, page: Page, new_flags: EntryFlags) -> (r: Result<
    Frame,
    &'static str,
>)
    requires
        table_wf(*old(t), level as nat),
        1 <= level <= 4,
    ensures
        table_wf(*final(t), level as nat),
        final(t).frame == old(t).frame,
        r is Ok <==> leaf_mapped(*old(t), level as nat, page),
        !reaches_p1(*old(t), level as nat, page) ==> (r matches Err(m) && m@
            == "mapping code does not support huge pages"@),
        reaches_p1(*old(t), level as nat, page) && !leaf_mapped(*old(t), level as nat, page) ==> (
        r matches Err(m) && m@ == "page not mapped"@),
        r matches Ok(f) ==> (match table_walk(*old(t), level as nat, page) {
            Some((fr, b)) => f.number == fr,
            None => false,
        }),
        r matches Ok(f) ==> table_walk(*final(t), level as nat, page) == Some(
            (f.number, new_flags.bits | PRESENT),
        ) && leaf_mapped(*final(t), level as nat, page),
        forall|q: Page|
            !same_path(q, page, level as nat) ==> #[trigger] table_walk(*final(t), level as nat, q)
                == table_walk(*old(t), level as nat, q) && path_clear(*final(t), level as nat, q)
                == path_clear(*old(t), level as nat, q) && leaf_mapped(*final(t), level as nat, q)
                == leaf_mapped(*old(t), level as nat, q),
        r is Err ==> forall|q: Page|
            #[trigger] table_walk(*final(t), level as nat, q) == table_walk(*old(t), level as nat, q)
                && path_clear(*final(t), level as nat, q) == path_clear(*old(t), level as nat, q)
                && leaf_mapped(*final(t), level as nat, q) == leaf_mapped(*old(t), level as nat, q),
    decreases level,
{
    proof {
        crate::addr::lemma_index_bound(page, level as nat);
    }
    let ghost t0 = *t;
    let idx = page.index_at(level) as usize;
    if level == 1 {
        let frame_opt: Option<Frame> = match &t.entries[idx] {
            Entry::AsFrame { frame, flags } => Some(*frame),
            _ => None,
        };
        match frame_opt {
            None => Err("page not mapped"),
            Some(f) => {
                t.entries[idx] = Entry::AsFrame {
                    frame: f,
                    flags: new_flags.or(EntryFlags::new(PRESENT)),
                };
                proof {
                    assert(entry_wf(t.entries@[idx as int], level as nat));
                    lemma_table_wf_update(t0, *t, level as nat, idx as int);
                    assert forall|q: Page| !same_path(q, page, level as nat) implies #[trigger]
                    table_walk(*t, level as nat, q) == table_walk(t0, level as nat, q)
                        && path_clear(*t, level as nat, q) == path_clear(t0, level as nat, q)
                        && leaf_mapped(*t, level as nat, q) == leaf_mapped(t0, level as nat, q) by {
                        crate::addr::lemma_index_bound(q, 1);
                        assert(same_path(q, page, 0));
                        assert(t.entries@[q.spec_index_at(1) as int] == t0.entries@[q.spec_index_at(
                            1,
                        ) as int]);
                    }
                }
                Ok(f)
            },
        }
    } else {
        let descend: bool = match &t.entries[idx] {
            Entry::AsTable { table, flags } => true,
            _ => false,
        };
        if !descend {
            return Err("mapping code does not support huge pages");
        }
        let e = t.entries.remove(idx);
        match e {
            Entry::AsTable { table, flags: tflags } => {
                let mut sub: Table = *table;
                let ghost sub0 = sub;
                let r = table_remap(&mut sub, level - 1, page, new_flags);
                t.entries.insert(idx, Entry::AsTable { table: Box::new(sub), flags: tflags });
                proof {
                    lemma_descend_post(t0, *t, sub0, sub, level as nat, page, idx as int, tflags);
                    if r is Err {
                        lemma_descend_unchanged(t0, *t, sub0, sub, level as nat, page, idx as int);
                    }
                }
                r
            },
            _ => {
                proof {
                    assert(false);
                }
                Err("page not mapped")
            },
        }
    }
}

/// Clears the level-1 entry for `page`, returning the frame it mapped.
/// Fails exactly as `table_remap` does.
pub fn table_unmap(t: &mut Table, level: u64, page: Page) -> (r: Result<Frame, &'static str>)
    requires
        table_wf(*old(t), level as nat),
        1 <= level <= 4,
    ensures
        table_wf(*final(t), level as nat),
        final(t).frame == old(t).frame,
        r is Ok <==> leaf_mapped(*old(t), level as nat, page),
        !reaches_p1(*old(t), level as nat, page) ==> (r matches Err(m) && m@
            == "mapping code does not support huge pages"@),
        reaches_p1(*old(t), level as nat, page) && !leaf_mapped(*old(t), level as nat, page) ==> (
        r matches Err(m) && m@ == "page not mapped"@),
        r matches Ok(f) ==> (match table_walk(*old(t), level as nat, page) {
            Some((fr, b)) => f.number == fr,
            None => false,
        }),
        r is Ok ==> table_walk(*final(t), level as nat, page) is None && !leaf_mapped(
            *final(t),
            level as nat,
            page,
        ) && path_clear(*final(t), level as nat, page),
        forall|q: Page|
            !same_path(q, page, level as nat) ==> #[trigger] table_walk(*final(t), level as nat, q)
                == table_walk(*old(t), level as nat, q) && path_clear(*final(t), level as nat, q)
                == path_clear(*old(t), level as nat, q) && leaf_mapped(*final(t), level as nat, q)
                == leaf_mapped(*old(t), level as nat, q),
        r is Err ==> forall|q: Page|
            #[trigger] table_walk(*final(t), level as nat, q) == table_walk(*old(t), level as nat, q)
                && path_clear(*final(t), level as nat, q) == path_clear(*old(t), level as nat, q)
                && leaf_mapped(*final(t), level as nat, q) == leaf_mapped(*old(t), level as nat, q),
    decreases level,
{
    proof {
        crate::addr::lemma_index_bound(page, level as nat);
    }
    let ghost t0 = *t;
    let idx = page.index_at(level) as usize;
    if level == 1 {
        let frame_opt: Option<Frame> = match &t.entries[idx] {
            Entry::AsFrame { frame, flags } => Some(*frame),
            _ => None,
        };
        match frame_opt {
            None => Err("page not mapped"),
            Some(f) => {
                t.entries[idx] = Entry::Unused;
                proof {
                    assert(entry_wf(t.entries@[idx as int], level as nat));
                    lemma_table_wf_update(t0, *t, level as nat, idx as int);
                    assert forall|q: Page| !same_path(q, page, level as nat) implies #[trigger]
                    table_walk(*t, level as nat, q) == table_walk(t0, level as nat, q)
                        && path_clear(*t, level as nat, q) == path_clear(t0, level as nat, q)
                        && leaf_mapped(*t, level as nat, q) == leaf_mapped(t0, level as nat, q) by {
                        crate::addr::lemma_index_bound(q, 1);
                        assert(same_path(q, page, 0));
                        assert(t.entries@[q.spec_index_at(1) as int] == t0.entries@[q.spec_index_at(
                            1,
                        ) as int]);
                    }
                }
                Ok(f)
            },
        }
    } else {
        let descend: bool = match &t.entries[idx] {
            Entry::AsTable { table, flags } => true,
            _ => false,
        };
        if !descend {
            return Err("mapping code does not support huge pages");
        }
        let e = t.entries.remove(idx);
        match e {
            Entry::AsTable { table, flags: tflags } => {
                let mut sub: Table = *table;
                let ghost sub0 = sub;
                let r = table_unmap(&mut sub, level - 1, page);
                t.entries.insert(idx, Entry::AsTable { table: Box::new(sub), flags: tflags });
                proof {
                    lemma_descend_post(t0, *t, sub0, sub, level as nat, page, idx as int, tflags);
                    if r is Err {
                        lemma_descend_unchanged(t0, *t, sub0, sub, level as nat, page, idx as int);
                    }
                }
                r
            },
            _ => {
                proof {
                    assert(false);
                }
                Err("page not mapped")
            },
        }
    }
}

/// After descending into the table at `page`'s index and putting the
/// modified subtable back, the whole table is well-formed and all
/// observations off `page`'s path are preserved.
proof fn lemma_descend_post(
    t0: Table,
    t1: Table,
    sub0: Table,
    sub1: Table,
    level: nat,
    page: Page,
    idx: int,
    tflags: EntryFlags,
)
    requires
        2 <= level <= 4,
        table_wf(t0, level),
        t1.entries@.len() == 512,
        t1.frame == t0.frame,
        0 <= idx < 512,
        idx == page.spec_index_at(level),
        forall|i: int| 0 <= i < 512 && i != idx ==> t1.entries@[i] == t0.entries@[i],
        t0.entries@[idx] == (Entry::AsTable { table: Box::new(sub0), flags: tflags }),
        t1.entries@[idx] == (Entry::AsTable { table: Box::new(sub1), flags: tflags }),
        table_wf(sub1, (level - 1) as nat),
        forall|q: Page|
            !same_path(q, page, (level - 1) as nat) ==> #[trigger] table_walk(
                sub1,
                (level - 1) as nat,
                q,
            ) == table_walk(sub0, (level - 1) as nat, q) && path_clear(sub1, (level - 1) as nat, q)
                == path_clear(sub0, (level - 1) as nat, q) && leaf_mapped(
                sub1,
                (level - 1) as nat,
                q,
            ) == leaf_mapped(sub0, (level - 1) as nat, q),
    ensures
        table_wf(t1, level),
        forall|q: Page|
            !same_path(q, page, level) ==> #[trigger] table_walk(t1, level, q) == table_walk(
                t0,
                level,
                q,
            ) && path_clear(t1, level, q) == path_clear(t0, level, q) && leaf_mapped(t1, level, q)
                == leaf_mapped(t0, level, q),
{
    assert(entry_wf(t1.entries@[idx], level));
    lemma_table_wf_update(t0, t1, level, idx);
    lemma_map_frame_post(t0, t1, sub0, sub1, level, page, idx);
}

/// As `lemma_descend_post`, for the case where the subtable's observations
/// are unchanged for every page: then so are the whole table's.
proof fn lemma_descend_unchanged(
    t0: Table,
    t1: Table,
    sub0: Table,
    sub1: Table,
    level: nat,
    page: Page,
    idx: int,
)
    requires
        2 <= level <= 4,
        t0.entries@.len() == 512,
        t1.entries@.len() == 512,
        0 <= idx < 512,
        idx == page.spec_index_at(level),
        forall|i: int| 0 <= i < 512 && i != idx ==> t1.entries@[i] == t0.entries@[i],
        t0.entries@[idx] matches Entry::AsTable { table, flags } && *table == sub0,
        t1.entries@[idx] matches Entry::AsTable { table, flags } && *table == sub1,
        forall|q: Page|
            #[trigger] table_walk(sub1, (level - 1) as nat, q) == table_walk(
                sub0,
                (level - 1) as nat,
                q,
            ) && path_clear(sub1, (level - 1) as nat, q) == path_clear(sub0, (level - 1) as nat, q)
                && leaf_mapped(sub1, (level - 1) as nat, q) == leaf_mapped(
                sub0,
                (level - 1) as nat,
                q,
            ),
    ensures
        forall|q: Page|
            #[trigger] table_walk(t1, level, q) == table_walk(t0, level, q) && path_clear(
                t1,
                level,
                q,
            ) == path_clear(t0, level, q) && leaf_mapped(t1, level, q) == leaf_mapped(t0, level, q),
{
    assert forall|q: Page| #[trigger] table_walk(t1, level, q) == table_walk(t0, level, q)
        && path_clear(t1, level, q) == path_clear(t0, level, q) && leaf_mapped(t1, level, q)
        == leaf_mapped(t0, level, q) by {
        crate::addr::lemma_index_bound(q, level);
        let qi = q.spec_index_at(level) as int;
        if qi != idx {
            assert(t1.entries@[qi] == t0.entries@[qi]);
        } else {
            assert(table_walk(sub1, (level - 1) as nat, q) == table_walk(
                sub0,
                (level - 1) as nat,
                q,
            ));
            assert(path_clear(sub1, (level - 1) as nat, q) == path_clear(
                sub0,
                (level - 1) as nat,
                q,
            ));
            assert(leaf_mapped(sub1, (level - 1) as nat, q) == leaf_mapped(
                sub0,
                (level - 1) as nat,
                q,
            ));
        }
    }
}

/// Framing for one step of `table_map`: when only the entry on `page`'s path
/// is replaced by a table whose off-path observations agree with the old
/// ones, all off-path observations of the whole table are preserved.
proof fn lemma_map_frame_post(
    t0: Table,
    t1: Table,
    sub0: Table,
    sub1: Table,
    level: nat,
    page: Page,
    idx: int,
)
    requires
        2 <= level <= 4,
        t0.entries@.len() == 512,
        t1.entries@.len() == 512,
        0 <= idx < 512,
        idx == page.spec_index_at(level),
        forall|i: int| 0 <= i < 512 && i != idx ==> t1.entries@[i] == t0.entries@[i],
        t1.entries@[idx] matches Entry::AsTable { table, flags } && *table == sub1,
        (t0.entries@[idx] matches Entry::AsTable { table, flags } && *table == sub0) || (
        t0.entries@[idx] is Unused && forall|q: Page|
            #[trigger] table_walk(sub0, (level - 1) as nat, q) is None && path_clear(
                sub0,
                (level - 1) as nat,
                q,
            ) && !leaf_mapped(sub0, (level - 1) as nat, q)),
        forall|q: Page|
            !same_path(q, page, (level - 1) as nat) ==> #[trigger] table_walk(
                sub1,
                (level - 1) as nat,
                q,
            ) == table_walk(sub0, (level - 1) as nat, q) && path_clear(sub1, (level - 1) as nat, q)
                == path_clear(sub0, (level - 1) as nat, q) && leaf_mapped(
                sub1,
                (level - 1) as nat,
                q,
            ) == leaf_mapped(sub0, (level - 1) as nat, q),
    ensures
        forall|q: Page|
            !same_path(q, page, level) ==> #[trigger] table_walk(t1, level, q) == table_walk(
                t0,
                level,
                q,
            ) && path_clear(t1, level, q) == path_clear(t0, level, q) && leaf_mapped(t1, level, q)
                == leaf_mapped(t0, level, q),
{
    assert forall|q: Page| !same_path(q, page, level) implies #[trigger] table_walk(t1, level, q)
        == table_walk(t0, level, q) && path_clear(t1, level, q) == path_clear(t0, level, q)
        && leaf_mapped(t1, level, q) == leaf_mapped(t0, level, q) by {
        crate::addr::lemma_index_bound(q, level);
        let qi = q.spec_index_at(level) as int;
        if qi != idx {
            assert(t1.entries@[qi] == t0.entries@[qi]);
        } else {
            assert(!same_path(q, page, (level - 1) as nat));
            assert(table_walk(sub1, (level - 1) as nat, q) == table_walk(
                sub0,
                (level - 1) as nat,
                q,
            ));
            assert(path_clear(sub1, (level - 1) as nat, q) == path_clear(
                sub0,
                (level - 1) as nat,
                q,
            ));
            assert(leaf_mapped(sub1, (level - 1) as nat, q) == leaf_mapped(
                sub0,
                (level - 1) as nat,
                q,
            ));
            if t0.entries@[idx] is Unused {
                assert(table_walk(sub0, (level - 1) as nat, q) is None);
                assert(table_walk(t0, level, q) is None);
            }
        }
    }
}

} // verus!
