//! The four-level page table and its walker.
//!
//! Physical memory is modelled as an arena of page-table nodes: each node is
//! one 4 KiB frame, identified by its physical address and reachable, as on
//! the real machine through the fixed physical-memory offset, by following
//! the arena index recorded beside that address in each entry. Every table
//! holds 512 entries; an entry is unused, points to the next-level table, or
//! maps a frame.

use vstd::prelude::*;

use crate::addr::{
    p1_index, p1_index_spec, p2_index, p2_index_spec, p3_index, p3_index_spec, p4_index,
    p4_index_spec, page_base_spec, page_offset, page_offset_spec, MAX_PHYS_ADDR,
};
use crate::memory::{
    lemma_usable_frames_distinct, lemma_usable_frames_valid, remaining_frames, usable_frames,
    wf_memory_map, BootInfoFrameAllocator,
};

verus! {

/// Permission bits of a page-table entry.
#[derive(Clone, Copy, Debug, PartialEq, Eq, Structural)]
pub struct PageTableFlags {
    pub present: bool,
    pub writable: bool,
    pub huge_page: bool,
}

/// One entry of a page table.
#[derive(Clone, Copy, Debug, PartialEq, Eq, Structural)]
pub enum PageTableEntry {
    /// No mapping.
    Unused,
    /// Points at the next-level table: its physical frame address, and the
    /// arena index at which that frame is reachable.
    Table { next_addr: u64, next_index: usize },
    /// Maps a physical frame; at levels 4 to 2 such an entry is a huge page,
    /// which this walker does not subdivide or follow.
    Frame { frame_addr: u64, flags: PageTableFlags },
}

/// One page table: the physical address of the frame holding it, and its
/// 512 entries.
#[derive(Clone, Debug)]
pub struct PageTable {
    pub addr: u64,
    pub entries: Vec<PageTableEntry>,
}

/// The page-table hierarchy as seen through the fixed physical-memory
/// offset. `tables[0]` is the active level-4 table.
#[derive(Clone, Debug)]
pub struct OffsetPageTable {
    pub physical_memory_offset: u64,
    pub tables: Vec<PageTable>,
}

/// The entry at position `i` of table `t`.
pub open spec fn entry_at(m: OffsetPageTable, t: int, i: int) -> PageTableEntry {
    m.tables@[t].entries@[i]
}

/// `t` names a table of the arena.
pub open spec fn valid_table(m: OffsetPageTable, t: int) -> bool {
    0 <= t < m.tables@.len()
}

/// Well-formedness of the hierarchy:
/// every table has 512 entries and sits on a distinct, aligned frame;
/// every next-table link leads to a strictly later arena slot whose recorded
/// address matches; no two links share a target, and frame entries are
/// aligned and within the physical address space.
pub open spec fn table_wf(m: OffsetPageTable) -> bool {
    &&& 1 <= m.tables@.len()
    &&& forall|t: int| valid_table(m, t) ==> (#[trigger] m.tables@[t]).entries@.len() == 512
    &&& forall|t: int|
        valid_table(m, t) ==> (#[trigger] m.tables@[t]).addr % 4096 == 0 && m.tables@[t].addr
            < MAX_PHYS_ADDR
    &&& forall|t: int, u: int|
        0 <= t < u < m.tables@.len() ==> (#[trigger] m.tables@[t]).addr != (
        #[trigger] m.tables@[u]).addr
    &&& forall|t: int, i: int|
        valid_table(m, t) && 0 <= i < 512 && (#[trigger] entry_at(m, t, i)) is Table ==> {
            &&& t < entry_at(m, t, i)->next_index
            &&& entry_at(m, t, i)->next_index < m.tables@.len()
            &&& m.tables@[entry_at(m, t, i)->next_index as int].addr == entry_at(m, t, i)->next_addr
        }
    &&& forall|t: int, i: int, u: int, j: int|
        valid_table(m, t) && 0 <= i < 512 && valid_table(m, u) && 0 <= j < 512 && !(t == u && i
            == j) && (#[trigger] entry_at(m, t, i)) is Table && (#[trigger] entry_at(
            m,
            u,
            j,
        )) is Table ==> entry_at(m, t, i)->next_index != entry_at(m, u, j)->next_index
    &&& forall|t: int, i: int|
        valid_table(m, t) && 0 <= i < 512 && (#[trigger] entry_at(m, t, i)) is Frame ==> entry_at(
            m,
            t,
            i,
        )->frame_addr % 4096 == 0 && entry_at(m, t, i)->frame_addr < MAX_PHYS_ADDR
}

/// What the walk of `va` resolves to: decompose the address into its four
/// table indices, follow next-table links from the level-4 table down, and
/// read the level-1 entry; any unused entry, any huge page on the way and a
/// non-present leaf all leave the address unmapped.
#[verifier::opaque]
pub open spec fn translate_spec(m: OffsetPageTable, va: u64) -> Option<u64> {
    let e4 = entry_at(m, 0, p4_index_spec(va) as int);
    if !(e4 is Table) {
        None
    } else {
        let e3 = entry_at(m, e4->next_index as int, p3_index_spec(va) as int);
        if !(e3 is Table) {
            None
        } else {
            let e2 = entry_at(m, e3->next_index as int, p2_index_spec(va) as int);
            if !(e2 is Table) {
                None
            } else {
                let e1 = entry_at(m, e2->next_index as int, p1_index_spec(va) as int);
                match e1 {
                    PageTableEntry::Frame { frame_addr, flags } => if flags.present {
                        Some((frame_addr + page_offset_spec(va)) as u64)
                    } else {
                        None
                    },
                    _ => None,
                }
            }
        }
    }
}

/// A just-installed mapping whose translation-lookaside cache entry must
/// still be invalidated before the mapping is relied on.
#[must_use]
pub struct MapperFlush {
    pub page: u64,
}

impl MapperFlush {
    /// Invalidate the cached translation for the mapped page. On the real
    /// machine this is the required `invlpg` step; omitting it leaves the
    /// old translation visible.
    pub fn flush(self) {
    }
}

/// Why a `map_to` call failed; reported, never a crash.
#[derive(Clone, Copy, Debug, PartialEq, Eq, Structural)]
pub enum MapToError {
    /// The frame allocator ran out of usable frames for an intermediate
    /// table.
    FrameAllocationFailed,
    /// An intermediate level is occupied by a huge-page entry that cannot be
    /// subdivided.
    ParentEntryHugePage,
    /// The level-1 entry for the page is already in use.
    PageAlreadyMapped,
}

/// The level-4 entry on the walk of `page`.
pub open spec fn path_entry_4(m: OffsetPageTable, page: u64) -> PageTableEntry {
    entry_at(m, 0, p4_index_spec(page) as int)
}

/// The level-3 entry on the walk of `page` (meaningful when the level-4
/// entry links a table).
pub open spec fn path_entry_3(m: OffsetPageTable, page: u64) -> PageTableEntry {
    entry_at(m, path_entry_4(m, page)->next_index as int, p3_index_spec(page) as int)
}

/// The level-2 entry on the walk of `page`.
pub open spec fn path_entry_2(m: OffsetPageTable, page: u64) -> PageTableEntry {
    entry_at(m, path_entry_3(m, page)->next_index as int, p2_index_spec(page) as int)
}

/// The level-1 entry on the walk of `page`.
pub open spec fn path_entry_1(m: OffsetPageTable, page: u64) -> PageTableEntry {
    entry_at(m, path_entry_2(m, page)->next_index as int, p1_index_spec(page) as int)
}

/// A huge-page entry blocks the walk of `page` at some intermediate level.
pub open spec fn huge_conflict(m: OffsetPageTable, page: u64) -> bool {
    if !(path_entry_4(m, page) is Table) {
        path_entry_4(m, page) is Frame
    } else if !(path_entry_3(m, page) is Table) {
        path_entry_3(m, page) is Frame
    } else if !(path_entry_2(m, page) is Table) {
        path_entry_2(m, page) is Frame
    } else {
        false
    }
}

/// How many intermediate tables the walk of `page` still lacks.
pub open spec fn missing_tables(m: OffsetPageTable, page: u64) -> int {
    if !(path_entry_4(m, page) is Table) {
        3
    } else if !(path_entry_3(m, page) is Table) {
        2
    } else if !(path_entry_2(m, page) is Table) {
        1
    } else {
        0
    }
}

/// The level-1 entry for `page` is already occupied.
pub open spec fn already_mapped(m: OffsetPageTable, page: u64) -> bool {
    missing_tables(m, page) == 0 && !huge_conflict(m, page) && !(path_entry_1(m, page) is Unused)
}

/// When `map_to` succeeds: no huge page blocks the walk, the target entry is
/// free, and the allocator still holds a frame for every missing table.
pub open spec fn map_to_ok(m: OffsetPageTable, a: BootInfoFrameAllocator, page: u64) -> bool {
    &&& !huge_conflict(m, page)
    &&& !already_mapped(m, page)
    &&& (missing_tables(m, page) == 0 || missing_tables(m, page) <= remaining_frames(a))
}

/// The frames the allocator can still hand out are not occupied by page
/// tables: the boot guarantee that usable frames are really unused.
pub open spec fn allocator_disjoint(m: OffsetPageTable, a: BootInfoFrameAllocator) -> bool {
    forall|k: int, t: int|
        a.next <= k < usable_frames(a.memory_map@).len() && valid_table(m, t)
            ==> #[trigger] usable_frames(a.memory_map@)[k] != (#[trigger] m.tables@[t]).addr
}

impl OffsetPageTable {
    /// A hierarchy holding only the boot level-4 table, all entries unused.
    pub fn new(level_4_table_frame: u64, physical_memory_offset: u64) -> (r: OffsetPageTable)
        requires
            level_4_table_frame % 4096 == 0,
            level_4_table_frame < MAX_PHYS_ADDR,
        ensures
            table_wf(r),
            r.physical_memory_offset == physical_memory_offset,
            r.tables@.len() == 1,
            r.tables@[0].addr == level_4_table_frame,
            forall|t: int, i: int|
                valid_table(r, t) && 0 <= i < 512 ==> (#[trigger] entry_at(r, t, i)) is Unused,
            forall|va: u64| #[trigger] translate_spec(r, va) is None,
    {
        let root = PageTable { addr: level_4_table_frame, entries: empty_entries() };
        let r = OffsetPageTable { physical_memory_offset, tables: vec![root] };
        proof {
            assert(forall|t: int, i: int|
                valid_table(r, t) && 0 <= i < 512 ==> (#[trigger] entry_at(r, t, i)) is Unused);
            assert(forall|va: u64| #[trigger] translate_spec(r, va) is None) by {
                reveal(translate_spec);
                assert(forall|va: u64| p4_index_spec(va) < 512) by (bit_vector);
            }
        }
        r
    }

    /// Resolve a virtual address to the physical address it maps to, or
    /// report it unmapped. Reads the translated low 48 bits of the address.
    pub fn translate_addr(&self, va: u64) -> (r: Option<u64>)
        requires
            table_wf(*self),
        ensures
            r == translate_spec(*self, va),
    {
        proof {
            reveal(translate_spec);
        }
        let i4 = p4_index(va);
        let e4 = self.tables[0].entries[i4];
        let t3 = match e4 {
            PageTableEntry::Table { next_index, .. } => next_index,
            _ => { return None; },
        };
        let i3 = p3_index(va);
        let e3 = self.tables[t3].entries[i3];
        let t2 = match e3 {
            PageTableEntry::Table { next_index, .. } => next_index,
            _ => { return None; },
        };
        let i2 = p2_index(va);
        let e2 = self.tables[t2].entries[i2];
        let t1 = match e2 {
            PageTableEntry::Table { next_index, .. } => next_index,
            _ => { return None; },
        };
        let i1 = p1_index(va);
        let e1 = self.tables[t1].entries[i1];
        match e1 {
            PageTableEntry::Frame { frame_addr, flags } => {
                if flags.present {
                    let off = page_offset(va);
                    Some(frame_addr + off)
                } else {
                    None
                }
            },
            _ => None,
        }
    }

    /// Follow the entry at `(t, index)` to the next-level table, creating
    /// and linking a zeroed table from a freshly allocated frame when the
    /// entry is unused; a huge-page entry or an exhausted allocator is
    /// reported, never a crash.
    fn next_table_or_create(
        &mut self,
        t: usize,
        index: usize,
        frame_allocator: &mut BootInfoFrameAllocator,
    ) -> (r: Result<usize, MapToError>)
        requires
            table_wf(*old(self)),
            wf_memory_map(old(frame_allocator).memory_map@),
            allocator_disjoint(*old(self), *old(frame_allocator)),
            t < old(self).tables@.len(),
            index < 512,
            old(frame_allocator).next < u64::MAX,
        ensures
            table_wf(*final(self)),
            final(self).physical_memory_offset == old(self).physical_memory_offset,
            final(frame_allocator).memory_map@ == old(frame_allocator).memory_map@,
            allocator_disjoint(*final(self), *final(frame_allocator)),
            entry_at(*old(self), t as int, index as int) is Table ==> *final(self) == *old(self)
                && *final(frame_allocator) == *old(frame_allocator) && r == Ok::<
                usize,
                MapToError,
            >(entry_at(*old(self), t as int, index as int)->next_index),
            entry_at(*old(self), t as int, index as int) is Frame ==> *final(self) == *old(self)
                && *final(frame_allocator) == *old(frame_allocator) && r == Err::<
                usize,
                MapToError,
            >(MapToError::ParentEntryHugePage),
            entry_at(*old(self), t as int, index as int) is Unused && remaining_frames(
                *old(frame_allocator),
            ) <= 0 ==> *final(self) == *old(self) && final(frame_allocator).next == old(
                frame_allocator,
            ).next + 1 && r == Err::<usize, MapToError>(MapToError::FrameAllocationFailed),
            entry_at(*old(self), t as int, index as int) is Unused && remaining_frames(
                *old(frame_allocator),
            ) > 0 ==> {
                &&& r == Ok::<usize, MapToError>(old(self).tables@.len() as usize)
                &&& final(frame_allocator).next == old(frame_allocator).next + 1
                &&& final(self).tables@.len() == old(self).tables@.len() + 1
                &&& forall|t2: int, i2: int|
                    valid_table(*old(self), t2) && 0 <= i2 < 512 && !(t2 == t as int && i2
                        == index as int) ==> entry_at(*final(self), t2, i2) == entry_at(
                        *old(self),
                        t2,
                        i2,
                    )
                &&& forall|t2: int|
                    valid_table(*old(self), t2) ==> (#[trigger] final(self).tables@[t2]).addr
                        == old(self).tables@[t2].addr
                &&& entry_at(*final(self), t as int, index as int) is Table
                &&& entry_at(*final(self), t as int, index as int)->next_index == old(
                    self,
                ).tables@.len()
                &&& forall|i: int|
                    0 <= i < 512 ==> (#[trigger] entry_at(
                        *final(self),
                        old(self).tables@.len() as int,
                        i,
                    )) is Unused
            },
    {
        let ghost m0 = *self;
        let ghost a0 = *frame_allocator;
        let entry = self.tables[t].entries[index];
        match entry {
            PageTableEntry::Table { next_index, .. } => Ok(next_index),
            PageTableEntry::Frame { .. } => Err(MapToError::ParentEntryHugePage),
            PageTableEntry::Unused => {
                match frame_allocator.allocate_frame() {
                    None => Err(MapToError::FrameAllocationFailed),
                    Some(frame_addr) => {
                        proof {
                            assert(a0.next < usable_frames(a0.memory_map@).len());
                            lemma_usable_frames_valid(a0.memory_map@, a0.next as int);
                        }
                        let new_index = self.tables.len();
                        let node = PageTable { addr: frame_addr, entries: empty_entries() };
                        self.tables.push(node);
                        self.tables[t].entries[index] = PageTableEntry::Table {
                            next_addr: frame_addr,
                            next_index: new_index,
                        };
                        proof {
                            let m2 = *self;
                            let a1 = *frame_allocator;
                            let nl = m0.tables@.len() as int;
                            assert(m2.tables@.len() == nl + 1);
                            assert(forall|t2: int|
                                valid_table(m0, t2) && t2 != t as int ==> m2.tables@[t2]
                                    == m0.tables@[t2]);
                            assert(forall|t2: int|
                                valid_table(m0, t2) ==> (#[trigger] m2.tables@[t2]).addr
                                    == m0.tables@[t2].addr);
                            assert(m2.tables@[t as int].entries@ == m0.tables@[t as
                                int].entries@.update(
                                index as int,
                                PageTableEntry::Table {
                                    next_addr: frame_addr,
                                    next_index: new_index,
                                },
                            ));
                            assert(forall|t2: int, i2: int|
                                valid_table(m0, t2) && 0 <= i2 < 512 && !(t2 == t as int && i2
                                    == index as int) ==> entry_at(m2, t2, i2) == entry_at(
                                    m0,
                                    t2,
                                    i2,
                                ));
                            assert(forall|i: int|
                                0 <= i < 512 ==> (#[trigger] entry_at(m2, nl, i)) is Unused);
                            assert(entry_at(m2, t as int, index as int) is Table);
                            // well-formedness of the grown hierarchy
                            assert forall|t2: int| valid_table(m2, t2) implies (
                            #[trigger] m2.tables@[t2]).entries@.len() == 512 && m2.tables@[t2].addr
                                % 4096 == 0 && m2.tables@[t2].addr < MAX_PHYS_ADDR by {
                                if t2 < nl {
                                    assert(m2.tables@[t2].addr == m0.tables@[t2].addr);
                                    if t2 != t as int {
                                        assert(m2.tables@[t2] == m0.tables@[t2]);
                                    }
                                } else {
                                    assert(m2.tables@[t2].addr == frame_addr);
                                }
                            }
                            assert forall|t2: int, u2: int| 0 <= t2 < u2 < m2.tables@.len() implies
                                (#[trigger] m2.tables@[t2]).addr != (
                            #[trigger] m2.tables@[u2]).addr by {
                                if u2 == nl {
                                    assert(frame_addr == usable_frames(a0.memory_map@)[a0.next
                                        as int]);
                                    assert(usable_frames(a0.memory_map@)[a0.next as int]
                                        != m0.tables@[t2].addr);
                                } else {
                                    assert(m2.tables@[t2].addr == m0.tables@[t2].addr);
                                    assert(m2.tables@[u2].addr == m0.tables@[u2].addr);
                                }
                            }
                            assert forall|t2: int, i2: int|
                                valid_table(m2, t2) && 0 <= i2 < 512 && (#[trigger] entry_at(
                                    m2,
                                    t2,
                                    i2,
                                )) is Table implies {
                                &&& t2 < entry_at(m2, t2, i2)->next_index
                                &&& entry_at(m2, t2, i2)->next_index < m2.tables@.len()
                                &&& m2.tables@[entry_at(m2, t2, i2)->next_index as int].addr
                                    == entry_at(m2, t2, i2)->next_addr
                            } by {
                                if t2 == t as int && i2 == index as int {
                                    assert(m2.tables@[nl].addr == frame_addr);
                                } else if t2 < nl {
                                    assert(entry_at(m2, t2, i2) == entry_at(m0, t2, i2));
                                    assert(m2.tables@[entry_at(m0, t2, i2)->next_index as int].addr
                                        == m0.tables@[entry_at(m0, t2, i2)->next_index as
                                        int].addr);
                                } else {
                                    assert(entry_at(m2, t2, i2) is Unused);
                                }
                            }
                            assert forall|t2: int, i2: int, u2: int, j2: int|
                                valid_table(m2, t2) && 0 <= i2 < 512 && valid_table(m2, u2) && 0
                                    <= j2 < 512 && !(t2 == u2 && i2 == j2) && (#[trigger] entry_at(
                                    m2,
                                    t2,
                                    i2,
                                )) is Table && (#[trigger] entry_at(m2, u2, j2)) is Table implies
                                entry_at(m2, t2, i2)->next_index != entry_at(
                                m2,
                                u2,
                                j2,
                            )->next_index by {
                                if t2 == nl || u2 == nl {
                                    assert(false);
                                } else if t2 == t as int && i2 == index as int {
                                    assert(entry_at(m2, u2, j2) == entry_at(m0, u2, j2));
                                    assert(entry_at(m0, u2, j2)->next_index < nl);
                                } else if u2 == t as int && j2 == index as int {
                                    assert(entry_at(m2, t2, i2) == entry_at(m0, t2, i2));
                                    assert(entry_at(m0, t2, i2)->next_index < nl);
                                } else {
                                    assert(entry_at(m2, t2, i2) == entry_at(m0, t2, i2));
                                    assert(entry_at(m2, u2, j2) == entry_at(m0, u2, j2));
                                }
                            }
                            assert forall|t2: int, i2: int|
                                valid_table(m2, t2) && 0 <= i2 < 512 && (#[trigger] entry_at(
                                    m2,
                                    t2,
                                    i2,
                                )) is Frame implies entry_at(m2, t2, i2)->frame_addr % 4096 == 0
                                && entry_at(m2, t2, i2)->frame_addr < MAX_PHYS_ADDR by {
                                if t2 < nl && !(t2 == t as int && i2 == index as int) {
                                    assert(entry_at(m2, t2, i2) == entry_at(m0, t2, i2));
                                }
                            }
                            assert(table_wf(m2));
                            // usable frames still to come stay clear of every table
                            assert forall|k: int, t2: int|
                                a1.next <= k < usable_frames(a1.memory_map@).len() && valid_table(
                                    m2,
                                    t2,
                                ) implies #[trigger] usable_frames(a1.memory_map@)[k] != (
                            #[trigger] m2.tables@[t2]).addr by {
                                assert(a1.memory_map@ == a0.memory_map@);
                                if t2 < nl {
                                    assert(m2.tables@[t2].addr == m0.tables@[t2].addr);
                                    assert(usable_frames(a0.memory_map@)[k]
                                        != m0.tables@[t2].addr);
                                } else {
                                    lemma_usable_frames_distinct(
                                        a0.memory_map@,
                                        k,
                                        a0.next as int,
                                    );
                                }
                            }
                        }
                        Ok(new_index)
                    },
                }
            },
        }
    }

    /// Install a mapping from `page` (a 4 KiB-aligned, 48-bit virtual page
    /// base) to the physical frame at `frame` with the given flags,
    /// allocating and zero-initializing any missing intermediate tables.
    /// Succeeds exactly when no huge page blocks the walk, the page is not
    /// already mapped, and the allocator holds enough frames; on success the
    /// whole page translates to the frame (when the present flag is set) and
    /// no other address changes its translation; on failure nothing
    /// translates differently. The returned flush must still be performed
    /// before the mapping is relied on.
    #[verifier::rlimit(100)]
    #[verifier::spinoff_prover]
    pub fn map_to(
        &mut self,
        page: u64,
        frame: u64,
        flags: PageTableFlags,
        frame_allocator: &mut BootInfoFrameAllocator,
    ) -> (r: Result<MapperFlush, MapToError>)
        requires
            table_wf(*old(self)),
            wf_memory_map(old(frame_allocator).memory_map@),
            allocator_disjoint(*old(self), *old(frame_allocator)),
            page & 0xffff_0000_0000_0fff == 0,
            frame % 4096 == 0,
            frame < MAX_PHYS_ADDR,
            !flags.huge_page,
            old(frame_allocator).next <= u64::MAX - 4,
        ensures
            table_wf(*final(self)),
            final(self).physical_memory_offset == old(self).physical_memory_offset,
            final(frame_allocator).memory_map@ == old(frame_allocator).memory_map@,
            final(frame_allocator).next >= old(frame_allocator).next,
            allocator_disjoint(*final(self), *final(frame_allocator)),
            r is Ok <==> map_to_ok(*old(self), *old(frame_allocator), page),
            r is Ok ==> r == Ok::<MapperFlush, MapToError>(MapperFlush { page }),
            r is Ok ==> final(frame_allocator).next == old(frame_allocator).next + missing_tables(
                *old(self),
                page,
            ),
            r is Ok && flags.present ==> forall|va: u64|
                page_base_spec(va) == page ==> #[trigger] translate_spec(*final(self), va) == Some(
                    (frame + page_offset_spec(va)) as u64,
                ),
            r is Ok && !flags.present ==> forall|va: u64|
                page_base_spec(va) == page ==> #[trigger] translate_spec(*final(self), va) is None,
            r is Ok ==> forall|va: u64|
                page_base_spec(va) != page ==> #[trigger] translate_spec(*final(self), va)
                    == translate_spec(*old(self), va),
            r is Err ==> forall|va: u64| #[trigger]
                translate_spec(*final(self), va) == translate_spec(*old(self), va),
            r == Err::<MapperFlush, MapToError>(MapToError::ParentEntryHugePage) <==> huge_conflict(
                *old(self),
                page,
            ),
            r == Err::<MapperFlush, MapToError>(MapToError::PageAlreadyMapped) <==> already_mapped(
                *old(self),
                page,
            ),
            r == Err::<MapperFlush, MapToError>(MapToError::FrameAllocationFailed) <==> (
            !huge_conflict(*old(self), page) && !already_mapped(*old(self), page) && missing_tables(
                *old(self),
                page,
            ) > 0 && missing_tables(*old(self), page) > remaining_frames(*old(frame_allocator))),
    {
        let ghost m0 = *self;
        let ghost a0 = *frame_allocator;
        proof {
            crate::addr::lemma_page_aligned_48(page);
        }
        let i4 = p4_index(page);
        let i3 = p3_index(page);
        let i2 = p2_index(page);
        let i1 = p1_index(page);
        let ghost c1 = path_entry_4(m0, page) is Unused;
        let t3x = match self.next_table_or_create(0, i4, frame_allocator) {
            Ok(t) => t,
            Err(e) => {
                return Err(e);
            },
        };
        let ghost m1 = *self;
        let ghost a1 = *frame_allocator;
        proof {
            if c1 {
                lemma_translate_preserved_fresh_link(m0, m1, 0, i4 as int);
            }
            assert(forall|va: u64| #[trigger]
                translate_spec(m1, va) == translate_spec(m0, va));
            assert((t3x as int) < m1.tables@.len());
            assert(0 < t3x as int);
            assert(c1 ==> forall|ii: int|
                0 <= ii < 512 ==> (#[trigger] entry_at(m1, t3x as int, ii)) is Unused);
            assert(!c1 ==> m1 == m0 && a1 == a0 && entry_at(m1, t3x as int, i3 as int)
                == path_entry_3(m0, page));
            assert(a1.next <= a0.next + 1);
        }
        let ghost c2 = entry_at(m1, t3x as int, i3 as int) is Unused;
        let t2x = match self.next_table_or_create(t3x, i3, frame_allocator) {
            Ok(t) => t,
            Err(e) => {
                proof {
                    // a huge page here: nothing was created before it
                    assert(entry_at(m1, t3x as int, i3 as int) is Frame ==> !c1);
                    if entry_at(m1, t3x as int, i3 as int) is Frame {
                        assert(huge_conflict(m0, page));
                    } else {
                        assert(c2 && remaining_frames(a1) <= 0);
                        if c1 {
                            assert(missing_tables(m0, page) == 3);
                            assert(remaining_frames(a0) <= 1);
                        } else {
                            assert(missing_tables(m0, page) == 2);
                            assert(remaining_frames(a0) <= 0);
                        }
                        assert(!huge_conflict(m0, page));
                        assert(missing_tables(m0, page) > remaining_frames(a0));
                    }
                    assert(!already_mapped(m0, page) || entry_at(
                        m1,
                        t3x as int,
                        i3 as int,
                    ) is Frame);
                }
                return Err(e);
            },
        };
        let ghost m2s = *self;
        let ghost a2 = *frame_allocator;
        proof {
            if c2 {
                lemma_translate_preserved_fresh_link(m1, m2s, t3x as int, i3 as int);
            }
            assert(forall|va: u64| #[trigger]
                translate_spec(m2s, va) == translate_spec(m1, va));
            assert((t2x as int) < m2s.tables@.len());
            assert(t3x < t2x);
            assert(c1 ==> c2);
            assert(c2 ==> forall|ii: int|
                0 <= ii < 512 ==> (#[trigger] entry_at(m2s, t2x as int, ii)) is Unused);
            assert(!c2 ==> m2s == m1 && a2 == a1 && entry_at(m2s, t2x as int, i2 as int)
                == path_entry_2(m0, page));
            assert(a2.next <= a0.next + 2);
            // the level-4 link survives the second step
            assert(entry_at(m2s, 0, i4 as int) is Table && entry_at(m2s, 0, i4 as int)->next_index
                == t3x);
        }
        let ghost c3 = entry_at(m2s, t2x as int, i2 as int) is Unused;
        let t1x = match self.next_table_or_create(t2x, i2, frame_allocator) {
            Ok(t) => t,
            Err(e) => {
                proof {
                    assert(entry_at(m2s, t2x as int, i2 as int) is Frame ==> !c2 && !c1);
                    if entry_at(m2s, t2x as int, i2 as int) is Frame {
                        assert(huge_conflict(m0, page));
                    } else {
                        assert(c3 && remaining_frames(a2) <= 0);
                        if c1 {
                            assert(missing_tables(m0, page) == 3);
                            assert(remaining_frames(a0) <= 2);
                        } else if c2 {
                            assert(missing_tables(m0, page) == 2);
                            assert(remaining_frames(a0) <= 1);
                        } else {
                            assert(missing_tables(m0, page) == 1);
                            assert(remaining_frames(a0) <= 0);
                        }
                        assert(!huge_conflict(m0, page));
                        assert(missing_tables(m0, page) > remaining_frames(a0));
                    }
                    assert(!already_mapped(m0, page) || entry_at(
                        m2s,
                        t2x as int,
                        i2 as int,
                    ) is Frame);
                }
                return Err(e);
            },
        };
        let ghost m3 = *self;
        let ghost a3 = *frame_allocator;
        proof {
            if c3 {
                lemma_translate_preserved_fresh_link(m2s, m3, t2x as int, i2 as int);
            }
            assert(forall|va: u64| #[trigger]
                translate_spec(m3, va) == translate_spec(m0, va));
            assert((t1x as int) < m3.tables@.len());
            assert(t2x < t1x);
            assert(c2 ==> c3);
            assert(c3 ==> forall|ii: int|
                0 <= ii < 512 ==> (#[trigger] entry_at(m3, t1x as int, ii)) is Unused);
            assert(!c3 ==> m3 == m2s && a3 == a2 && entry_at(m3, t1x as int, i1 as int)
                == path_entry_1(m0, page));
            assert(a3.next <= a0.next + 3);
            // the path built so far stands in `m3`
            assert(entry_at(m3, 0, i4 as int) is Table && entry_at(m3, 0, i4 as int)->next_index
                == t3x);
            assert(entry_at(m3, t3x as int, i3 as int) is Table && entry_at(
                m3,
                t3x as int,
                i3 as int,
            )->next_index == t2x);
            assert(entry_at(m3, t2x as int, i2 as int) is Table && entry_at(
                m3,
                t2x as int,
                i2 as int,
            )->next_index == t1x);
            assert(path_entry_4(m3, page) is Table && path_entry_4(m3, page)->next_index == t3x);
            assert(path_entry_3(m3, page) is Table && path_entry_3(m3, page)->next_index == t2x);
            assert(path_entry_2(m3, page) is Table && path_entry_2(m3, page)->next_index == t1x);
        }
        let entry = self.tables[t1x].entries[i1];
        match entry {
            PageTableEntry::Unused => {
                self.tables[t1x].entries[i1] = PageTableEntry::Frame { frame_addr: frame, flags };
                proof {
                    let m4 = *self;
                    assert(m4.tables@[t1x as int].entries@ == m3.tables@[t1x as
                        int].entries@.update(
                        i1 as int,
                        PageTableEntry::Frame { frame_addr: frame, flags },
                    ));
                    assert(forall|t2: int|
                        valid_table(m3, t2) && t2 != t1x as int ==> m4.tables@[t2]
                            == m3.tables@[t2]);
                    lemma_map_success_post(
                        m0,
                        m3,
                        a3,
                        m4,
                        page,
                        frame,
                        flags,
                        t3x as int,
                        t2x as int,
                        t1x as int,
                    );
                    // the walk consumed one frame per missing table
                    if c1 {
                        assert(missing_tables(m0, page) == 3);
                        assert(a3.next == a0.next + 3);
                        assert(remaining_frames(a0) >= 3);
                    } else if c2 {
                        assert(missing_tables(m0, page) == 2);
                        assert(a3.next == a0.next + 2);
                        assert(remaining_frames(a0) >= 2);
                    } else if c3 {
                        assert(missing_tables(m0, page) == 1);
                        assert(a3.next == a0.next + 1);
                        assert(remaining_frames(a0) >= 1);
                    } else {
                        assert(missing_tables(m0, page) == 0);
                        assert(a3 == a0);
                    }
                    assert(!huge_conflict(m0, page));
                    assert(!already_mapped(m0, page)) by {
                        if missing_tables(m0, page) == 0 {
                            assert(!c1 && !c2 && !c3);
                            assert(path_entry_1(m0, page) is Unused);
                        }
                    }
                    assert(map_to_ok(m0, a0, page));
                }
                Ok(MapperFlush { page })
            },
            _ => {
                proof {
                    assert(!c3);
                    assert(!c2);
                    assert(!c1);
                    assert(m3 == m0 && a3 == a0);
                    assert(entry_at(m0, t1x as int, i1 as int) == path_entry_1(m0, page));
                    assert(missing_tables(m0, page) == 0);
                    assert(!huge_conflict(m0, page));
                    assert(already_mapped(m0, page));
                }
                Err(MapToError::PageAlreadyMapped)
            },
        }
    }
}

/// Linking one fresh, still-empty table into an unused slot changes no
/// translation: every walk that reaches the new link dies in the empty
/// table, and no other walk can reach it.
proof fn lemma_translate_preserved_fresh_link(m1: OffsetPageTable, m2: OffsetPageTable, t: int, i: int)
    requires
        table_wf(m1),
        table_wf(m2),
        0 <= t < m1.tables@.len(),
        0 <= i < 512,
        entry_at(m1, t, i) is Unused,
        m2.tables@.len() == m1.tables@.len() + 1,
        forall|t2: int, i2: int|
            valid_table(m1, t2) && 0 <= i2 < 512 && !(t2 == t && i2 == i) ==> entry_at(m2, t2, i2)
                == entry_at(m1, t2, i2),
        entry_at(m2, t, i) is Table,
        entry_at(m2, t, i)->next_index == m1.tables@.len(),
        forall|ii: int|
            0 <= ii < 512 ==> (#[trigger] entry_at(m2, m1.tables@.len() as int, ii)) is Unused,
    ensures
        forall|va: u64| #[trigger] translate_spec(m2, va) == translate_spec(m1, va),
{
    let fresh = m1.tables@.len() as int;
    assert forall|va: u64| #[trigger] translate_spec(m2, va) == translate_spec(m1, va) by {
        reveal(translate_spec);
        crate::addr::lemma_indices_in_range(va);
        let a = p4_index_spec(va) as int;
        let b = p3_index_spec(va) as int;
        let c = p2_index_spec(va) as int;
        let d = p1_index_spec(va) as int;
        if t == 0 && a == i {
            // walk hits the new link at level 4 and dies in the empty table
            assert(entry_at(m2, 0, a)->next_index == fresh);
            assert(entry_at(m2, fresh, b) is Unused);
            assert(translate_spec(m2, va) is None);
            assert(translate_spec(m1, va) is None);
        } else {
            let e4 = entry_at(m1, 0, a);
            assert(entry_at(m2, 0, a) == e4);
            if e4 is Table {
                let j3 = e4->next_index as int;
                assert(0 < j3 < m1.tables@.len());
                if j3 == t && b == i {
                    assert(entry_at(m2, j3, b)->next_index == fresh);
                    assert(entry_at(m2, fresh, c) is Unused);
                    assert(translate_spec(m2, va) is None);
                    assert(translate_spec(m1, va) is None);
                } else {
                    let e3 = entry_at(m1, j3, b);
                    assert(entry_at(m2, j3, b) == e3);
                    if e3 is Table {
                        let j2 = e3->next_index as int;
                        assert(j3 < j2 < m1.tables@.len());
                        if j2 == t && c == i {
                            assert(entry_at(m2, j2, c)->next_index == fresh);
                            assert(entry_at(m2, fresh, d) is Unused);
                            assert(translate_spec(m2, va) is None);
                            assert(translate_spec(m1, va) is None);
                        } else {
                            let e2 = entry_at(m1, j2, c);
                            assert(entry_at(m2, j2, c) == e2);
                            if e2 is Table {
                                let j1 = e2->next_index as int;
                                assert(j2 < j1 < m1.tables@.len());
                                if j1 == t && d == i {
                                    // a level-1 slot now holds a table link,
                                    // which maps nothing
                                    assert(entry_at(m2, j1, d) is Table);
                                    assert(translate_spec(m2, va) is None);
                                    assert(translate_spec(m1, va) is None);
                                } else {
                                    assert(entry_at(m2, j1, d) == entry_at(m1, j1, d));
                                }
                            }
                        }
                    }
                }
            }
        }
    }
}

/// Writing a frame into the unused level-1 slot of `page` leaves the
/// translation of every address outside that page unchanged: the next-table
/// links form a tree, so no other page's walk reads the written slot.
proof fn lemma_translate_preserved_leaf_write(m1: OffsetPageTable, m2: OffsetPageTable, page: u64, va: u64)
    requires
        table_wf(m1),
        table_wf(m2),
        path_entry_4(m1, page) is Table,
        path_entry_3(m1, page) is Table,
        path_entry_2(m1, page) is Table,
        m2.tables@.len() == m1.tables@.len(),
        forall|t2: int, i2: int|
            valid_table(m1, t2) && 0 <= i2 < 512 && !(t2 == path_entry_2(m1, page)->next_index as int
                && i2 == p1_index_spec(page) as int) ==> entry_at(m2, t2, i2) == entry_at(
                m1,
                t2,
                i2,
            ),
        page_base_spec(va) != page_base_spec(page),
    ensures
        translate_spec(m2, va) == translate_spec(m1, va),
{
    reveal(translate_spec);
    crate::addr::lemma_indices_in_range(va);
    crate::addr::lemma_indices_in_range(page);
    crate::addr::lemma_same_page_same_indices(va, page);
    let cap_a = p4_index_spec(page) as int;
    let cap_b = p3_index_spec(page) as int;
    let cap_c = p2_index_spec(page) as int;
    let cap_d = p1_index_spec(page) as int;
    let t3 = path_entry_4(m1, page)->next_index as int;
    let t2 = path_entry_3(m1, page)->next_index as int;
    let t1 = path_entry_2(m1, page)->next_index as int;
    assert(0 < t3 < m1.tables@.len());
    assert(t3 < t2 < m1.tables@.len());
    assert(t2 < t1 < m1.tables@.len());
    let a = p4_index_spec(va) as int;
    let b = p3_index_spec(va) as int;
    let c = p2_index_spec(va) as int;
    let d = p1_index_spec(va) as int;
    // the written position: (t1, cap_d); t1 is never 0
    assert(entry_at(m2, 0, a) == entry_at(m1, 0, a));
    let e4 = entry_at(m1, 0, a);
    if e4 is Table {
        let j3 = e4->next_index as int;
        assert(0 < j3 < m1.tables@.len());
        if a == cap_a {
            assert(j3 == t3);
        } else {
            // distinct level-4 entries lead to distinct tables
            assert(j3 != t3);
            assert(j3 != t2);
            assert(j3 != t1);
        }
        assert(j3 != t1);
        assert(entry_at(m2, j3, b) == entry_at(m1, j3, b));
        let e3 = entry_at(m1, j3, b);
        if e3 is Table {
            let j2 = e3->next_index as int;
            assert(j3 < j2 < m1.tables@.len());
            if a == cap_a && b == cap_b {
                assert(j2 == t2);
            } else if a == cap_a {
                assert(j2 != t2);
                assert(j2 != t1);
            } else {
                assert(j2 != t2);
                assert(j2 != t1);
            }
            assert(j2 != t1);
            assert(entry_at(m2, j2, c) == entry_at(m1, j2, c));
            let e2 = entry_at(m1, j2, c);
            if e2 is Table {
                let j1 = e2->next_index as int;
                assert(j2 < j1 < m1.tables@.len());
                if a == cap_a && b == cap_b && c == cap_c {
                    assert(j1 == t1);
                    assert(d != cap_d);
                } else if j2 == t2 {
                    assert(c != cap_c);
                    assert(j1 != t1);
                } else {
                    assert(j1 != t1);
                }
                assert(!(j1 == t1 && d == cap_d));
                assert(entry_at(m2, j1, d) == entry_at(m1, j1, d));
            }
        }
    }
}

/// Writing an aligned, in-range frame into an unused slot keeps the
/// hierarchy well-formed: no next-table link changes.
proof fn lemma_wf_after_leaf_write(
    m1: OffsetPageTable,
    m2: OffsetPageTable,
    t: int,
    i: int,
    frame: u64,
    flags: PageTableFlags,
)
    requires
        table_wf(m1),
        0 <= t < m1.tables@.len(),
        0 <= i < 512,
        entry_at(m1, t, i) is Unused,
        m2.tables@.len() == m1.tables@.len(),
        forall|t2: int|
            valid_table(m1, t2) ==> (#[trigger] m2.tables@[t2]).addr == m1.tables@[t2].addr,
        forall|t2: int|
            valid_table(m2, t2) ==> (#[trigger] m2.tables@[t2]).entries@.len() == 512,
        forall|t2: int, i2: int|
            valid_table(m1, t2) && 0 <= i2 < 512 && !(t2 == t && i2 == i) ==> entry_at(m2, t2, i2)
                == entry_at(m1, t2, i2),
        entry_at(m2, t, i) == (PageTableEntry::Frame { frame_addr: frame, flags }),
        frame % 4096 == 0,
        frame < MAX_PHYS_ADDR,
    ensures
        table_wf(m2),
{
    assert forall|t2: int, i2: int|
        valid_table(m2, t2) && 0 <= i2 < 512 && (#[trigger] entry_at(m2, t2, i2)) is Table implies {
        &&& t2 < entry_at(m2, t2, i2)->next_index
        &&& entry_at(m2, t2, i2)->next_index < m2.tables@.len()
        &&& m2.tables@[entry_at(m2, t2, i2)->next_index as int].addr == entry_at(
            m2,
            t2,
            i2,
        )->next_addr
    } by {
        assert(entry_at(m2, t2, i2) == entry_at(m1, t2, i2));
        assert(m2.tables@[entry_at(m1, t2, i2)->next_index as int].addr == m1.tables@[entry_at(
            m1,
            t2,
            i2,
        )->next_index as int].addr);
    }
    assert forall|t2: int, i2: int, u2: int, j2: int|
        valid_table(m2, t2) && 0 <= i2 < 512 && valid_table(m2, u2) && 0 <= j2 < 512 && !(t2 == u2
            && i2 == j2) && (#[trigger] entry_at(m2, t2, i2)) is Table && (#[trigger] entry_at(
            m2,
            u2,
            j2,
        )) is Table implies entry_at(m2, t2, i2)->next_index != entry_at(m2, u2, j2)->next_index by {
        assert(entry_at(m2, t2, i2) == entry_at(m1, t2, i2));
        assert(entry_at(m2, u2, j2) == entry_at(m1, u2, j2));
    }
    assert forall|t2: int, i2: int|
        valid_table(m2, t2) && 0 <= i2 < 512 && (#[trigger] entry_at(m2, t2, i2)) is Frame implies
        entry_at(m2, t2, i2)->frame_addr % 4096 == 0 && entry_at(m2, t2, i2)->frame_addr
            < MAX_PHYS_ADDR by {
        if !(t2 == t && i2 == i) {
            assert(entry_at(m2, t2, i2) == entry_at(m1, t2, i2));
        }
    }
}

/// Everything the leaf write of a successful mapping establishes: the
/// hierarchy stays well-formed and clear of the allocator's frames, the
/// mapped page translates to its frame, and no other address changes its
/// translation relative to the state the walk started from.
#[verifier::rlimit(100)]
proof fn lemma_map_success_post(
    m0: OffsetPageTable,
    m3: OffsetPageTable,
    a3: BootInfoFrameAllocator,
    m4: OffsetPageTable,
    page: u64,
    frame: u64,
    flags: PageTableFlags,
    t3: int,
    t2: int,
    t1: int,
)
    requires
        table_wf(m3),
        page & 0xffff_0000_0000_0fff == 0,
        frame % 4096 == 0,
        frame < MAX_PHYS_ADDR,
        0 < t3 < m3.tables@.len(),
        t3 < t2 < m3.tables@.len(),
        t2 < t1 < m3.tables@.len(),
        path_entry_4(m3, page) is Table && path_entry_4(m3, page)->next_index == t3,
        path_entry_3(m3, page) is Table && path_entry_3(m3, page)->next_index == t2,
        path_entry_2(m3, page) is Table && path_entry_2(m3, page)->next_index == t1,
        entry_at(m3, t1, p1_index_spec(page) as int) is Unused,
        forall|va: u64| #[trigger] translate_spec(m3, va) == translate_spec(m0, va),
        allocator_disjoint(m3, a3),
        m4.tables@.len() == m3.tables@.len(),
        m4.tables@[t1].entries@ == m3.tables@[t1].entries@.update(
            p1_index_spec(page) as int,
            PageTableEntry::Frame { frame_addr: frame, flags },
        ),
        forall|tt: int| valid_table(m3, tt) && tt != t1 ==> m4.tables@[tt] == m3.tables@[tt],
        m4.tables@[t1].addr == m3.tables@[t1].addr,
    ensures
        table_wf(m4),
        allocator_disjoint(m4, a3),
        flags.present ==> forall|va: u64|
            page_base_spec(va) == page ==> #[trigger] translate_spec(m4, va) == Some(
                (frame + page_offset_spec(va)) as u64,
            ),
        !flags.present ==> forall|va: u64|
            page_base_spec(va) == page ==> #[trigger] translate_spec(m4, va) is None,
        forall|va: u64|
            page_base_spec(va) != page ==> #[trigger] translate_spec(m4, va) == translate_spec(
                m0,
                va,
            ),
{
    crate::addr::lemma_page_aligned_48(page);
    crate::addr::lemma_indices_in_range(page);
    let d = p1_index_spec(page) as int;
    assert(forall|t2a: int|
        valid_table(m3, t2a) ==> (#[trigger] m4.tables@[t2a]).addr == m3.tables@[t2a].addr);
    assert forall|t2a: int| valid_table(m4, t2a) implies (
    #[trigger] m4.tables@[t2a]).entries@.len() == 512 by {
        assert(m3.tables@[t2a].entries@.len() == 512);
        if t2a != t1 {
            assert(m4.tables@[t2a] == m3.tables@[t2a]);
        }
    }
    assert forall|t2a: int, i2a: int|
        valid_table(m3, t2a) && 0 <= i2a < 512 && !(t2a == t1 && i2a == d) implies entry_at(
        m4,
        t2a,
        i2a,
    ) == entry_at(m3, t2a, i2a) by {
        if t2a != t1 {
            assert(m4.tables@[t2a] == m3.tables@[t2a]);
        }
    }
    assert(entry_at(m4, t1, d) == (PageTableEntry::Frame { frame_addr: frame, flags }));
    lemma_wf_after_leaf_write(m3, m4, t1, d, frame, flags);
    assert(entry_at(m4, 0, p4_index_spec(page) as int) == entry_at(
        m3,
        0,
        p4_index_spec(page) as int,
    ));
    assert(entry_at(m4, t3, p3_index_spec(page) as int) == entry_at(
        m3,
        t3,
        p3_index_spec(page) as int,
    ));
    assert(entry_at(m4, t2, p2_index_spec(page) as int) == entry_at(
        m3,
        t2,
        p2_index_spec(page) as int,
    ));
    assert(path_entry_4(m4, page) is Table && path_entry_4(m4, page)->next_index == t3);
    assert(path_entry_3(m4, page) is Table && path_entry_3(m4, page)->next_index == t2);
    assert(path_entry_2(m4, page) is Table && path_entry_2(m4, page)->next_index == t1);
    assert(path_entry_1(m4, page) == (PageTableEntry::Frame { frame_addr: frame, flags }));
    assert forall|va: u64| page_base_spec(va) == page implies (flags.present
        ==> #[trigger] translate_spec(m4, va) == Some((frame + page_offset_spec(va)) as u64)) && (
    !flags.present ==> translate_spec(m4, va) is None) by {
        lemma_translate_mapped(m4, page, va);
    }
    assert forall|va: u64| page_base_spec(va) != page implies #[trigger] translate_spec(m4, va)
        == translate_spec(m0, va) by {
        lemma_translate_preserved_leaf_write(m3, m4, page, va);
    }
    assert forall|k: int, t2a: int|
        a3.next <= k < usable_frames(a3.memory_map@).len() && valid_table(m4, t2a) implies
        #[trigger] usable_frames(a3.memory_map@)[k] != (#[trigger] m4.tables@[t2a]).addr by {
        assert(m4.tables@[t2a].addr == m3.tables@[t2a].addr);
    }
}

/// After the walk of `page` ends in a present frame entry, every address of
/// that page translates to the entry's frame plus the in-page offset; with
/// the present bit clear the page stays unmapped.
proof fn lemma_translate_mapped(m: OffsetPageTable, page: u64, va: u64)
    requires
        table_wf(m),
        path_entry_4(m, page) is Table,
        path_entry_3(m, page) is Table,
        path_entry_2(m, page) is Table,
        path_entry_1(m, page) is Frame,
        page_base_spec(va) == page_base_spec(page),
    ensures
        path_entry_1(m, page)->flags.present ==> translate_spec(m, va) == Some(
            (path_entry_1(m, page)->frame_addr + page_offset_spec(va)) as u64,
        ),
        !path_entry_1(m, page)->flags.present ==> translate_spec(m, va) is None,
{
    reveal(translate_spec);
    crate::addr::lemma_same_page_same_indices(va, page);
    crate::addr::lemma_indices_in_range(va);
}

/// A fresh table's 512 unused entries.
fn empty_entries() -> (r: Vec<PageTableEntry>)
    ensures
        r@.len() == 512,
        forall|i: int| 0 <= i < 512 ==> (#[trigger] r@[i]) is Unused,
{
    let mut v: Vec<PageTableEntry> = Vec::new();
    let mut i: usize = 0;
    while i < 512
        invariant
            i <= 512,
            v@.len() == i,
            forall|k: int| 0 <= k < i ==> (#[trigger] v@[k]) is Unused,
        decreases 512 - i,
    {
        v.push(PageTableEntry::Unused);
        i = i + 1;
    }
    v
}

} // verus!
