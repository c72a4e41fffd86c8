//! Boot-time memory map and the physical frame allocator.
//!
//! The boot hand-off supplies an ordered sequence of physical-memory regions,
//! each classified usable or reserved. The allocator hands out the usable
//! 4 KiB frames of that map in address order through a single forward-moving
//! cursor; frames are never returned.

use vstd::prelude::*;

use crate::addr::{page_base_spec, page_offset_spec, MAX_PHYS_ADDR};
use crate::paging::{
    allocator_disjoint, map_to_ok, missing_tables, table_wf, translate_spec, OffsetPageTable,
    PageTableFlags,
};
use vstd::pervasive::unreached;

verus! {

/// Classification of a boot memory region, fixed once at boot.
#[derive(Clone, Copy, Debug, PartialEq, Eq, Structural)]
pub enum MemoryRegionType {
    /// Free for allocation.
    Usable,
    /// Never allocated: firmware, boot structures, mapped I/O.
    Reserved,
}

/// One region of the boot memory map: `[start, end)` with a classification.
#[derive(Clone, Copy, Debug, PartialEq, Eq, Structural)]
pub struct MemoryRegion {
    pub start: u64,
    pub end: u64,
    pub region_type: MemoryRegionType,
}

/// A valid boot memory map: every region starts 4 KiB-aligned, ends no
/// earlier than it starts and within the physical address space, and the
/// regions are ordered and disjoint.
pub open spec fn wf_memory_map(regions: Seq<MemoryRegion>) -> bool {
    &&& forall|i: int|
        0 <= i < regions.len() ==> {
            &&& (#[trigger] regions[i]).start % 4096 == 0
            &&& regions[i].start <= regions[i].end
            &&& regions[i].end <= MAX_PHYS_ADDR
        }
    &&& forall|i: int, j: int|
        0 <= i < j < regions.len() ==> (#[trigger] regions[i]).end <= (#[trigger] regions[j]).start
}

/// How many whole 4 KiB steps fit in a region's address range; a trailing
/// partial frame still counts, its dead tail tolerated.
pub open spec fn region_frame_count(r: MemoryRegion) -> int {
    if r.region_type is Usable {
        (r.end - r.start + 4095) / 4096
    } else {
        0
    }
}

/// The frames a single region contributes: its 4 KiB steps, in order.
pub open spec fn region_frames(r: MemoryRegion) -> Seq<u64> {
    Seq::new(region_frame_count(r) as nat, |k: int| (r.start + 4096 * k) as u64)
}

/// The full ordered sequence of usable frame base addresses of a memory map.
pub open spec fn usable_frames(regions: Seq<MemoryRegion>) -> Seq<u64>
    decreases regions.len(),
{
    if regions.len() == 0 {
        Seq::empty()
    } else {
        region_frames(regions[0]) + usable_frames(regions.drop_first())
    }
}

/// Splitting a memory map splits its frame sequence.
pub proof fn lemma_usable_frames_append(s1: Seq<MemoryRegion>, s2: Seq<MemoryRegion>)
    ensures
        usable_frames(s1 + s2) == usable_frames(s1) + usable_frames(s2),
    decreases s1.len(),
{
    if s1.len() == 0 {
        assert(s1 + s2 =~= s2);
        assert(usable_frames(s1) + usable_frames(s2) =~= usable_frames(s2));
    } else {
        assert((s1 + s2).drop_first() =~= s1.drop_first() + s2);
        lemma_usable_frames_append(s1.drop_first(), s2);
        assert(usable_frames(s1 + s2) =~= usable_frames(s1) + usable_frames(s2));
    }
}

/// Every usable frame of a well-formed map lies within its region, so all
/// frame bases sit below the end of the map's last region and above the
/// start of its first.
proof fn lemma_usable_frames_bounds(regions: Seq<MemoryRegion>, lo: u64)
    requires
        wf_memory_map(regions),
        forall|i: int| 0 <= i < regions.len() ==> lo <= (#[trigger] regions[i]).start,
    ensures
        forall|k: int| 0 <= k < usable_frames(regions).len() ==> lo <= #[trigger] usable_frames(
            regions,
        )[k],
    decreases regions.len(),
{
    if regions.len() > 0 {
        let r0 = regions[0];
        let tail = regions.drop_first();
        assert(wf_memory_map(tail)) by {
            assert(forall|i: int|
                0 <= i < tail.len() ==> #[trigger] tail[i] == regions[i + 1]);
        }
        assert(forall|i: int| 0 <= i < tail.len() ==> lo <= (#[trigger] tail[i]).start) by {
            assert(forall|i: int|
                0 <= i < tail.len() ==> #[trigger] tail[i] == regions[i + 1]);
        }
        lemma_usable_frames_bounds(tail, lo);
        assert(regions[0] == r0);
        assert(forall|k: int|
            0 <= k < region_frames(r0).len() ==> lo <= #[trigger] region_frames(r0)[k]) by {
            assert(lo <= r0.start);
        }
        assert(forall|k: int| 0 <= k < usable_frames(regions).len() ==> lo <= #[trigger] usable_frames(
            regions,
        )[k]) by {
            let c0 = region_frames(r0).len() as int;
            assert(forall|k: int|
                0 <= k < usable_frames(regions).len() ==> usable_frames(regions)[k]
                    == if k < c0 {
                    region_frames(r0)[k]
                } else {
                    usable_frames(tail)[k - c0]
                });
        }
    }
}

/// The usable frames of a well-formed memory map are strictly increasing.
pub proof fn lemma_usable_frames_increasing(regions: Seq<MemoryRegion>, a: int, b: int)
    requires
        wf_memory_map(regions),
        0 <= a < b < usable_frames(regions).len(),
    ensures
        usable_frames(regions)[a] < usable_frames(regions)[b],
    decreases regions.len(),
{
    let r0 = regions[0];
    let tail = regions.drop_first();
    let c0 = region_frames(r0).len() as int;
    assert(wf_memory_map(tail)) by {
        assert(forall|i: int| 0 <= i < tail.len() ==> #[trigger] tail[i] == regions[i + 1]);
    }
    if b < c0 {
        // both inside the first region: bases step by 4096
        assert(r0.start + 4096 * a < r0.start + 4096 * b <= r0.start + 4096 * (c0 - 1));
        assert(4096 * (c0 - 1) < r0.end - r0.start + 4096);
        assert(((r0.start + 4096 * a) as u64) < ((r0.start + 4096 * b) as u64));
    } else if a >= c0 {
        lemma_usable_frames_increasing(tail, a - c0, b - c0);
    } else {
        // a in the first region, b in the rest: the rest lies at or above r0.end
        assert(forall|i: int| 0 <= i < tail.len() ==> r0.end <= (#[trigger] tail[i]).start) by {
            assert(forall|i: int| 0 <= i < tail.len() ==> #[trigger] tail[i] == regions[i + 1]);
        }
        lemma_usable_frames_bounds(tail, r0.end);
        assert(usable_frames(regions)[b] == usable_frames(tail)[b - c0]);
        assert(4096 * a <= 4096 * (c0 - 1));
        assert(4096 * (c0 - 1) < r0.end - r0.start + 4096);
        assert(4096 * (c0 - 1) < r0.end - r0.start + 4096 ==> r0.start + 4096 * (c0 - 1) < r0.end
            + 4096);
        // the last step begins strictly before the region's end
        assert(4096 * c0 >= r0.end - r0.start);
        assert(r0.start + 4096 * a < r0.end);
        assert(usable_frames(regions)[a] == (r0.start + 4096 * a) as u64);
    }
}

/// Every usable frame of a well-formed map is 4 KiB-aligned and lies within
/// the physical address space.
pub proof fn lemma_usable_frames_valid(regions: Seq<MemoryRegion>, k: int)
    requires
        wf_memory_map(regions),
        0 <= k < usable_frames(regions).len(),
    ensures
        usable_frames(regions)[k] % 4096 == 0,
        usable_frames(regions)[k] < MAX_PHYS_ADDR,
    decreases regions.len(),
{
    let r0 = regions[0];
    let tail = regions.drop_first();
    let c0 = region_frames(r0).len() as int;
    assert(wf_memory_map(tail)) by {
        assert(forall|i: int| 0 <= i < tail.len() ==> #[trigger] tail[i] == regions[i + 1]);
    }
    if k < c0 {
        assert(usable_frames(regions)[k] == (r0.start + 4096 * k) as u64);
        assert(4096 * k <= 4096 * (c0 - 1));
        assert(4096 * (c0 - 1) < r0.end - r0.start + 4096);
        assert(4096 * c0 >= r0.end - r0.start);
        assert(r0.start + 4096 * k < r0.end);
        assert((r0.start + 4096 * k) % 4096 == 0) by (nonlinear_arith)
            requires
                r0.start % 4096 == 0,
                k >= 0,
        ;
    } else {
        lemma_usable_frames_valid(tail, k - c0);
    }
}

/// The frame allocator never yields the same physical frame at two distinct
/// cursor positions: the sequence it draws from has no repeats.
pub proof fn lemma_usable_frames_distinct(regions: Seq<MemoryRegion>, a: int, b: int)
    requires
        wf_memory_map(regions),
        0 <= a < usable_frames(regions).len(),
        0 <= b < usable_frames(regions).len(),
        a != b,
    ensures
        usable_frames(regions)[a] != usable_frames(regions)[b],
{
    if a < b {
        lemma_usable_frames_increasing(regions, a, b);
    } else {
        lemma_usable_frames_increasing(regions, b, a);
    }
}

/// A frame allocator that always reports exhaustion.
pub struct EmptyFrameAllocator;

impl EmptyFrameAllocator {
    /// Never has a frame to give.
    pub fn allocate_frame(&mut self) -> (r: Option<u64>)
        ensures
            r is None,
    {
        None
    }
}

/// A frame allocator drawing usable frames from the boot memory map, in
/// address order, through a forward-only cursor.
pub struct BootInfoFrameAllocator {
    pub memory_map: Vec<MemoryRegion>,
    pub next: u64,
}

/// The number of usable frames the allocator can still hand out.
pub open spec fn remaining_frames(a: BootInfoFrameAllocator) -> int {
    usable_frames(a.memory_map@).len() - a.next
}

impl BootInfoFrameAllocator {
    /// Create a frame allocator over the passed memory map.
    ///
    /// The caller guarantees the map is the valid boot hand-off: regions
    /// ordered, disjoint and aligned, and every frame marked usable really
    /// unused.
    pub fn init(memory_map: Vec<MemoryRegion>) -> (r: BootInfoFrameAllocator)
        requires
            wf_memory_map(memory_map@),
        ensures
            r.memory_map == memory_map,
            r.next == 0,
    {
        BootInfoFrameAllocator { memory_map, next: 0 }
    }

    /// The usable frames of one region, counted in whole 4 KiB steps.
    fn region_count(r: &MemoryRegion) -> (c: u64)
        requires
            r.start <= r.end,
            r.end <= MAX_PHYS_ADDR,
        ensures
            c == region_frame_count(*r),
    {
        match r.region_type {
            MemoryRegionType::Usable => (r.end - r.start + 4095) / 4096,
            MemoryRegionType::Reserved => 0,
        }
    }

    /// Return the usable frame at the cursor, then advance the cursor; report
    /// exhaustion (never a crash) once the cursor has passed every usable
    /// frame. The cursor never moves backwards.
    pub fn allocate_frame(&mut self) -> (r: Option<u64>)
        requires
            wf_memory_map(old(self).memory_map@),
            old(self).next < u64::MAX,
        ensures
            final(self).memory_map@ == old(self).memory_map@,
            final(self).next == old(self).next + 1,
            old(self).next < usable_frames(old(self).memory_map@).len() ==> r == Some(
                usable_frames(old(self).memory_map@)[old(self).next as int],
            ),
            old(self).next >= usable_frames(old(self).memory_map@).len() ==> r is None,
    {
        let ghost regions = self.memory_map@;
        let target = self.next;
        self.next = self.next + 1;
        let mut i: usize = 0;
        let mut skipped: u64 = 0;
        while i < self.memory_map.len()
            invariant
                wf_memory_map(regions),
                regions == old(self).memory_map@,
                target == old(self).next,
                self.memory_map@ == regions,
                0 <= i <= regions.len(),
                skipped == usable_frames(regions.take(i as int)).len(),
                skipped <= target,
                self.next == target + 1,
                target < u64::MAX,
            decreases regions.len() - i,
        {
            let r = self.memory_map[i];
            let c = Self::region_count(&r);
            proof {
                assert(regions.take(i as int + 1) =~= regions.take(i as int) + seq![regions[i as int]]);
                lemma_usable_frames_append(regions.take(i as int), seq![regions[i as int]]);
                let s1 = seq![regions[i as int]];
                assert(s1.len() == 1);
                assert(s1[0] == regions[i as int]);
                assert(s1.drop_first() =~= Seq::<MemoryRegion>::empty());
                assert(usable_frames(s1.drop_first()).len() == 0);
                assert(usable_frames(s1) =~= region_frames(regions[i as int]));
                assert(usable_frames(regions.take(i as int + 1)).len() == skipped + c);
            }
            if target - skipped < c {
                let frame = r.start + 4096 * (target - skipped);
                proof {
                    assert(regions =~= regions.take(i as int + 1) + regions.skip(i as int + 1));
                    lemma_usable_frames_append(regions.take(i as int + 1), regions.skip(i as int + 1));
                    assert(usable_frames(regions)[target as int] == usable_frames(
                        regions.take(i as int + 1),
                    )[target as int]);
                    assert(usable_frames(regions.take(i as int + 1))[target as int] == region_frames(
                        regions[i as int],
                    )[target - skipped]);
                    assert(4096 * (target - skipped) < r.end - r.start + 4096);
                }
                return Some(frame);
            }
            skipped = skipped + c;
            i = i + 1;
        }
        proof {
            assert(regions.take(regions.len() as int) =~= regions);
        }
        None
    }
}

/// Initialize an offset page table rooted at the boot level-4 frame.
///
/// The boot collaborator establishes, exactly once, that all physical memory
/// is reachable at `physical_memory_offset`; the level-4 table's frame is the
/// one the CPU's page-table root register holds at that moment.
/// The physical frame holding the VGA text buffer.
pub const VGA_TEXT_BUFFER_FRAME: u64 = 0xb8000;

/// Map the given page to the frame of the VGA text buffer, present and
/// writable, then perform the required translation-cache flush. The caller
/// guarantees the mapping can succeed; a mapping failure here would be the
/// unrecoverable fault on which the kernel stops.
pub fn create_example_mapping(
    page: u64,
    mapper: &mut OffsetPageTable,
    frame_allocator: &mut BootInfoFrameAllocator,
)
    requires
        table_wf(*old(mapper)),
        wf_memory_map(old(frame_allocator).memory_map@),
        allocator_disjoint(*old(mapper), *old(frame_allocator)),
        page & 0xffff_0000_0000_0fff == 0,
        old(frame_allocator).next <= u64::MAX - 4,
        map_to_ok(*old(mapper), *old(frame_allocator), page),
    ensures
        table_wf(*final(mapper)),
        final(mapper).physical_memory_offset == old(mapper).physical_memory_offset,
        final(frame_allocator).memory_map@ == old(frame_allocator).memory_map@,
        final(frame_allocator).next == old(frame_allocator).next + missing_tables(
            *old(mapper),
            page,
        ),
        allocator_disjoint(*final(mapper), *final(frame_allocator)),
        forall|va: u64|
            page_base_spec(va) == page ==> #[trigger] translate_spec(*final(mapper), va) == Some(
                (VGA_TEXT_BUFFER_FRAME + page_offset_spec(va)) as u64,
            ),
        forall|va: u64|
            page_base_spec(va) != page ==> #[trigger] translate_spec(*final(mapper), va)
                == translate_spec(*old(mapper), va),
{
    let frame: u64 = VGA_TEXT_BUFFER_FRAME;
    let flags = PageTableFlags { present: true, writable: true, huge_page: false };
    let map_to_result = mapper.map_to(page, frame, flags, frame_allocator);
    match map_to_result {
        Ok(flush) => flush.flush(),
        Err(_) => unreached(),
    }
}

pub fn init(physical_memory_offset: u64, level_4_table_frame: u64) -> (r: OffsetPageTable)
    requires
        level_4_table_frame % 4096 == 0,
        level_4_table_frame < MAX_PHYS_ADDR,
    ensures
        crate::paging::table_wf(r),
        r.physical_memory_offset == physical_memory_offset,
        r.tables@.len() == 1,
        r.tables@[0].addr == level_4_table_frame,
        forall|va: u64| crate::paging::translate_spec(r, va) is None,
{
    OffsetPageTable::new(level_4_table_frame, physical_memory_offset)
}

} // verus!
