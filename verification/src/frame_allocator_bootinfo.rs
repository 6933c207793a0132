//! Physical frames handed out from the usable regions of the boot memory map.

use vstd::prelude::*;
use crate::addr::{PhysAddr, PhysFrame, align_down, is_page_aligned, PAGE_SIZE, PHYS_ADDR_END};

verus! {

/// What a region of the boot memory map is used for.
#[derive(Clone, Copy, PartialEq, Eq, Structural, Debug)]
pub enum MemoryRegionKind {
    /// Unused conventional memory, free for the kernel.
    Usable,
    /// Memory in use by the boot loader or the kernel image.
    Bootloader,
    /// A firmware memory type of a UEFI system, by its number.
    UnknownUefi(u32),
    /// A firmware memory type of a BIOS system, by its number.
    UnknownBios(u32),
}

/// A physical memory range `[start, end)` reported at boot.
#[derive(Clone, Copy, PartialEq, Eq, Structural, Debug)]
pub struct MemoryRegion {
    /// First address of the region.
    pub start: u64,
    /// First address after the region.
    pub end: u64,
    /// What the region is used for.
    pub kind: MemoryRegionKind,
}

/// How many frames a region yields: one for every 4096-byte step from its
/// start that lies below its end, if the region is usable.
pub open spec fn region_frame_count(region: MemoryRegion) -> nat {
    if region.kind is Usable && region.start < region.end {
        ((region.end - region.start + 4095) / 4096) as nat
    } else {
        0
    }
}

/// The `k`-th frame of a region: the frame that contains the `k`-th step.
pub open spec fn region_frame(region: MemoryRegion, k: int) -> u64 {
    align_down((region.start + 4096 * k) as u64)
}

/// The frames of one region, in address order.
pub open spec fn region_frames(region: MemoryRegion) -> Seq<u64> {
    Seq::new(region_frame_count(region), |k: int| region_frame(region, k))
}

/// The frames of all usable regions, region after region in map order.
pub open spec fn usable_frames(regions: Seq<MemoryRegion>) -> Seq<u64>
    decreases regions.len(),
{
    if regions.len() == 0 {
        Seq::empty()
    } else {
        usable_frames(regions.drop_last()) + region_frames(regions.last())
    }
}

/// A memory map that the allocator can work on: every usable region ends
/// within the physical address space, and the number of frames fits in
/// `usize`.
pub open spec fn memory_map_valid(regions: Seq<MemoryRegion>) -> bool {
    &&& forall|i: int|
        0 <= i < regions.len() && (#[trigger] regions[i]).kind is Usable ==> regions[i].end
            <= PHYS_ADDR_END
    &&& usable_frames(regions).len() <= usize::MAX
}

/// Whether two regions have no frame in common.
pub open spec fn regions_apart(a: MemoryRegion, b: MemoryRegion) -> bool {
    region_frame_count(a) > 0 && region_frame_count(b) > 0 ==> region_frame(
        a,
        region_frame_count(a) - 1,
    ) < region_frame(b, 0) || region_frame(b, region_frame_count(b) - 1) < region_frame(a, 0)
}

/// Whether no two regions of the map have a frame in common.
pub open spec fn regions_disjoint(regions: Seq<MemoryRegion>) -> bool {
    forall|i: int, j: int|
        0 <= i < j < regions.len() ==> regions_apart(#[trigger] regions[i], #[trigger] regions[j])
}

/// Whether every usable region starts and ends on a frame boundary.
pub open spec fn regions_aligned(regions: Seq<MemoryRegion>) -> bool {
    forall|i: int|
        0 <= i < regions.len() && (#[trigger] regions[i]).kind is Usable ==> is_page_aligned(
            regions[i].start,
        ) && is_page_aligned(regions[i].end)
}

/// The frames of the first `n` regions are the first frames of the map.
pub proof fn lemma_usable_frames_prefix(regions: Seq<MemoryRegion>, n: int)
    requires
        0 <= n <= regions.len(),
    ensures
        usable_frames(regions.take(n)).len() <= usable_frames(regions).len(),
        forall|k: int|
            0 <= k < usable_frames(regions.take(n)).len() ==> usable_frames(regions)[k]
                == usable_frames(regions.take(n))[k],
    decreases regions.len() - n,
{
    if n < regions.len() {
        lemma_usable_frames_prefix(regions, n + 1);
        assert(regions.take(n + 1).drop_last() =~= regions.take(n));
    } else {
        assert(regions.take(n) =~= regions);
    }
}

/// Where the `n`-th frame of the map comes from: the index of its region.
pub open spec fn frame_region(regions: Seq<MemoryRegion>, n: int) -> int
    decreases regions.len(),
{
    if regions.len() == 0 {
        0
    } else if n >= usable_frames(regions.drop_last()).len() {
        regions.len() - 1
    } else {
        frame_region(regions.drop_last(), n)
    }
}

/// Where the `n`-th frame of the map comes from: its number within its
/// region.
pub open spec fn frame_step(regions: Seq<MemoryRegion>, n: int) -> int
    decreases regions.len(),
{
    if regions.len() == 0 {
        0
    } else if n >= usable_frames(regions.drop_last()).len() {
        n - usable_frames(regions.drop_last()).len()
    } else {
        frame_step(regions.drop_last(), n)
    }
}

/// The `n`-th frame of the map is a frame of a usable region; later frames
/// come from later regions or from later steps of the same region.
pub proof fn lemma_frame_origin(regions: Seq<MemoryRegion>, n: int)
    requires
        0 <= n < usable_frames(regions).len(),
    ensures
        0 <= frame_region(regions, n) < regions.len(),
        0 <= frame_step(regions, n) < region_frame_count(regions[frame_region(regions, n)]),
        regions[frame_region(regions, n)].kind is Usable,
        usable_frames(regions)[n] == region_frame(
            regions[frame_region(regions, n)],
            frame_step(regions, n),
        ),
    decreases regions.len(),
{
    if n < usable_frames(regions.drop_last()).len() {
        lemma_frame_origin(regions.drop_last(), n);
    }
}

/// Of two frames of the map, the later one comes from a later region, or
/// from the same region at a later step.
pub proof fn lemma_frame_origin_ordered(regions: Seq<MemoryRegion>, n: int, m: int)
    requires
        0 <= n < m < usable_frames(regions).len(),
    ensures
        frame_region(regions, n) < frame_region(regions, m) || (frame_region(regions, n)
            == frame_region(regions, m) && frame_step(regions, n) < frame_step(regions, m)),
    decreases regions.len(),
{
    if m < usable_frames(regions.drop_last()).len() {
        lemma_frame_origin_ordered(regions.drop_last(), n, m);
    } else if n < usable_frames(regions.drop_last()).len() {
        lemma_frame_origin(regions.drop_last(), n);
    }
}

/// The frames of one region ascend by at least a page from step to step.
pub proof fn lemma_region_frames_ascend(region: MemoryRegion, j: int, k: int)
    requires
        0 <= j < k < region_frame_count(region),
        region.end <= PHYS_ADDR_END,
    ensures
        region_frame(region, j) + 4096 * (k - j) == region_frame(region, k),
{
    let a = (region.start + 4096 * j) as u64;
    let b = (region.start + 4096 * k) as u64;
    assert(b == a + 4096 * (k - j));
    assert(b % 4096 == a % 4096) by {
        vstd::arithmetic::div_mod::lemma_mod_multiples_vanish(k - j, a as int, 4096);
    }
}

/// Every frame that the allocator can hand out holds an address of a usable
/// region; where the usable regions start and end on frame boundaries, the
/// whole frame lies within that region.
pub proof fn lemma_frame_in_usable_region(regions: Seq<MemoryRegion>, n: int)
    requires
        memory_map_valid(regions),
        0 <= n < usable_frames(regions).len(),
    ensures
        ({
            let region = regions[frame_region(regions, n)];
            let address = region.start + 4096 * frame_step(regions, n);
            let frame = usable_frames(regions)[n];
            &&& 0 <= frame_region(regions, n) < regions.len()
            &&& region.kind is Usable
            &&& region.start <= address < region.end
            &&& frame <= address < frame + 4096
            &&& is_page_aligned(frame)
            &&& frame < PHYS_ADDR_END
            &&& regions_aligned(regions) ==> region.start <= frame && frame + 4096 <= region.end
        }),
{
    lemma_frame_origin(regions, n);
}

/// Where no two regions share a frame, no frame occurs twice among the
/// frames that the allocator can hand out.
pub proof fn lemma_frames_distinct(regions: Seq<MemoryRegion>, n: int, m: int)
    requires
        memory_map_valid(regions),
        regions_disjoint(regions),
        0 <= n < usable_frames(regions).len(),
        0 <= m < usable_frames(regions).len(),
        n != m,
    ensures
        usable_frames(regions)[n] != usable_frames(regions)[m],
{
    if n < m {
        lemma_frames_distinct_ordered(regions, n, m);
    } else {
        lemma_frames_distinct_ordered(regions, m, n);
    }
}

/// The same for two frames in the order in which they are handed out.
proof fn lemma_frames_distinct_ordered(regions: Seq<MemoryRegion>, n: int, m: int)
    requires
        memory_map_valid(regions),
        regions_disjoint(regions),
        0 <= n < m < usable_frames(regions).len(),
    ensures
        usable_frames(regions)[n] != usable_frames(regions)[m],
{
    lemma_frame_origin(regions, n);
    lemma_frame_origin(regions, m);
    lemma_frame_origin_ordered(regions, n, m);
    let i = frame_region(regions, n);
    let j = frame_region(regions, m);
    let a = regions[i];
    let b = regions[j];
    if i == j {
        lemma_region_frames_ascend(a, frame_step(regions, n), frame_step(regions, m));
    } else {
        assert(regions_apart(a, b));
        if frame_step(regions, n) > 0 {
            lemma_region_frames_ascend(a, 0, frame_step(regions, n));
        }
        if frame_step(regions, n) < region_frame_count(a) - 1 {
            lemma_region_frames_ascend(a, frame_step(regions, n), region_frame_count(a) - 1);
        }
        if frame_step(regions, m) > 0 {
            lemma_region_frames_ascend(b, 0, frame_step(regions, m));
        }
        if frame_step(regions, m) < region_frame_count(b) - 1 {
            lemma_region_frames_ascend(b, frame_step(regions, m), region_frame_count(b) - 1);
        }
    }
}

/// Whether `frame` is one of the frames that the map yields.
pub open spec fn frame_in_map(regions: Seq<MemoryRegion>, frame: u64) -> bool {
    exists|n: int| 0 <= n < usable_frames(regions).len() && #[trigger] usable_frames(regions)[n]
        == frame
}

/// The frames of a region are the page-aligned addresses from its first
/// frame to its last.
proof fn lemma_region_span(region: MemoryRegion, k: int)
    requires
        region.end <= PHYS_ADDR_END,
        0 <= k < region_frame_count(region),
    ensures
        region_frame(region, k) == region_frame(region, 0) + 4096 * k,
        region_frame(region, 0) <= region_frame(region, k) <= region_frame(
            region,
            region_frame_count(region) - 1,
        ),
        is_page_aligned(region_frame(region, k)),
{
    if k > 0 {
        lemma_region_frames_ascend(region, 0, k);
    }
    if k < region_frame_count(region) - 1 {
        lemma_region_frames_ascend(region, k, region_frame_count(region) - 1);
    }
}

/// The first and the last frame of a region, or `None` if it yields no
/// frame.
fn frame_span(region: &MemoryRegion) -> (span: Option<(u64, u64)>)
    requires
        region.kind is Usable ==> region.end <= PHYS_ADDR_END,
    ensures
        match span {
            Some((first, last)) => region_frame_count(*region) > 0 && first == region_frame(
                *region,
                0,
            ) && last == region_frame(*region, region_frame_count(*region) - 1),
            None => region_frame_count(*region) == 0,
        },
{
    let usable: bool = match region.kind {
        MemoryRegionKind::Usable => true,
        _ => false,
    };
    if usable && region.start < region.end {
        let count: u64 = (region.end - region.start + 4095) / PAGE_SIZE;
        let first: u64 = region.start - region.start % PAGE_SIZE;
        let top: u64 = region.start + (count - 1) * PAGE_SIZE;
        Some((first, top - top % PAGE_SIZE))
    } else {
        None
    }
}

/// Whether the allocator can work on the memory map.
pub fn memory_map_is_valid(memory_map: &Vec<MemoryRegion>) -> (valid: bool)
    ensures
        valid == memory_map_valid(memory_map@),
{
    let mut total: usize = 0;
    let mut i: usize = 0;
    while i < memory_map.len()
        invariant
            i <= memory_map.len(),
            total == usable_frames(memory_map@.take(i as int)).len(),
            forall|j: int|
                0 <= j < i && (#[trigger] memory_map@[j]).kind is Usable ==> memory_map@[j].end
                    <= PHYS_ADDR_END,
        decreases memory_map.len() - i,
    {
        let region: MemoryRegion = memory_map[i];
        proof {
            lemma_usable_frames_prefix(memory_map@, i + 1);
            assert(memory_map@.take(i + 1).drop_last() =~= memory_map@.take(i as int));
            assert(memory_map@.take(i + 1).last() == region);
        }
        let usable: bool = match region.kind {
            MemoryRegionKind::Usable => true,
            _ => false,
        };
        if usable {
            if region.end > PHYS_ADDR_END {
                return false;
            }
            if region.start < region.end {
                let count: u64 = (region.end - region.start + 4095) / PAGE_SIZE;
                if count > (usize::MAX - total) as u64 {
                    return false;
                }
                total = total + count as usize;
            }
        }
        i += 1;
    }
    proof {
        assert(memory_map@.take(i as int) =~= memory_map@);
    }
    true
}

/// Whether no two regions of the memory map have a frame in common.
pub fn regions_are_disjoint(memory_map: &Vec<MemoryRegion>) -> (disjoint: bool)
    requires
        memory_map_valid(memory_map@),
    ensures
        disjoint == regions_disjoint(memory_map@),
{
    let mut j: usize = 0;
    while j < memory_map.len()
        invariant
            j <= memory_map.len(),
            memory_map_valid(memory_map@),
            forall|a: int, b: int|
                0 <= a < b < j
                    ==> regions_apart(#[trigger] memory_map@[a], #[trigger] memory_map@[b]),
        decreases memory_map.len() - j,
    {
        match frame_span(&memory_map[j]) {
            None => {},
            Some((first, last)) => {
                let mut i: usize = 0;
                while i < j
                    invariant
                        i <= j < memory_map.len(),
                        memory_map_valid(memory_map@),
                        region_frame_count(memory_map@[j as int]) > 0,
                        first == region_frame(memory_map@[j as int], 0),
                        last == region_frame(
                            memory_map@[j as int],
                            region_frame_count(memory_map@[j as int]) - 1,
                        ),
                        forall|a: int|
                            0 <= a < i ==> regions_apart(
                                #[trigger] memory_map@[a],
                                memory_map@[j as int],
                            ),
                    decreases j - i,
                {
                    match frame_span(&memory_map[i]) {
                        None => {},
                        Some((other_first, other_last)) => {
                            if !(other_last < first || last < other_first) {
                                assert(!regions_apart(memory_map@[i as int], memory_map@[j as int]));
                                return false;
                            }
                        },
                    }
                    i += 1;
                }
            },
        }
        j += 1;
    }
    true
}

/// Whether `frame` is one of the frames that the memory map yields.
pub fn map_yields_frame(memory_map: &Vec<MemoryRegion>, frame: PhysFrame) -> (found: bool)
    requires
        memory_map_valid(memory_map@),
    ensures
        found == frame_in_map(memory_map@, frame@),
{
    let target: u64 = frame.start_address().as_u64();
    let mut i: usize = 0;
    while i < memory_map.len()
        invariant
            i <= memory_map.len(),
            memory_map_valid(memory_map@),
            target == frame@,
            is_page_aligned(target),
            forall|n: int|
                0 <= n < usable_frames(memory_map@.take(i as int)).len() ==> usable_frames(
                    memory_map@,
                )[n] != target,
        decreases memory_map.len() - i,
    {
        let ghost before = usable_frames(memory_map@.take(i as int)).len() as int;
        proof {
            lemma_usable_frames_prefix(memory_map@, i as int);
            lemma_usable_frames_prefix(memory_map@, i + 1);
            assert(memory_map@.take(i + 1).drop_last() =~= memory_map@.take(i as int));
            assert(memory_map@.take(i + 1).last() == memory_map@[i as int]);
        }
        match frame_span(&memory_map[i]) {
            None => {},
            Some((first, last)) => {
                let ghost region = memory_map@[i as int];
                if first <= target && target <= last {
                    proof {
                        let k = (target - first) / 4096;
                        lemma_region_span(region, region_frame_count(region) - 1);
                        lemma_region_span(region, 0);
                        assert(0 <= k < region_frame_count(region));
                        lemma_region_span(region, k);
                        assert(usable_frames(memory_map@.take(i + 1))[before + k] == target);
                        assert(usable_frames(memory_map@)[before + k] == target);
                    }
                    return true;
                }
                proof {
                    assert forall|n: int|
                        before <= n < usable_frames(
                            memory_map@.take(i + 1),
                        ).len() implies usable_frames(memory_map@)[n] != target by {
                        lemma_region_span(region, n - before);
                        assert(usable_frames(memory_map@.take(i + 1))[n] == region_frame(
                            region,
                            n - before,
                        ));
                    }
                }
            },
        }
        i += 1;
    }
    proof {
        assert(memory_map@.take(i as int) =~= memory_map@);
    }
    false
}

/// Allocates usable frames from the boot memory map, each one once, in map
/// order. Frames are never given back.
pub struct FrameAllocatorBootInfo {
    memory_map: Vec<MemoryRegion>,
    next: usize,
}

impl FrameAllocatorBootInfo {
    /// The memory map that the allocator draws from.
    pub closed spec fn regions(self) -> Seq<MemoryRegion> {
        self.memory_map@
    }

    /// How many frames have been handed out.
    pub closed spec fn issued(self) -> nat {
        self.next as nat
    }

    /// All frames that the allocator hands out over its life, in order.
    pub open spec fn frames(self) -> Seq<u64> {
        usable_frames(self.regions())
    }

    /// The map is valid and no more frames are issued than it holds.
    pub open spec fn wf(self) -> bool {
        &&& memory_map_valid(self.regions())
        &&& self.issued() <= self.frames().len()
    }

    /// An allocator over `memory_map` that has handed out nothing yet. Every
    /// region marked usable must be free for the kernel to use.
    pub fn init(memory_map: Vec<MemoryRegion>) -> (allocator: FrameAllocatorBootInfo)
        requires
            memory_map_valid(memory_map@),
        ensures
            allocator.wf(),
            allocator.regions() == memory_map@,
            allocator.issued() == 0,
    {
        FrameAllocatorBootInfo { memory_map, next: 0 }
    }

    /// The `n`-th usable frame of the memory map, counting from zero.
    pub fn usable_frame(&self, n: usize) -> (frame: Option<PhysFrame>)
        requires
            self.wf(),
        ensures
            match frame {
                Some(f) => n < self.frames().len() && f@ == self.frames()[n as int],
                None => n >= self.frames().len(),
            },
    {
        let mut remaining: u64 = n as u64;
        let mut i: usize = 0;
        while i < self.memory_map.len()
            invariant
                self.wf(),
                i <= self.memory_map.len(),
                remaining + usable_frames(self.memory_map@.take(i as int)).len() == n,
            decreases self.memory_map.len() - i,
        {
            let region: MemoryRegion = self.memory_map[i];
            proof {
                lemma_usable_frames_prefix(self.memory_map@, i + 1);
                assert(self.memory_map@.take(i + 1).drop_last() =~= self.memory_map@.take(
                    i as int,
                ));
                assert(self.memory_map@.take(i + 1).last() == region);
            }
            let usable: bool = match region.kind {
                MemoryRegionKind::Usable => true,
                _ => false,
            };
            if usable && region.start < region.end {
                let count: u64 = (region.end - region.start + 4095) / PAGE_SIZE;
                if remaining < count {
                    let address: u64 = region.start + remaining * PAGE_SIZE;
                    return Some(PhysFrame::containing_address(PhysAddr::new(address)));
                }
                remaining -= count;
            }
            i += 1;
        }
        proof {
            assert(self.memory_map@.take(i as int) =~= self.memory_map@);
        }
        None
    }

    /// Hands out the next frame not issued yet, or `None` once every usable
    /// frame of the memory map has been issued.
    pub fn allocate_frame(&mut self) -> (frame: Option<PhysFrame>)
        requires
            old(self).wf(),
        ensures
            final(self).wf(),
            final(self).regions() == old(self).regions(),
            match frame {
                Some(f) => old(self).issued() < old(self).frames().len()
                    && f@ == old(self).frames()[old(self).issued() as int]
                    && final(self).issued() == old(self).issued()
                    + 1,
                None => old(self).issued() == old(self).frames().len() && final(self).issued()
                    == old(self).issued(),
            },
    {
        let frame: Option<PhysFrame> = self.usable_frame(self.next);
        if frame.is_some() {
            self.next = self.next + 1;
        }
        frame
    }
}

} // verus!
