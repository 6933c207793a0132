//! Windows onto physical memory for the firmware-table parser: a physical
//! range is mapped, frame by frame, to a fresh run of virtual pages, and
//! unmapped again when the parser is done with it.

use vstd::prelude::*;
use crate::addr::{
    Page, PageCursor, PhysAddr, PhysFrame, VirtAddr, align_down, is_canonical, is_page_aligned,
    LOWER_HALF_END, PAGE_SIZE, PHYS_ADDR_END,
};
use crate::frame_allocator_bootinfo::FrameAllocatorBootInfo;
use crate::mapper::{
    AddressSpaceMapper, MapToError, UnmapError, frames_for_run, lemma_flags_later,
    lemma_frames_for_run_grow, lemma_mapped_by_page, lemma_outside_later, lemma_page_addresses,
    lemma_run_missing,
    lemma_run_page_addresses, lemma_run_start, lemma_run_step, lemma_unmapped_later,
    outside_unchanged, range_flags, range_mapped, range_unmapped, run_page, run_tables,
};
use crate::page_table::{
    FrameError, PageTableFlags, entry_flags, FLAGS_MASK, HUGE_PAGE, PRESENT, WRITABLE,
};

verus! {

/// The address at which the first window starts.
pub const WINDOW_ALLOC_BASE: u64 = 0x6969_5555_0000;

/// How many pages a window onto the `size` bytes from `address` takes: one
/// for every frame from the frame of the first byte to the frame of the
/// byte at the end of the range.
pub open spec fn window_pages(address: int, size: int) -> int {
    (address % 4096 + size) / 4096 + 1
}

/// Whether every address of the `pages` pages from `window_start` resolves
/// to the address at the same distance from `physical_start`.
pub open spec fn window_mapped(
    mapper: AddressSpaceMapper,
    window_start: int,
    physical_start: int,
    pages: int,
) -> bool {
    forall|a: u64|
        window_start <= a < window_start + pages * 4096 ==> #[trigger] mapper.translate_spec(a)
            == Ok::<u64, FrameError>((physical_start + (a - window_start)) as u64)
}

/// Whether the opening of a window at `start` stopped before its page number
/// `done`: the pages before it were unmapped in `before` and show, present
/// and writable, the frames from `physical_start`, and every other address
/// resolves as it does in `before`.
#[verifier::opaque]
pub open spec fn opening_stopped(
    after: AddressSpaceMapper,
    before: AddressSpaceMapper,
    start: int,
    physical_start: int,
    done: int,
) -> bool {
    &&& range_unmapped(before, start, start + done * 4096)
    &&& range_flags(after, start, start + done * 4096, PRESENT | WRITABLE)
    &&& window_mapped(after, start, physical_start, done)
    &&& outside_unchanged(after, before, start, start + done * 4096)
}

/// Before the first page of a window is mapped, nothing has changed.
proof fn lemma_opening_at_start(before: AddressSpaceMapper, start: int, physical_start: int)
    ensures
        opening_stopped(before, before, start, physical_start, 0),
{
    reveal(opening_stopped);
}

/// What stopped before a page keeps holding while no mapping changes.
proof fn lemma_opening_kept(
    now: AddressSpaceMapper,
    after: AddressSpaceMapper,
    before: AddressSpaceMapper,
    start: int,
    physical_start: int,
    done: int,
)
    requires
        opening_stopped(now, before, start, physical_start, done),
        after.same_mappings(now),
        after.same_entries(now),
    ensures
        opening_stopped(after, before, start, physical_start, done),
{
    reveal(opening_stopped);
    assert forall|a: u64| start <= a < start + done * 4096 implies entry_flags(
        #[trigger] after.entry_of(a),
    ) == PRESENT | WRITABLE by {
        assert(after.entry_of(a) == now.entry_of(a));
    }
    assert forall|a: u64| start <= a < start + done * 4096 implies #[trigger] after.translate_spec(
        a,
    ) == Ok::<u64, FrameError>((physical_start + (a - start)) as u64) by {
        assert(after.translate_spec(a) == now.translate_spec(a));
    }
    assert forall|a: u64|
        is_canonical(a)
            && !(start <= a < start + done * 4096) implies #[trigger] after.translate_spec(
        a,
    ) == before.translate_spec(a) by {
        assert(after.translate_spec(a) == now.translate_spec(a));
    }
}

/// Mapping page number `done` of a window to its frame extends what the
/// window shows by a page.
proof fn lemma_window_later(
    now: AddressSpaceMapper,
    after: AddressSpaceMapper,
    start: int,
    physical_start: int,
    done: int,
)
    requires
        0 <= start,
        0 <= done,
        start % 4096 == 0,
        start + (done + 1) * 4096 < LOWER_HALF_END,
        0 <= physical_start,
        physical_start + (done + 1) * 4096 <= PHYS_ADDR_END,
        window_mapped(now, start, physical_start, done),
        after.mapped_to(now, run_page(start, done), (physical_start + done * 4096) as u64),
    ensures
        window_mapped(after, start, physical_start, done + 1),
{
    assert forall|a: u64|
        start <= a < start + (done + 1) * 4096 implies #[trigger] after.translate_spec(a) == Ok::<
        u64,
        FrameError,
    >((physical_start + (a - start)) as u64) by {
        lemma_run_page_addresses(start, done, a);
        if a < start + done * 4096 {
            assert(after.translate_spec(a) == now.translate_spec(a));
        }
    }
}

/// Mapping page number `done` of a window to its frame moves the stop on by
/// a page.
proof fn lemma_opening_later(
    now: AddressSpaceMapper,
    after: AddressSpaceMapper,
    before: AddressSpaceMapper,
    start: int,
    physical_start: int,
    done: int,
)
    requires
        0 <= start,
        0 <= done,
        start % 4096 == 0,
        start + (done + 1) * 4096 < LOWER_HALF_END,
        0 <= physical_start,
        physical_start % 4096 == 0,
        physical_start + (done + 1) * 4096 <= PHYS_ADDR_END,
        opening_stopped(now, before, start, physical_start, done),
        !before.is_mapped(run_page(start, done)),
        after.mapped_to(now, run_page(start, done), (physical_start + done * 4096) as u64),
        after.entry_set(
            now,
            run_page(start, done),
            ((physical_start + done * 4096) as u64) | (PRESENT | WRITABLE),
        ),
    ensures
        opening_stopped(after, before, start, physical_start, done + 1),
{
    reveal(opening_stopped);
    let frame = (physical_start + done * 4096) as u64;
    lemma_outside_later(now, after, before, start, done, frame);
    lemma_unmapped_later(now, before, start, done);
    lemma_flags_later(now, after, start, done, frame);
    lemma_window_later(now, after, start, physical_start, done);
}

/// The page at which the opening has stopped resolves as it did before.
proof fn lemma_opening_since(
    before: AddressSpaceMapper,
    now: AddressSpaceMapper,
    start: int,
    physical_start: int,
    done: int,
)
    requires
        0 <= start,
        0 <= done,
        start % 4096 == 0,
        start + (done + 1) * 4096 < LOWER_HALF_END,
        opening_stopped(now, before, start, physical_start, done),
    ensures
        now.is_mapped(run_page(start, done)) == before.is_mapped(run_page(start, done)),
{
    reveal(opening_stopped);
    lemma_page_addresses(run_page(start, done), 0);
    assert(now.translate_spec(run_page(start, done)) == before.translate_spec(
        run_page(start, done),
    ));
}

/// A window that was opened lies where nothing was mapped, and shows its
/// frames.
pub proof fn lemma_opened(
    now: AddressSpaceMapper,
    before: AddressSpaceMapper,
    start: int,
    physical_start: int,
    pages: int,
)
    requires
        opening_stopped(now, before, start, physical_start, pages),
    ensures
        range_unmapped(before, start, start + pages * 4096),
        range_flags(now, start, start + pages * 4096, PRESENT | WRITABLE),
        window_mapped(now, start, physical_start, pages),
        outside_unchanged(now, before, start, start + pages * 4096),
{
    reveal(opening_stopped);
}

/// Whether the closing of a window at `start` stopped before its page number
/// `done`: the pages before it were mapped and are unmapped, the page itself
/// was not mapped, and every other address resolves as it does in `before`.
pub open spec fn closing_stopped(
    after: AddressSpaceMapper,
    before: AddressSpaceMapper,
    start: int,
    done: int,
) -> bool {
    &&& range_mapped(before, start, start + done * 4096)
    &&& range_unmapped(after, start, start + done * 4096)
    &&& !before.is_mapped((start + done * 4096) as u64)
    &&& outside_unchanged(after, before, start, start + done * 4096)
}

/// A window of virtual memory onto a physical range.
#[derive(Debug, Clone, Copy)]
pub struct PhysicalMapping {
    physical_start: usize,
    virtual_start: VirtAddr,
    region_length: usize,
}

impl PhysicalMapping {
    /// The start of the first frame of the physical range.
    pub closed spec fn physical_start_spec(self) -> usize {
        self.physical_start
    }

    /// The virtual address of the first byte of the physical range.
    pub closed spec fn virtual_start_spec(self) -> u64 {
        self.virtual_start@
    }

    /// The length of the physical range in bytes.
    pub closed spec fn region_length_spec(self) -> usize {
        self.region_length
    }

    /// The window ends within the lower half of the address space.
    #[verifier::type_invariant]
    pub open spec fn wf(self) -> bool {
        self.virtual_start_spec() + self.region_length_spec() < LOWER_HALF_END
    }

    /// The first page of the window.
    pub open spec fn first_page(self) -> int {
        align_down(self.virtual_start_spec()) as int
    }

    /// The first address after the last page of the window.
    pub open spec fn end(self) -> int {
        self.first_page() + window_pages(
            self.virtual_start_spec() as int,
            self.region_length_spec() as int,
        ) * 4096
    }

    /// A window of `region_length` bytes whose first byte is visible at
    /// `virtual_start`.
    pub fn new(physical_start: usize, virtual_start: VirtAddr, region_length: usize) -> (mapping:
        PhysicalMapping)
        requires
            virtual_start@ + region_length < LOWER_HALF_END,
        ensures
            mapping.physical_start_spec() == physical_start,
            mapping.virtual_start_spec() == virtual_start@,
            mapping.region_length_spec() == region_length,
    {
        PhysicalMapping { physical_start, virtual_start, region_length }
    }

    /// The start of the first frame of the physical range.
    pub fn physical_start(&self) -> (start: usize)
        ensures
            start == self.physical_start_spec(),
    {
        self.physical_start
    }

    /// The virtual address of the first byte of the physical range.
    pub fn virtual_start(&self) -> (start: VirtAddr)
        ensures
            start@ == self.virtual_start_spec(),
    {
        self.virtual_start
    }

    /// The length of the physical range in bytes.
    pub fn region_length(&self) -> (length: usize)
        ensures
            length == self.region_length_spec(),
    {
        self.region_length
    }
}

/// Reserves `size_in_pages` pages of virtual memory for a window from
/// `cursor` and returns the first page.
pub fn reserve_window_memory(cursor: &mut PageCursor, size_in_pages: u64) -> (first: Page)
    requires
        old(cursor)@ + size_in_pages * 4096 < LOWER_HALF_END,
    ensures
        first@ == old(cursor)@,
        final(cursor)@ == old(cursor)@ + size_in_pages * 4096,
{
    cursor.reserve(size_in_pages)
}

/// Maps and unmaps windows onto physical memory, each in a run of pages of
/// its own.
#[derive(Debug)]
pub struct Handler {
    physical_offset: VirtAddr,
    cursor: PageCursor,
}

impl Handler {
    /// The address at which the next window starts.
    pub closed spec fn next_window(self) -> u64 {
        self.cursor@
    }

    /// The offset at which physical memory is visible in virtual memory.
    pub closed spec fn offset(self) -> u64 {
        self.physical_offset@
    }

    /// A handler whose first window starts at the base of the window area.
    pub fn new(physical_offset: VirtAddr) -> (handler: Handler)
        ensures
            handler.next_window() == WINDOW_ALLOC_BASE,
            handler.offset() == physical_offset@,
    {
        Handler { physical_offset, cursor: PageCursor::new(WINDOW_ALLOC_BASE) }
    }

    /// The address at which the next window starts.
    pub fn next_window_address(&self) -> (next: u64)
        ensures
            next == self.next_window(),
            is_page_aligned(next),
            next < LOWER_HALF_END,
    {
        self.cursor.next_address()
    }

    /// Opens a window onto the `size` bytes of physical memory from
    /// `physical_address`: reserves a page for every frame from the frame
    /// of the first byte to the frame of the byte at the end of the range,
    /// and maps each page, present and writable, to its frame. The mapping
    /// returned starts at the address in the window that shows the byte at
    /// `physical_address`.
    ///
    /// Fails as soon as a table is missing and no frame is left for it, or
    /// a page of the run is mapped already. The pages mapped up to there
    /// stay mapped.
    pub fn map_physical_region(
        &mut self,
        mapper: &mut AddressSpaceMapper,
        frame_allocator: &mut FrameAllocatorBootInfo,
        physical_address: usize,
        size: usize,
    ) -> (result: Result<PhysicalMapping, MapToError>)
        requires
            old(mapper).wf(),
            old(frame_allocator).wf(),
            old(mapper).frames_free(*old(frame_allocator)),
            physical_address + size < PHYS_ADDR_END,
            old(self).next_window() + window_pages(physical_address as int, size as int) * 4096
                < LOWER_HALF_END,
        ensures
            final(mapper).wf(),
            final(frame_allocator).wf(),
            final(mapper).frames_free(*final(frame_allocator)),
            final(frame_allocator).regions() == old(frame_allocator).regions(),
            final(mapper).root() == old(mapper).root(),
            final(mapper).offset() == old(mapper).offset(),
            final(self).offset() == old(self).offset(),
            final(self).next_window() == old(self).next_window() + window_pages(
                physical_address as int,
                size as int,
            ) * 4096,
            result is Ok <==> range_unmapped(
                *old(mapper),
                old(self).next_window() as int,
                final(self).next_window() as int,
            ) && old(frame_allocator).issued() + frames_for_run(
                *old(mapper),
                old(self).next_window() as int,
                window_pages(physical_address as int, size as int),
                0,
            ) <= old(frame_allocator).frames().len(),
            match result {
                Ok(mapping) => {
                    &&& mapping.physical_start_spec() == align_down(physical_address as u64)
                    &&& mapping.virtual_start_spec() == old(self).next_window() + physical_address
                        % 4096
                    &&& mapping.region_length_spec() == size
                    &&& mapping.first_page() == old(self).next_window()
                    &&& mapping.end() == final(self).next_window()
                    &&& final(frame_allocator).issued() == old(frame_allocator).issued()
                        + frames_for_run(
                        *old(mapper),
                        old(self).next_window() as int,
                        window_pages(physical_address as int, size as int),
                        0,
                    )
                    &&& opening_stopped(
                        *final(mapper),
                        *old(mapper),
                        old(self).next_window() as int,
                        align_down(physical_address as u64) as int,
                        window_pages(physical_address as int, size as int),
                    )
                },
                Err(MapToError::PageAlreadyMapped(_)) => exists|done: int|
                    0 <= done < window_pages(physical_address as int, size as int)
                        && old(mapper).is_mapped((old(self).next_window() + done * 4096) as u64)
                        && final(frame_allocator).issued() == old(frame_allocator).issued()
                        + frames_for_run(
                        *old(mapper),
                        old(self).next_window() as int,
                        done,
                        0,
                    ) && #[trigger] opening_stopped(
                        *final(mapper),
                        *old(mapper),
                        old(self).next_window() as int,
                        align_down(physical_address as u64) as int,
                        done,
                    ),
                Err(MapToError::FrameAllocationFailed) => exists|done: int|
                    0 <= done < window_pages(physical_address as int, size as int)
                        && final(frame_allocator).issued() == old(frame_allocator).frames().len()
                        && old(frame_allocator).issued() + frames_for_run(
                        *old(mapper),
                        old(self).next_window() as int,
                        done + 1,
                        0,
                    ) > old(frame_allocator).frames().len() && #[trigger] opening_stopped(
                        *final(mapper),
                        *old(mapper),
                        old(self).next_window() as int,
                        align_down(physical_address as u64) as int,
                        done,
                    ),
            },
    {
        let address: u64 = physical_address as u64;
        let offset: u64 = address % PAGE_SIZE;
        let start_frame: PhysFrame = PhysFrame::containing_address(PhysAddr::new(address));
        let physical_start: u64 = start_frame.start_address().as_u64();
        let pages: u64 = (offset + size as u64) / PAGE_SIZE + 1;
        let page_start: Page = reserve_window_memory(&mut self.cursor, pages);
        let flags: PageTableFlags = PageTableFlags::from_bits_truncate(PRESENT | WRITABLE);
        assert(((PRESENT | WRITABLE) & FLAGS_MASK) & PRESENT != 0 && ((PRESENT | WRITABLE)
            & FLAGS_MASK) & HUGE_PAGE == 0 && (PRESENT | WRITABLE) & FLAGS_MASK == PRESENT
            | WRITABLE) by (bit_vector);
        let ghost start = page_start@ as int;
        let ghost first = frame_allocator.issued() as int;
        let ghost frames = frame_allocator.frames();
        proof {
            use_type_invariant(page_start);
            lemma_run_start(*old(mapper), start, pages as int);
            lemma_opening_at_start(*old(mapper), start, physical_start as int);
        }
        let mut j: u64 = 0;
        while j < pages
            invariant
                j <= pages,
                pages == window_pages(physical_address as int, size as int),
                self.offset() == old(self).offset(),
                self.next_window() == old(self).next_window() + pages * 4096,
                start == old(self).next_window(),
                physical_start == align_down(physical_address as u64),
                physical_start % 4096 == 0,
                physical_start + pages * 4096 <= PHYS_ADDR_END,
                start == page_start@,
                start % 4096 == 0,
                start + pages * 4096 < LOWER_HALF_END,
                flags@ == PRESENT | WRITABLE,
                flags@ & PRESENT != 0,
                flags@ & HUGE_PAGE == 0,
                mapper.wf(),
                frame_allocator.wf(),
                mapper.frames_free(*frame_allocator),
                frame_allocator.regions() == old(frame_allocator).regions(),
                frames == old(frame_allocator).frames(),
                first == old(frame_allocator).issued(),
                mapper.root() == old(mapper).root(),
                mapper.offset() == old(mapper).offset(),
                frame_allocator.issued()
                    == first + frames_for_run(*old(mapper), start, j as int, 0),
                run_tables(*old(mapper), *mapper, start, j as int, pages as int),
                opening_stopped(*mapper, *old(mapper), start, physical_start as int, j as int),
            decreases pages - j,
        {
            let page: Page = page_start.plus_pages(j);
            let frame: PhysFrame = PhysFrame::containing_address(
                PhysAddr::new(physical_start + j * PAGE_SIZE),
            );
            let ghost before = *mapper;
            let ghost issued = frame_allocator.issued() as int;
            proof {
                assert(page@ == run_page(start, j as int));
                assert(frame@ == physical_start + j * 4096);
                lemma_run_missing(*old(mapper), before, start, j as int, pages as int);
                lemma_frames_for_run_grow(*old(mapper), start, j + 1, pages as int, 0);
                lemma_opening_since(*old(mapper), before, start, physical_start as int, j as int);
            }
            match mapper.map_to(page, frame, flags, frame_allocator) {
                Ok(flush) => {
                    flush.ignore();
                },
                Err(e) => {
                    proof {
                        lemma_opening_kept(
                            before,
                            *mapper,
                            *old(mapper),
                            start,
                            physical_start as int,
                            j as int,
                        );
                    }
                    return Err(e);
                },
            }
            proof {
                lemma_run_step(
                    *old(mapper),
                    before,
                    *mapper,
                    frames,
                    issued,
                    start,
                    j as int,
                    pages as int,
                );
                lemma_opening_later(
                    before,
                    *mapper,
                    *old(mapper),
                    start,
                    physical_start as int,
                    j as int,
                );
            }
            j += 1;
        }
        proof {
            lemma_opened(*mapper, *old(mapper), start, physical_start as int, pages as int);
        }
        let virtual_start: VirtAddr = page_start.start_address().plus(offset);
        Ok(PhysicalMapping::new(physical_start as usize, virtual_start, size))
    }

    /// Closes a window: unmaps every page from the page of the first byte
    /// of the mapping to the page of the byte at its end.
    ///
    /// Fails with `PageNotMapped` at the first page of the window that is
    /// not mapped; the pages before it are unmapped by then.
    pub fn unmap_physical_region(mapper: &mut AddressSpaceMapper, region: &PhysicalMapping) -> (result:
        Result<(), UnmapError>)
        requires
            old(mapper).wf(),
        ensures
            final(mapper).wf(),
            final(mapper).root() == old(mapper).root(),
            final(mapper).offset() == old(mapper).offset(),
            forall|allocator: FrameAllocatorBootInfo|
                old(mapper).frames_free(allocator) ==> #[trigger] final(mapper).frames_free(
                    allocator,
                ),
            outside_unchanged(*final(mapper), *old(mapper), region.first_page(), region.end()),
            result is Ok <==> range_mapped(*old(mapper), region.first_page(), region.end()),
            match result {
                Ok(_) => {
                    &&& range_mapped(*old(mapper), region.first_page(), region.end())
                    &&& range_unmapped(*final(mapper), region.first_page(), region.end())
                },
                Err(_) => exists|done: int|
                    0 <= done && region.first_page() + done * 4096 < region.end()
                        && #[trigger] closing_stopped(
                        *final(mapper),
                        *old(mapper),
                        region.first_page(),
                        done,
                    ),
            },
    {
        proof {
            use_type_invariant(region);
        }
        let address: u64 = region.virtual_start().as_u64();
        let offset: u64 = address % PAGE_SIZE;
        let start: Page = Page::containing_address(region.virtual_start());
        let pages: u64 = (offset + region.region_length() as u64) / PAGE_SIZE + 1;
        let ghost first = start@ as int;
        let mut j: u64 = 0;
        while j < pages
            invariant
                j <= pages,
                first == start@,
                first == region.first_page(),
                first + pages * 4096 == region.end(),
                first + pages * 4096 <= LOWER_HALF_END,
                mapper.wf(),
                mapper.root() == old(mapper).root(),
                mapper.offset() == old(mapper).offset(),
                forall|allocator: FrameAllocatorBootInfo|
                    old(mapper).frames_free(allocator) ==> #[trigger] mapper.frames_free(allocator),
                outside_unchanged(*mapper, *old(mapper), first, first + j * 4096),
                range_mapped(*old(mapper), first, first + j * 4096),
                range_unmapped(*mapper, first, first + j * 4096),
            decreases pages - j,
        {
            let page: Page = start.plus_pages(j);
            let ghost before = *mapper;
            proof {
                use_type_invariant(page);
                lemma_page_addresses(page@, 0);
                assert(before.translate_spec(page@) == old(mapper).translate_spec(page@));
            }
            match mapper.unmap(page) {
                Ok((_, flush)) => {
                    flush.ignore();
                },
                Err(e) => {
                    proof {
                        assert(!old(mapper).is_mapped(page@));
                        assert forall|a: u64|
                            is_canonical(a) && !(first <= a < first + pages
                                * 4096) implies #[trigger] mapper.translate_spec(a)
                                    == old(mapper).translate_spec(a) by {
                            assert(mapper.translate_spec(a) == before.translate_spec(a));
                        }
                        assert forall|a: u64|
                            is_canonical(a) && !(first <= a < first + j
                                * 4096) implies #[trigger] mapper.translate_spec(a)
                                    == old(mapper).translate_spec(a) by {
                            assert(mapper.translate_spec(a) == before.translate_spec(a));
                        }
                        assert forall|a: u64| first <= a < first + j * 4096
                            implies !#[trigger] mapper.is_mapped(
                            a,
                        ) by {
                            assert(!before.is_mapped(a));
                            assert(mapper.translate_spec(a) == before.translate_spec(a));
                        }
                        assert(closing_stopped(*mapper, *old(mapper), first, j as int));
                    }
                    return Err(e);
                },
            }
            proof {
                assert forall|a: u64|
                    is_canonical(a) && !(first <= a < first + (j + 1)
                        * 4096) implies #[trigger] mapper.translate_spec(a)
                            == old(mapper).translate_spec(a) by {
                    assert(before.translate_spec(a) == old(mapper).translate_spec(a));
                }
                assert forall|a: u64| first <= a < first + (j + 1) * 4096
                    implies #[trigger] old(mapper).is_mapped(a) by {
                    if a >= first + j * 4096 {
                        lemma_mapped_by_page(*old(mapper), a, page@);
                    }
                }
                assert forall|a: u64| first <= a < first + (j + 1) * 4096
                    implies !#[trigger] mapper.is_mapped(
                    a,
                ) by {
                    if a < first + j * 4096 {
                        assert(!before.is_mapped(a));
                        assert(mapper.translate_spec(a) == before.translate_spec(a));
                    }
                }
            }
            j += 1;
        }
        Ok(())
    }
}

/// A handler for the windows of the firmware-table parser, for a system
/// whose physical memory is visible at `physical_memory_offset`.
pub fn init(physical_memory_offset: VirtAddr) -> (handler: Handler)
    ensures
        handler.next_window() == WINDOW_ALLOC_BASE,
        handler.offset() == physical_memory_offset@,
{
    Handler::new(physical_memory_offset)
}

/// Every byte of a window shows the byte of the physical range at the same
/// distance from the start.
pub proof fn lemma_window_shows_region(
    mapper: AddressSpaceMapper,
    window_start: u64,
    physical_address: u64,
    size: u64,
    k: u64,
)
    requires
        is_page_aligned(window_start),
        physical_address + size < PHYS_ADDR_END,
        window_start + window_pages(physical_address as int, size as int) * 4096 < LOWER_HALF_END,
        window_mapped(
            mapper,
            window_start as int,
            align_down(physical_address) as int,
            window_pages(physical_address as int, size as int),
        ),
        k < size,
    ensures
        mapper.translate_spec((window_start + physical_address % 4096 + k) as u64) == Ok::<
            u64,
            FrameError,
        >((physical_address + k) as u64),
{
}

/// A window that is opened and closed again leaves no address of its pages
/// mapped: the closing succeeds, and afterwards no address of the window
/// resolves. `closed` says whether the closing reported success.
pub proof fn lemma_window_closed(
    opened: AddressSpaceMapper,
    after: AddressSpaceMapper,
    start: int,
    physical_start: int,
    pages: int,
    closed: bool,
    a: u64,
)
    requires
        pages >= 1,
        0 <= start,
        start + pages * 4096 <= u64::MAX,
        window_mapped(opened, start, physical_start, pages),
        if closed {
            range_unmapped(after, start, start + pages * 4096)
        } else {
            exists|done: int|
                0 <= done
                    && start + done * 4096 < start + pages * 4096
                    && #[trigger] closing_stopped(
                    after,
                    opened,
                    start,
                    done,
                )
        },
        start <= a < start + pages * 4096,
    ensures
        closed,
        after.translate_spec(a) is Err,
{
    if !closed {
        let done = choose|done: int|
            0 <= done && start + done * 4096 < start + pages * 4096 && #[trigger] closing_stopped(
                after,
                opened,
                start,
                done,
            );
        assert(opened.translate_spec((start + done * 4096) as u64) is Ok);
    }
    assert(!after.is_mapped(a));
}

} // verus!
