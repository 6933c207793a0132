//! Stacks with a guard page: each stack takes a run of pages from a cursor,
//! leaves the first page of the run unmapped and maps the rest to fresh
//! frames.

use vstd::prelude::*;
use crate::addr::{Page, PageCursor, VirtAddr, LOWER_HALF_END};
use crate::backing::{map_fresh_pages, stopped_before};
use crate::frame_allocator_bootinfo::FrameAllocatorBootInfo;
use crate::mapper::{AddressSpaceMapper, MapToError, frames_for_run, range_unmapped};

verus! {

/// The address at which the first stack run starts.
pub const STACK_ALLOC_BASE: u64 = 0x5555_5555_0000;

/// The mapped range `[start, end)` of a stack. The page below `start` is
/// the guard page.
#[derive(Debug, Clone, Copy)]
pub struct StackBounds {
    start: VirtAddr,
    end: VirtAddr,
}

impl StackBounds {
    /// The lowest address of the stack.
    pub closed spec fn start_spec(self) -> u64 {
        self.start@
    }

    /// The first address above the stack.
    pub closed spec fn end_spec(self) -> u64 {
        self.end@
    }

    /// The lowest address of the stack.
    pub fn start(&self) -> (start: VirtAddr)
        ensures
            start@ == self.start_spec(),
    {
        self.start
    }

    /// The first address above the stack.
    pub fn end(&self) -> (end: VirtAddr)
        ensures
            end@ == self.end_spec(),
    {
        self.end
    }
}

/// A cursor for stack runs, at the base of the stack area.
pub fn stack_cursor() -> (cursor: PageCursor)
    ensures
        cursor@ == STACK_ALLOC_BASE,
{
    PageCursor::new(STACK_ALLOC_BASE)
}

/// Reserves `size_in_pages` pages of virtual memory from `cursor` and returns
/// the first page.
pub fn reserve_stack_memory(cursor: &mut PageCursor, size_in_pages: u64) -> (first: Page)
    requires
        old(cursor)@ + size_in_pages * 4096 < LOWER_HALF_END,
    ensures
        first@ == old(cursor)@,
        final(cursor)@ == old(cursor)@ + size_in_pages * 4096,
{
    cursor.reserve(size_in_pages)
}

/// Allocates a stack of `size_in_pages` pages: reserves one page more from
/// `cursor`, leaves the first page of the run unmapped as guard page, and
/// maps every other page, present and writable, to a frame taken from
/// `frame_allocator`.
///
/// Fails as soon as a frame is missing or a page of the run is mapped
/// already. The pages mapped up to there stay mapped.
pub fn alloc_stack(
    size_in_pages: u64,
    cursor: &mut PageCursor,
    mapper: &mut AddressSpaceMapper,
    frame_allocator: &mut FrameAllocatorBootInfo,
) -> (result: Result<StackBounds, MapToError>)
    requires
        old(mapper).wf(),
        old(frame_allocator).wf(),
        old(mapper).frames_free(*old(frame_allocator)),
        old(cursor)@ + (size_in_pages + 1) * 4096 < LOWER_HALF_END,
    ensures
        final(mapper).wf(),
        final(frame_allocator).wf(),
        final(mapper).frames_free(*final(frame_allocator)),
        final(frame_allocator).regions() == old(frame_allocator).regions(),
        final(mapper).root() == old(mapper).root(),
        final(mapper).offset() == old(mapper).offset(),
        final(cursor)@ == old(cursor)@ + (size_in_pages + 1) * 4096,
        result is Ok <==> range_unmapped(
            *old(mapper),
            old(cursor)@ + 4096,
            old(cursor)@ + 4096 + size_in_pages * 4096,
        ) && old(frame_allocator).issued() + frames_for_run(
            *old(mapper),
            old(cursor)@ + 4096,
            size_in_pages as int,
            1,
        ) <= old(frame_allocator).frames().len(),
        match result {
            Ok(bounds) => {
                &&& bounds.start_spec() == old(cursor)@ + 4096
                &&& bounds.end_spec() == bounds.start_spec() + size_in_pages * 4096
                &&& final(frame_allocator).issued() == old(frame_allocator).issued()
                    + frames_for_run(
                    *old(mapper),
                    old(cursor)@ + 4096,
                    size_in_pages as int,
                    1,
                )
                &&& stopped_before(
                    *final(mapper),
                    *old(mapper),
                    old(frame_allocator).frames(),
                    old(frame_allocator).issued() as int,
                    old(cursor)@ + 4096,
                    size_in_pages as int,
                )
            },
            Err(MapToError::PageAlreadyMapped(_)) => exists|done: int|
                0 <= done < size_in_pages && old(mapper).is_mapped(
                    (old(cursor)@ + 4096 + done * 4096) as u64,
                ) && final(frame_allocator).issued() == old(frame_allocator).issued()
                    + frames_for_run(*old(mapper), old(cursor)@ + 4096, done, 1) + 1
                    && #[trigger] stopped_before(
                    *final(mapper),
                    *old(mapper),
                    old(frame_allocator).frames(),
                    old(frame_allocator).issued() as int,
                    old(cursor)@ + 4096,
                    done,
                ),
            Err(MapToError::FrameAllocationFailed) => exists|done: int|
                0 <= done < size_in_pages
                    && final(frame_allocator).issued() == old(frame_allocator).frames().len()
                    && old(frame_allocator).issued() + frames_for_run(
                    *old(mapper),
                    old(cursor)@ + 4096,
                    done + 1,
                    1,
                ) > old(frame_allocator).frames().len() && #[trigger] stopped_before(
                    *final(mapper),
                    *old(mapper),
                    old(frame_allocator).frames(),
                    old(frame_allocator).issued() as int,
                    old(cursor)@ + 4096,
                    done,
                ),
        },
{
    // Reserve a guard page below the stack, so that running off the stack
    // faults instead of reaching other data.
    let guard_page: Page = reserve_stack_memory(cursor, size_in_pages + 1);

    let stack_start: Page = guard_page.plus_pages(1);
    let stack_end: Page = stack_start.plus_pages(size_in_pages);

    match map_fresh_pages(stack_start, size_in_pages, mapper, frame_allocator) {
        Ok(_) => Ok(
            StackBounds { start: stack_start.start_address(), end: stack_end.start_address() },
        ),
        Err(e) => Err(e),
    }
}

/// The guard page of a stack stays unmapped: if no address of the page below
/// the run resolved before the stack was allocated, none does afterwards,
/// however far the allocation got.
pub proof fn lemma_guard_page_unmapped(
    before: AddressSpaceMapper,
    after: AddressSpaceMapper,
    frames: Seq<u64>,
    first: int,
    start: u64,
    done: int,
    k: u64,
)
    requires
        4096 <= start < LOWER_HALF_END,
        0 <= done,
        k < 4096,
        stopped_before(after, before, frames, first, start as int, done),
        !before.is_mapped((start - 4096 + k) as u64),
    ensures
        !after.is_mapped((start - 4096 + k) as u64),
{
    reveal(stopped_before);
}

} // verus!
