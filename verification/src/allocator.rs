//! The memory behind the kernel heap: one fixed range of pages, backed by
//! fresh frames before the heap allocator is given the range.

use vstd::prelude::*;
use crate::addr::{Page, LOWER_HALF_END};
use crate::backing::{map_fresh_pages, stopped_before};
use crate::frame_allocator_bootinfo::FrameAllocatorBootInfo;
use crate::mapper::{AddressSpaceMapper, MapToError, frames_for_run, range_unmapped};

verus! {

/// Backs the `heap_pages` pages of the heap from `heap_start` on with fresh
/// frames, each page present and writable.
///
/// Fails as soon as a frame is missing or a page of the heap is mapped
/// already. The pages mapped up to there stay mapped.
pub fn init_heap(
    heap_start: Page,
    heap_pages: u64,
    mapper: &mut AddressSpaceMapper,
    frame_allocator: &mut FrameAllocatorBootInfo,
) -> (result: Result<(), MapToError>)
    requires
        old(mapper).wf(),
        old(frame_allocator).wf(),
        old(mapper).frames_free(*old(frame_allocator)),
        heap_start@ + heap_pages * 4096 < LOWER_HALF_END,
    ensures
        final(mapper).wf(),
        final(frame_allocator).wf(),
        final(mapper).frames_free(*final(frame_allocator)),
        final(frame_allocator).regions() == old(frame_allocator).regions(),
        final(mapper).root() == old(mapper).root(),
        final(mapper).offset() == old(mapper).offset(),
        result is Ok <==> range_unmapped(
            *old(mapper),
            heap_start@ as int,
            heap_start@ + heap_pages * 4096,
        ) && old(frame_allocator).issued() + frames_for_run(
            *old(mapper),
            heap_start@ as int,
            heap_pages as int,
            1,
        ) <= old(frame_allocator).frames().len(),
        match result {
            Ok(_) => {
                &&& final(frame_allocator).issued() == old(frame_allocator).issued()
                    + frames_for_run(*old(mapper), heap_start@ as int, heap_pages as int, 1)
                &&& stopped_before(
                    *final(mapper),
                    *old(mapper),
                    old(frame_allocator).frames(),
                    old(frame_allocator).issued() as int,
                    heap_start@ as int,
                    heap_pages as int,
                )
            },
            Err(MapToError::PageAlreadyMapped(_)) => exists|done: int|
                0 <= done < heap_pages && old(mapper).is_mapped(
                    (heap_start@ + done * 4096) as u64,
                ) && final(frame_allocator).issued() == old(frame_allocator).issued()
                    + frames_for_run(*old(mapper), heap_start@ as int, done, 1) + 1
                    && #[trigger] stopped_before(
                    *final(mapper),
                    *old(mapper),
                    old(frame_allocator).frames(),
                    old(frame_allocator).issued() as int,
                    heap_start@ as int,
                    done,
                ),
            Err(MapToError::FrameAllocationFailed) => exists|done: int|
                0 <= done < heap_pages
                    && final(frame_allocator).issued() == old(frame_allocator).frames().len()
                    && old(frame_allocator).issued() + frames_for_run(
                    *old(mapper),
                    heap_start@ as int,
                    done + 1,
                    1,
                ) > old(frame_allocator).frames().len() && #[trigger] stopped_before(
                    *final(mapper),
                    *old(mapper),
                    old(frame_allocator).frames(),
                    old(frame_allocator).issued() as int,
                    heap_start@ as int,
                    done,
                ),
        },
{
    map_fresh_pages(heap_start, heap_pages, mapper, frame_allocator)
}

} // verus!
