//! Runs of pages backed by fresh frames: every page of a run is mapped,
//! present and writable, to a frame of its own from the frame allocator.

use vstd::prelude::*;
use crate::addr::{
    Page, PhysFrame, is_canonical, is_page_aligned, page_offset, LOWER_HALF_END, PHYS_ADDR_END,
};
use crate::frame_allocator_bootinfo::FrameAllocatorBootInfo;
use crate::mapper::{
    AddressSpaceMapper, MapToError, frames_for_run, lemma_flags_later, lemma_frames_for_run_grow,
    lemma_outside_later, lemma_page_addresses, lemma_run_missing, lemma_run_page_addresses,
    lemma_run_start, lemma_run_step, lemma_unmapped_later, outside_unchanged, range_flags,
    range_unmapped, run_page, run_tables,
};
use crate::page_table::{
    FrameError, PageTableFlags, entry_flags, FLAGS_MASK, HUGE_PAGE, PRESENT, WRITABLE,
};

verus! {

/// Whether every address of the first `pages` pages of the run from `start`
/// resolves into the frame that was taken for its page: for page number `j`
/// the frame `frames[first + n]`, where `n` frames went into the pages
/// before it and their tables.
pub open spec fn run_backed(
    mapper: AddressSpaceMapper,
    before: AddressSpaceMapper,
    frames: Seq<u64>,
    first: int,
    start: int,
    pages: int,
) -> bool {
    forall|a: u64|
        start <= a < start + pages * 4096 ==> #[trigger] mapper.translate_spec(a) == Ok::<
            u64,
            FrameError,
        >(
            (frames[first + frames_for_run(before, start, (a - start) / 4096, 1)] + page_offset(
                a,
            )) as u64,
        )
}

/// Whether the mapping of a run from `start` stopped before its page number
/// `done`: the pages before it were unmapped in `before` and are mapped into
/// their frames, and every other address resolves as it does in `before`.
#[verifier::opaque]
pub open spec fn stopped_before(
    after: AddressSpaceMapper,
    before: AddressSpaceMapper,
    frames: Seq<u64>,
    first: int,
    start: int,
    done: int,
) -> bool {
    &&& range_unmapped(before, start, start + done * 4096)
    &&& range_flags(after, start, start + done * 4096, PRESENT | WRITABLE)
    &&& run_backed(after, before, frames, first, start, done)
    &&& outside_unchanged(after, before, start, start + done * 4096)
}

/// Before the first page of a run is mapped, nothing has changed.
proof fn lemma_stopped_at_start(before: AddressSpaceMapper, frames: Seq<u64>, first: int, start: int)
    ensures
        stopped_before(before, before, frames, first, start, 0),
{
    reveal(stopped_before);
}

/// What stopped before a page keeps holding while no mapping changes.
proof fn lemma_stopped_kept(
    now: AddressSpaceMapper,
    after: AddressSpaceMapper,
    before: AddressSpaceMapper,
    frames: Seq<u64>,
    first: int,
    start: int,
    done: int,
)
    requires
        stopped_before(now, before, frames, first, start, done),
        after.same_mappings(now),
        after.same_entries(now),
    ensures
        stopped_before(after, before, frames, first, start, done),
{
    reveal(stopped_before);
    assert forall|a: u64| start <= a < start + done * 4096 implies entry_flags(
        #[trigger] after.entry_of(a),
    ) == PRESENT | WRITABLE by {
        assert(after.entry_of(a) == now.entry_of(a));
    }
    assert forall|a: u64| start <= a < start + done * 4096 implies #[trigger] after.translate_spec(
        a,
    ) == Ok::<u64, FrameError>(
        (frames[first + frames_for_run(before, start, (a - start) / 4096, 1)] + page_offset(a)) as u64,
    ) by {
        assert(after.translate_spec(a) == now.translate_spec(a));
    }
    assert forall|a: u64|
        is_canonical(a)
            && !(start <= a < start + done * 4096) implies #[trigger] after.translate_spec(
        a,
    ) == before.translate_spec(a) by {
        assert(after.translate_spec(a) == now.translate_spec(a));
    }
}

/// Mapping page number `done` of a run to the frame taken for it extends the
/// backed part of the run by a page.
proof fn lemma_backed_later(
    now: AddressSpaceMapper,
    after: AddressSpaceMapper,
    before: AddressSpaceMapper,
    frames: Seq<u64>,
    first: int,
    start: int,
    done: int,
    frame: u64,
)
    requires
        0 <= start,
        0 <= done,
        start % 4096 == 0,
        start + (done + 1) * 4096 < LOWER_HALF_END,
        run_backed(now, before, frames, first, start, done),
        after.mapped_to(now, run_page(start, done), frame),
        frame == frames[first + frames_for_run(before, start, done, 1)],
    ensures
        run_backed(after, before, frames, first, start, done + 1),
{
    assert forall|a: u64|
        start <= a < start + (done + 1) * 4096 implies #[trigger] after.translate_spec(a) == Ok::<
        u64,
        FrameError,
    >(
        (frames[first + frames_for_run(before, start, (a - start) / 4096, 1)] + page_offset(a)) as u64,
    ) by {
        lemma_run_page_addresses(start, done, a);
        if a < start + done * 4096 {
            assert(after.translate_spec(a) == now.translate_spec(a));
        }
    }
}

/// Mapping page number `done` of a run to its frame moves the stop on by a
/// page.
proof fn lemma_stopped_later(
    now: AddressSpaceMapper,
    after: AddressSpaceMapper,
    before: AddressSpaceMapper,
    frames: Seq<u64>,
    first: int,
    start: int,
    done: int,
    frame: u64,
)
    requires
        0 <= start,
        0 <= done,
        start % 4096 == 0,
        start + (done + 1) * 4096 < LOWER_HALF_END,
        stopped_before(now, before, frames, first, start, done),
        !before.is_mapped(run_page(start, done)),
        after.mapped_to(now, run_page(start, done), frame),
        after.entry_set(now, run_page(start, done), frame | (PRESENT | WRITABLE)),
        frame == frames[first + frames_for_run(before, start, done, 1)],
        frame < PHYS_ADDR_END,
        is_page_aligned(frame),
    ensures
        stopped_before(after, before, frames, first, start, done + 1),
{
    reveal(stopped_before);
    lemma_outside_later(now, after, before, start, done, frame);
    lemma_unmapped_later(now, before, start, done);
    lemma_flags_later(now, after, start, done, frame);
    lemma_backed_later(now, after, before, frames, first, start, done, frame);
}

/// The page at which a run has stopped resolves as it did before the run.
proof fn lemma_unmapped_since(
    before: AddressSpaceMapper,
    now: AddressSpaceMapper,
    frames: Seq<u64>,
    first: int,
    start: int,
    done: int,
)
    requires
        0 <= start,
        0 <= done,
        start % 4096 == 0,
        start + (done + 1) * 4096 < LOWER_HALF_END,
        stopped_before(now, before, frames, first, start, done),
    ensures
        now.is_mapped(run_page(start, done)) == before.is_mapped(run_page(start, done)),
{
    reveal(stopped_before);
    lemma_page_addresses(run_page(start, done), 0);
    assert(now.translate_spec(run_page(start, done)) == before.translate_spec(
        run_page(start, done),
    ));
}

/// What a run that stopped before page number `done` leaves behind: its
/// first `done` pages were not mapped before and are mapped, present and
/// writable, into their frames; every other address resolves as before.
pub proof fn lemma_stopped(
    now: AddressSpaceMapper,
    before: AddressSpaceMapper,
    frames: Seq<u64>,
    first: int,
    start: int,
    done: int,
)
    requires
        stopped_before(now, before, frames, first, start, done),
    ensures
        range_unmapped(before, start, start + done * 4096),
        range_flags(now, start, start + done * 4096, PRESENT | WRITABLE),
        run_backed(now, before, frames, first, start, done),
        outside_unchanged(now, before, start, start + done * 4096),
{
    reveal(stopped_before);
}

/// Maps the `pages` pages from `first_page` on, each present and writable, to
/// a frame taken from `frame_allocator`.
///
/// Fails as soon as a frame is missing or a page of the run is mapped
/// already. The pages mapped up to there stay mapped.
pub fn map_fresh_pages(
    first_page: Page,
    pages: u64,
    mapper: &mut AddressSpaceMapper,
    frame_allocator: &mut FrameAllocatorBootInfo,
) -> (result: Result<(), MapToError>)
    requires
        old(mapper).wf(),
        old(frame_allocator).wf(),
        old(mapper).frames_free(*old(frame_allocator)),
        first_page@ + pages * 4096 < LOWER_HALF_END,
    ensures
        final(mapper).wf(),
        final(frame_allocator).wf(),
        final(mapper).frames_free(*final(frame_allocator)),
        final(frame_allocator).regions() == old(frame_allocator).regions(),
        final(mapper).root() == old(mapper).root(),
        final(mapper).offset() == old(mapper).offset(),
        result is Ok <==> range_unmapped(
            *old(mapper),
            first_page@ as int,
            first_page@ + pages * 4096,
        ) && old(frame_allocator).issued() + frames_for_run(
            *old(mapper),
            first_page@ as int,
            pages as int,
            1,
        ) <= old(frame_allocator).frames().len(),
        match result {
            Ok(_) => {
                &&& final(frame_allocator).issued() == old(frame_allocator).issued()
                    + frames_for_run(*old(mapper), first_page@ as int, pages as int, 1)
                &&& stopped_before(
                    *final(mapper),
                    *old(mapper),
                    old(frame_allocator).frames(),
                    old(frame_allocator).issued() as int,
                    first_page@ as int,
                    pages as int,
                )
            },
            Err(MapToError::PageAlreadyMapped(_)) => exists|done: int|
                0 <= done < pages && old(mapper).is_mapped((first_page@ + done * 4096) as u64)
                    && final(frame_allocator).issued() == old(frame_allocator).issued()
                    + frames_for_run(*old(mapper), first_page@ as int, done, 1) + 1
                    && #[trigger] stopped_before(
                    *final(mapper),
                    *old(mapper),
                    old(frame_allocator).frames(),
                    old(frame_allocator).issued() as int,
                    first_page@ as int,
                    done,
                ),
            Err(MapToError::FrameAllocationFailed) => exists|done: int|
                0 <= done < pages
                    && final(frame_allocator).issued() == old(frame_allocator).frames().len()
                    && old(frame_allocator).issued() + frames_for_run(
                    *old(mapper),
                    first_page@ as int,
                    done + 1,
                    1,
                ) > old(frame_allocator).frames().len() && #[trigger] stopped_before(
                    *final(mapper),
                    *old(mapper),
                    old(frame_allocator).frames(),
                    old(frame_allocator).issued() as int,
                    first_page@ as int,
                    done,
                ),
        },
{
    let flags: PageTableFlags = PageTableFlags::from_bits_truncate(PRESENT | WRITABLE);
    assert(((PRESENT | WRITABLE) & FLAGS_MASK) & PRESENT != 0 && ((PRESENT | WRITABLE)
        & FLAGS_MASK) & HUGE_PAGE == 0 && (PRESENT | WRITABLE) & FLAGS_MASK == PRESENT
        | WRITABLE) by (bit_vector);
    let ghost start = first_page@ as int;
    let ghost frames = frame_allocator.frames();
    let ghost first = frame_allocator.issued() as int;
    proof {
        use_type_invariant(first_page);
        lemma_run_start(*old(mapper), start, pages as int);
        lemma_stopped_at_start(*old(mapper), frames, first, start);
    }
    let mut i: u64 = 0;
    while i < pages
        invariant
            i <= pages,
            start == first_page@,
            start % 4096 == 0,
            start + pages * 4096 < LOWER_HALF_END,
            flags@ == PRESENT | WRITABLE,
            flags@ & PRESENT != 0,
            flags@ & HUGE_PAGE == 0,
            mapper.wf(),
            frame_allocator.wf(),
            mapper.frames_free(*frame_allocator),
            frame_allocator.regions() == old(frame_allocator).regions(),
            frames == old(frame_allocator).frames(),
            first == old(frame_allocator).issued(),
            mapper.root() == old(mapper).root(),
            mapper.offset() == old(mapper).offset(),
            frame_allocator.issued() == first + frames_for_run(*old(mapper), start, i as int, 1),
            run_tables(*old(mapper), *mapper, start, i as int, pages as int),
            stopped_before(*mapper, *old(mapper), frames, first, start, i as int),
        decreases pages - i,
    {
        let page: Page = first_page.plus_pages(i);
        let ghost before = *mapper;
        let ghost issued = frame_allocator.issued() as int;
        proof {
            assert(page@ == run_page(start, i as int));
            lemma_run_missing(*old(mapper), before, start, i as int, pages as int);
            lemma_frames_for_run_grow(*old(mapper), start, i + 1, pages as int, 1);
            lemma_unmapped_since(*old(mapper), before, frames, first, start, i as int);
        }
        let frame: PhysFrame = match frame_allocator.allocate_frame() {
            Some(frame) => frame,
            None => {
                return Err(MapToError::FrameAllocationFailed);
            },
        };
        match mapper.map_to(page, frame, flags, frame_allocator) {
            Ok(flush) => {
                flush.ignore();
            },
            Err(e) => {
                proof {
                    lemma_stopped_kept(before, *mapper, *old(mapper), frames, first, start, i as int);
                }
                return Err(e);
            },
        }
        proof {
            use_type_invariant(frame);
            lemma_run_step(
                *old(mapper),
                before,
                *mapper,
                frames,
                issued + 1,
                start,
                i as int,
                pages as int,
            );
            lemma_stopped_later(
                before,
                *mapper,
                *old(mapper),
                frames,
                first,
                start,
                i as int,
                frame@,
            );
        }
        i += 1;
    }
    proof {
        lemma_stopped(*mapper, *old(mapper), frames, first, start, pages as int);
    }
    Ok(())
}

} // verus!
