//! Virtual-memory bootstrap for a 64-bit kernel: physical frames from the
//! boot memory map, a four-level page-table mapper, guarded stacks and
//! on-demand windows onto physical memory.

use vstd::prelude::*;

pub mod acpi;
pub mod addr;
pub mod allocator;
pub mod backing;
pub mod frame_allocator_bootinfo;
pub mod mapper;
pub mod page_table;
pub mod paging;
pub mod stack;
pub mod vga;

use crate::addr::{PageTableLevel, PhysAddr, PhysFrame, VirtAddr, table_index};
use crate::frame_allocator_bootinfo::{
    FrameAllocatorBootInfo, MemoryRegion, frame_in_map, lemma_frames_distinct, map_yields_frame,
    memory_map_is_valid, memory_map_valid, regions_are_disjoint, regions_disjoint, usable_frames,
};
use crate::mapper::{AddressSpaceMapper, not_a_table};
use crate::page_table::{FrameError, TableMemory, entry_frame, read_entry, resolve, table_at};

verus! {

/// Why a virtual address resolves to no physical address.
#[derive(Clone, Copy, PartialEq, Eq, Structural, Debug)]
pub enum TranslateError {
    /// An entry on the way is not present: the address is not mapped.
    AddressNotPresent,
    /// An entry on the way maps a huge frame, which the walk cannot follow.
    UnsupportedHugePage,
}

/// Follows the entry that `addr` selects in the table of `level` held in
/// frame `table`.
fn next_table(memory: &TableMemory, table: PhysFrame, addr: VirtAddr, level: PageTableLevel) -> (next:
    Result<PhysFrame, TranslateError>)
    requires
        memory.wf(),
    ensures
        match entry_frame(read_entry(memory@, table@, table_index(addr@, level.number()))) {
            Ok(frame) => next matches Ok(f) && f@ == frame,
            Err(FrameError::FrameNotPresent) => next == Err::<PhysFrame, TranslateError>(
                TranslateError::AddressNotPresent,
            ),
            Err(FrameError::HugeFrame) => next == Err::<PhysFrame, TranslateError>(
                TranslateError::UnsupportedHugePage,
            ),
        },
{
    let index: u16 = addr.page_table_index(level);
    match memory.entry_frame(table, index) {
        Ok(frame) => Ok(frame),
        Err(FrameError::FrameNotPresent) => Err(TranslateError::AddressNotPresent),
        Err(FrameError::HugeFrame) => Err(TranslateError::UnsupportedHugePage),
    }
}

/// Walks the four table levels for `addr`, starting at the top-level table
/// in `level_4_frame`, and gives the physical address it is mapped to, or
/// the reason why the walk stopped.
pub fn try_translate_address(memory: &TableMemory, level_4_frame: PhysFrame, addr: VirtAddr) -> (phys:
    Result<PhysAddr, TranslateError>)
    requires
        memory.wf(),
    ensures
        match resolve(memory@, level_4_frame@, addr@) {
            Ok(p) => phys matches Ok(a) && a@ == p,
            Err(FrameError::FrameNotPresent) => phys == Err::<PhysAddr, TranslateError>(
                TranslateError::AddressNotPresent,
            ),
            Err(FrameError::HugeFrame) => phys == Err::<PhysAddr, TranslateError>(
                TranslateError::UnsupportedHugePage,
            ),
        },
{
    proof {
        reveal_with_fuel(table_at, 5);
    }
    let p3: PhysFrame = next_table(memory, level_4_frame, addr, PageTableLevel::Four)?;
    let p2: PhysFrame = next_table(memory, p3, addr, PageTableLevel::Three)?;
    let p1: PhysFrame = next_table(memory, p2, addr, PageTableLevel::Two)?;
    let frame: PhysFrame = next_table(memory, p1, addr, PageTableLevel::One)?;
    let start: u64 = frame.start_address().as_u64();
    let offset: u16 = addr.page_offset();
    Ok(PhysAddr::new(start + offset as u64))
}

/// The physical address that `addr` is mapped to, or `None` if it is not
/// mapped. The walk must not meet an entry that maps a huge frame.
pub fn translate_address(memory: &TableMemory, level_4_frame: PhysFrame, addr: VirtAddr) -> (phys:
    Option<PhysAddr>)
    requires
        memory.wf(),
        resolve(memory@, level_4_frame@, addr@) != Err::<u64, FrameError>(FrameError::HugeFrame),
    ensures
        match resolve(memory@, level_4_frame@, addr@) {
            Ok(p) => phys matches Some(a) && a@ == p,
            Err(_) => phys is None,
        },
{
    match try_translate_address(memory, level_4_frame, addr) {
        Ok(phys) => Some(phys),
        Err(_) => None,
    }
}

/// A value that is kept in the memory context and handed from one
/// execution context to another together with it.
pub struct SendWrapper<T>(pub T);

impl<T> SendWrapper<T> {
    /// The wrapped value.
    pub fn deref(&self) -> (value: &T)
        ensures
            *value == self.0,
    {
        &self.0
    }

    /// The wrapped value, for changing it.
    pub fn deref_mut(&mut self) -> (value: &mut T)
        ensures
            *value == old(self).0,
            final(self).0 == *final(value),
    {
        &mut self.0
    }
}

/// What the boot environment must hand over for the memory context to be
/// set up: a valid memory map whose usable regions share no frame, and a
/// top-level table that lies in none of them.
pub open spec fn boot_info_valid(regions: Seq<MemoryRegion>, level_4_frame: u64) -> bool {
    &&& memory_map_valid(regions)
    &&& regions_disjoint(regions)
    &&& !frame_in_map(regions, level_4_frame)
}

/// Whether the memory context can be set up from the memory map and the
/// frame of the top-level table.
pub fn boot_info_is_valid(memory_map: &Vec<MemoryRegion>, level_4_frame: PhysFrame) -> (valid: bool)
    ensures
        valid == boot_info_valid(memory_map@, level_4_frame@),
{
    memory_map_is_valid(memory_map) && regions_are_disjoint(memory_map) && !map_yields_frame(
        memory_map,
        level_4_frame,
    )
}

/// The mapper and the frame allocator of the kernel, both absent until
/// `init_allocator` has run.
pub struct MemoryContext {
    mapper: Option<SendWrapper<AddressSpaceMapper>>,
    frame_allocator: Option<SendWrapper<FrameAllocatorBootInfo>>,
}

impl MemoryContext {
    /// Whether mapper and frame allocator are present.
    pub closed spec fn initialized(self) -> bool {
        self.mapper is Some && self.frame_allocator is Some
    }

    /// The mapper, once present.
    pub closed spec fn mapper(self) -> AddressSpaceMapper {
        self.mapper->Some_0.0
    }

    /// The frame allocator, once present.
    pub closed spec fn frame_allocator(self) -> FrameAllocatorBootInfo {
        self.frame_allocator->Some_0.0
    }

    /// Mapper and frame allocator are well-formed, and the frames not yet
    /// issued are free.
    pub open spec fn wf(self) -> bool {
        self.initialized() ==> {
            &&& self.mapper().wf()
            &&& self.frame_allocator().wf()
            &&& self.mapper().frames_free(self.frame_allocator())
        }
    }

    /// A context without mapper and frame allocator.
    pub fn new() -> (context: MemoryContext)
        ensures
            !context.initialized(),
            context.wf(),
    {
        MemoryContext { mapper: None, frame_allocator: None }
    }

    /// Whether mapper and frame allocator are present.
    pub fn is_initialized(&self) -> (initialized: bool)
        ensures
            initialized == self.initialized(),
    {
        self.mapper.is_some() && self.frame_allocator.is_some()
    }

    /// The mapper and the frame allocator, for changing them. The context
    /// must have been set up.
    pub fn mapper_and_allocator(&mut self) -> (pair: (
        &mut AddressSpaceMapper,
        &mut FrameAllocatorBootInfo,
    ))
        requires
            old(self).initialized(),
        ensures
            *pair.0 == old(self).mapper(),
            *pair.1 == old(self).frame_allocator(),
            final(self).initialized(),
            final(self).mapper() == *final(pair.0),
            final(self).frame_allocator() == *final(pair.1),
    {
        let mapper: &mut AddressSpaceMapper = self.mapper.as_mut().unwrap().deref_mut();
        let frame_allocator: &mut FrameAllocatorBootInfo =
            self.frame_allocator.as_mut().unwrap().deref_mut();
        (mapper, frame_allocator)
    }
}

/// Sets the memory context up: a mapper over the top-level table in
/// `level_4_frame` and a frame allocator over `memory_map`. Both replace
/// what the context held before.
pub fn init_allocator(
    context: &mut MemoryContext,
    memory_map: Vec<MemoryRegion>,
    level_4_frame: PhysFrame,
    physical_memory_offset: VirtAddr,
)
    requires
        boot_info_valid(memory_map@, level_4_frame@),
    ensures
        final(context).initialized(),
        final(context).wf(),
        final(context).mapper().root() == level_4_frame@,
        final(context).mapper().offset() == physical_memory_offset@,
        forall|a: u64| #[trigger]
            final(context).mapper().translate_spec(a) == Err::<u64, FrameError>(
                FrameError::FrameNotPresent,
            ),
        final(context).frame_allocator().regions() == memory_map@,
        final(context).frame_allocator().issued() == 0,
{
    let ghost regions = memory_map@;
    let mapper: AddressSpaceMapper = paging::init(level_4_frame, physical_memory_offset);
    let frame_allocator: FrameAllocatorBootInfo = FrameAllocatorBootInfo::init(memory_map);
    proof {
        let frames = usable_frames(regions);
        assert forall|n: int| 0 <= n < frames.len() implies not_a_table(
            mapper.tables(),
            mapper.root(),
            #[trigger] frames[n],
        ) by {
            assert forall|a: u64, l: nat| 1 <= l <= 4 implies (#[trigger] table_at(
                mapper.tables(),
                mapper.root(),
                a,
                l,
            )) != Ok::<u64, FrameError>(frames[n]) by {
                if l < 4 {
                    assert(mapper.table_of(a, l) is Err);
                }
            }
        }
        assert forall|n: int, m: int| 0 <= n < m < frames.len() implies #[trigger] frames[n]
            != #[trigger] frames[m] by {
            lemma_frames_distinct(regions, n, m);
        }
    }
    // Set the mapper of the kernel.
    context.mapper = Some(SendWrapper(mapper));
    // Set the frame allocator of the kernel.
    context.frame_allocator = Some(SendWrapper(frame_allocator));
}

/// Runs `f` on the mapper and the frame allocator of the context, which
/// must have been set up, and returns what `f` returns. What `f` does to the
/// two stays in the context.
pub fn with_mapper_and_allocator<F, T>(context: &mut MemoryContext, f: F) -> (result: T) where
    F: FnOnce(&mut AddressSpaceMapper, &mut FrameAllocatorBootInfo) -> T,

    requires
        old(context).initialized(),
        forall|mapper: &mut AddressSpaceMapper, allocator: &mut FrameAllocatorBootInfo|
            *mapper == old(context).mapper() && *allocator == old(context).frame_allocator()
                ==> #[trigger] f.requires((mapper, allocator)),
    ensures
        final(context).initialized(),
        exists|mapper: &mut AddressSpaceMapper, allocator: &mut FrameAllocatorBootInfo|
            *mapper == old(context).mapper() && *allocator == old(context).frame_allocator()
                && *final(mapper) == final(context).mapper()
                && *final(allocator) == final(context).frame_allocator()
                && #[trigger] f.ensures((mapper, allocator), result),
{
    let (mapper, frame_allocator) = context.mapper_and_allocator();
    f(mapper, frame_allocator)
}

} // verus!
