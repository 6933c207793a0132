//! Set-up of the address-space mapper from what the boot environment hands
//! over: the frame of the active top-level table and the offset at which
//! all physical memory is visible in virtual memory.

use vstd::prelude::*;
use crate::addr::{PhysFrame, VirtAddr, canonicalize};
use crate::mapper::AddressSpaceMapper;
use crate::page_table::FrameError;

verus! {

/// A mapper over the top-level table in `level_4_frame`, which is the table
/// that the page-table base register names. The mapper starts without any
/// mapping of its own.
pub fn init(level_4_frame: PhysFrame, physical_memory_offset: VirtAddr) -> (mapper:
    AddressSpaceMapper)
    ensures
        mapper.wf(),
        mapper.root() == level_4_frame@,
        mapper.offset() == physical_memory_offset@,
        forall|a: u64| #[trigger] mapper.translate_spec(a) == Err::<u64, FrameError>(
            FrameError::FrameNotPresent,
        ),
        forall|a: u64, l: nat|
            l < 4 ==> #[trigger] mapper.table_of(a, l) == Err::<u64, FrameError>(
                FrameError::FrameNotPresent,
            ),
{
    AddressSpaceMapper::new(level_4_frame, physical_memory_offset)
}

/// The virtual address at which the top-level table in `level_4_frame` is
/// visible: the frame's address added to the physical-memory offset. The
/// sum must be a virtual address.
pub fn active_level_4_table(level_4_frame: PhysFrame, physical_memory_offset: VirtAddr) -> (table:
    VirtAddr)
    requires
        physical_memory_offset@ + level_4_frame@ <= u64::MAX,
        canonicalize((physical_memory_offset@ + level_4_frame@) as u64) is Some,
    ensures
        Some(table@) == canonicalize((physical_memory_offset@ + level_4_frame@) as u64),
{
    let phys: u64 = level_4_frame.start_address().as_u64();
    physical_memory_offset.plus(phys)
}

} // verus!
