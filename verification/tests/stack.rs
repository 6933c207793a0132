use kernel_memory::addr::{PhysAddr, PhysFrame, VirtAddr};
use kernel_memory::frame_allocator_bootinfo::{
    FrameAllocatorBootInfo, MemoryRegion, MemoryRegionKind,
};
use kernel_memory::mapper::MapToError;
use kernel_memory::paging;
use kernel_memory::stack::{alloc_stack, reserve_stack_memory, stack_cursor, STACK_ALLOC_BASE};

fn frame(addr: u64) -> PhysFrame {
    PhysFrame::containing_address(PhysAddr::new(addr))
}

fn allocator(start: u64, end: u64) -> FrameAllocatorBootInfo {
    FrameAllocatorBootInfo::init(vec![
        MemoryRegion { start: 0, end: start, kind: MemoryRegionKind::Bootloader },
        MemoryRegion { start, end, kind: MemoryRegionKind::Usable },
    ])
}

#[test]
fn stack_area_starts_at_its_base() {
    assert_eq!(STACK_ALLOC_BASE, 0x5555_5555_0000);
    let mut cursor = stack_cursor();
    assert_eq!(cursor.next_address(), 0x5555_5555_0000);
    let first = reserve_stack_memory(&mut cursor, 5);
    assert_eq!(first.start_address().as_u64(), 0x5555_5555_0000);
    assert_eq!(cursor.next_address(), 0x5555_5555_5000);
}

#[test]
fn stack_of_four_pages_takes_five() {
    let mut mapper = paging::init(frame(0x1000), VirtAddr::new(0));
    let mut frames = allocator(0x100000, 0x200000);
    let mut cursor = stack_cursor();
    let bounds = alloc_stack(4, &mut cursor, &mut mapper, &mut frames).unwrap();
    assert_eq!(bounds.start().as_u64(), 0x5555_5555_1000);
    assert_eq!(bounds.end().as_u64(), 0x5555_5555_5000);
    assert_eq!(bounds.end().as_u64() - bounds.start().as_u64(), 4 * 4096);
    assert_eq!(cursor.next_address(), 0x5555_5555_0000 + 5 * 4096);
}

#[test]
fn guard_page_stays_unmapped() {
    let mut mapper = paging::init(frame(0x1000), VirtAddr::new(0));
    let mut frames = allocator(0x100000, 0x200000);
    let mut cursor = stack_cursor();
    let bounds = alloc_stack(4, &mut cursor, &mut mapper, &mut frames).unwrap();
    let guard = bounds.start().as_u64() - 4096;
    assert_eq!(guard, 0x5555_5555_0000);
    assert!(mapper.translate_addr(VirtAddr::new(guard)).is_none());
    assert!(mapper.translate_addr(VirtAddr::new(guard + 4095)).is_none());
    // the page above the stack is the guard page of the next stack
    assert!(mapper.translate_addr(VirtAddr::new(bounds.end().as_u64())).is_none());
    let next = alloc_stack(1, &mut cursor, &mut mapper, &mut frames).unwrap();
    assert_eq!(next.start().as_u64(), 0x5555_5555_6000);
    assert!(mapper.translate_addr(VirtAddr::new(0x5555_5555_5000)).is_none());
    assert!(mapper.translate_addr(VirtAddr::new(guard)).is_none());
}

#[test]
fn stack_pages_are_backed_by_fresh_frames() {
    let mut mapper = paging::init(frame(0x1000), VirtAddr::new(0));
    let mut frames = allocator(0x100000, 0x200000);
    let mut cursor = stack_cursor();
    let bounds = alloc_stack(4, &mut cursor, &mut mapper, &mut frames).unwrap();
    // first page: its frame is taken before the three tables
    let expected = [0x100000u64, 0x104000, 0x105000, 0x106000];
    for (i, frame) in expected.iter().enumerate() {
        let addr = bounds.start().as_u64() + i as u64 * 4096 + 0x10;
        assert_eq!(mapper.translate_addr(VirtAddr::new(addr)).unwrap().as_u64(), frame + 0x10);
    }
    assert_eq!(frames.allocate_frame().unwrap().start_address().as_u64(), 0x107000);
}

#[test]
fn empty_stack_maps_nothing() {
    let mut mapper = paging::init(frame(0x1000), VirtAddr::new(0));
    let mut frames = allocator(0x100000, 0x200000);
    let mut cursor = stack_cursor();
    let bounds = alloc_stack(0, &mut cursor, &mut mapper, &mut frames).unwrap();
    assert_eq!(bounds.start().as_u64(), 0x5555_5555_1000);
    assert_eq!(bounds.end().as_u64(), 0x5555_5555_1000);
    assert_eq!(cursor.next_address(), 0x5555_5555_1000);
    assert_eq!(frames.allocate_frame().unwrap().start_address().as_u64(), 0x100000);
}

#[test]
fn stack_without_frames_fails_and_keeps_what_it_mapped() {
    let mut mapper = paging::init(frame(0x1000), VirtAddr::new(0));
    // frames for the first page and its tables, and for the second page
    let mut frames = allocator(0x100000, 0x105000);
    let mut cursor = stack_cursor();
    match alloc_stack(4, &mut cursor, &mut mapper, &mut frames) {
        Err(MapToError::FrameAllocationFailed) => {}
        other => panic!("{:?}", other),
    }
    assert_eq!(cursor.next_address(), 0x5555_5555_5000);
    assert!(mapper.translate_addr(VirtAddr::new(0x5555_5555_0000)).is_none());
    assert_eq!(mapper.translate_addr(VirtAddr::new(0x5555_5555_1000)).unwrap().as_u64(), 0x100000);
    assert_eq!(mapper.translate_addr(VirtAddr::new(0x5555_5555_2000)).unwrap().as_u64(), 0x104000);
    assert!(mapper.translate_addr(VirtAddr::new(0x5555_5555_3000)).is_none());
}
