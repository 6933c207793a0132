use kernel_memory::addr::{Page, PhysAddr, PhysFrame, VirtAddr};
use kernel_memory::allocator::init_heap;
use kernel_memory::backing::map_fresh_pages;
use kernel_memory::frame_allocator_bootinfo::{
    FrameAllocatorBootInfo, MemoryRegion, MemoryRegionKind,
};
use kernel_memory::mapper::MapToError;
use kernel_memory::page_table::{PageTableFlags, PRESENT};
use kernel_memory::paging;

fn frame(addr: u64) -> PhysFrame {
    PhysFrame::containing_address(PhysAddr::new(addr))
}

fn page(addr: u64) -> Page {
    Page::containing_address(VirtAddr::new(addr))
}

fn allocator(start: u64, end: u64) -> FrameAllocatorBootInfo {
    FrameAllocatorBootInfo::init(vec![
        MemoryRegion { start: 0, end: start, kind: MemoryRegionKind::Bootloader },
        MemoryRegion { start, end, kind: MemoryRegionKind::Usable },
    ])
}

#[test]
fn heap_pages_are_backed_in_order() {
    let mut mapper = paging::init(frame(0x1000), VirtAddr::new(0));
    let mut frames = allocator(0x100000, 0x200000);
    init_heap(page(0x4444_4444_0000), 3, &mut mapper, &mut frames).unwrap();
    // the frame of the first page is taken before its three tables
    let expected = [0x100000u64, 0x104000, 0x105000];
    for (i, frame) in expected.iter().enumerate() {
        let addr = 0x4444_4444_0000 + i as u64 * 4096 + 0x7f8;
        assert_eq!(mapper.translate_addr(VirtAddr::new(addr)).unwrap().as_u64(), frame + 0x7f8);
    }
    assert!(mapper.translate_addr(VirtAddr::new(0x4444_4444_3000)).is_none());
    assert!(mapper.translate_addr(VirtAddr::new(0x4444_4443_f000)).is_none());
    assert_eq!(frames.allocate_frame().unwrap().start_address().as_u64(), 0x106000);
}

#[test]
fn run_across_a_table_boundary_takes_a_table_more() {
    let mut mapper = paging::init(frame(0x1000), VirtAddr::new(0));
    let mut frames = allocator(0x100000, 0x200000);
    // the last page of one level-1 table and the first page of the next
    map_fresh_pages(page(0x4000_0000 + 511 * 4096), 2, &mut mapper, &mut frames).unwrap();
    // 1 + 3 frames for the first page, 1 + 1 for the second
    assert_eq!(frames.allocate_frame().unwrap().start_address().as_u64(), 0x106000);
    assert_eq!(
        mapper.translate_addr(VirtAddr::new(0x4000_0000 + 511 * 4096)).unwrap().as_u64(),
        0x100000
    );
    assert_eq!(
        mapper.translate_addr(VirtAddr::new(0x4000_0000 + 512 * 4096)).unwrap().as_u64(),
        0x104000
    );
}

#[test]
fn run_needs_exactly_its_frames() {
    // three pages under one new table path: 3 + 3 frames
    let mut mapper = paging::init(frame(0x1000), VirtAddr::new(0));
    let mut enough = allocator(0x100000, 0x106000);
    assert!(map_fresh_pages(page(0x4000_0000), 3, &mut mapper, &mut enough).is_ok());
    assert!(enough.allocate_frame().is_none());

    let mut mapper = paging::init(frame(0x1000), VirtAddr::new(0));
    let mut short = allocator(0x100000, 0x105000);
    match map_fresh_pages(page(0x4000_0000), 3, &mut mapper, &mut short) {
        Err(MapToError::FrameAllocationFailed) => {}
        other => panic!("{:?}", other),
    }
    assert!(mapper.translate_addr(VirtAddr::new(0x4000_1000)).is_some());
    assert!(mapper.translate_addr(VirtAddr::new(0x4000_2000)).is_none());
}

#[test]
fn run_stops_at_a_mapped_page() {
    let mut mapper = paging::init(frame(0x1000), VirtAddr::new(0));
    let mut frames = allocator(0x100000, 0x200000);
    let flags = PageTableFlags::from_bits_truncate(PRESENT);
    mapper.map_to(page(0x4000_2000), frame(0x5000), flags, &mut frames).unwrap().ignore();
    match map_fresh_pages(page(0x4000_0000), 4, &mut mapper, &mut frames) {
        // the frame taken for the page that was mapped already
        Err(MapToError::PageAlreadyMapped(f)) => {
            assert_eq!(f.start_address().as_u64(), 0x105000)
        }
        other => panic!("{:?}", other),
    }
    assert_eq!(mapper.translate_addr(VirtAddr::new(0x4000_0000)).unwrap().as_u64(), 0x103000);
    assert_eq!(mapper.translate_addr(VirtAddr::new(0x4000_1000)).unwrap().as_u64(), 0x104000);
    assert_eq!(mapper.translate_addr(VirtAddr::new(0x4000_2000)).unwrap().as_u64(), 0x5000);
    assert!(mapper.translate_addr(VirtAddr::new(0x4000_3000)).is_none());
    assert_eq!(frames.allocate_frame().unwrap().start_address().as_u64(), 0x106000);
}
