use kernel_memory::acpi::{self, Handler, PhysicalMapping, WINDOW_ALLOC_BASE};
use kernel_memory::addr::{Page, PhysAddr, PhysFrame, VirtAddr};
use kernel_memory::frame_allocator_bootinfo::{
    FrameAllocatorBootInfo, MemoryRegion, MemoryRegionKind,
};
use kernel_memory::mapper::{MapToError, UnmapError};
use kernel_memory::page_table::{PageTableFlags, PRESENT};
use kernel_memory::paging;

fn frame(addr: u64) -> PhysFrame {
    PhysFrame::containing_address(PhysAddr::new(addr))
}

fn allocator(start: u64, end: u64) -> FrameAllocatorBootInfo {
    FrameAllocatorBootInfo::init(vec![
        MemoryRegion { start: 0, end: start, kind: MemoryRegionKind::Bootloader },
        MemoryRegion { start, end, kind: MemoryRegionKind::Usable },
    ])
}

#[test]
fn window_area_starts_at_its_base() {
    assert_eq!(WINDOW_ALLOC_BASE, 0x6969_5555_0000);
    let handler = acpi::init(VirtAddr::new(0xffff_8000_0000_0000));
    assert_eq!(handler.next_window_address(), 0x6969_5555_0000);
}

#[test]
fn window_shows_the_bytes_of_the_region() {
    let mut mapper = paging::init(frame(0x1000), VirtAddr::new(0));
    let mut frames = allocator(0x100000, 0x200000);
    let mut handler = Handler::new(VirtAddr::new(0));
    let mapping =
        handler.map_physical_region(&mut mapper, &mut frames, 0xfee0_0e24, 0x2000).unwrap();
    assert_eq!(mapping.physical_start(), 0xfee0_0000);
    assert_eq!(mapping.virtual_start().as_u64(), 0x6969_5555_0e24);
    assert_eq!(mapping.region_length(), 0x2000);
    // frames 0xfee00000, 0xfee01000 and 0xfee02000
    assert_eq!(handler.next_window_address(), 0x6969_5555_3000);
    for k in [0u64, 1, 0x1db, 0x1dc, 0x1000, 0x1fff] {
        let addr = VirtAddr::new(mapping.virtual_start().as_u64() + k);
        assert_eq!(mapper.translate_addr(addr).unwrap().as_u64(), 0xfee0_0e24 + k);
    }
    assert_eq!(
        mapper.translate_addr(VirtAddr::new(0x6969_5555_0000)).unwrap().as_u64(),
        0xfee0_0000
    );
    assert!(mapper.translate_addr(VirtAddr::new(0x6969_5555_3000)).is_none());
    assert!(mapper.translate_addr(VirtAddr::new(0x6969_5554_f000)).is_none());
}

#[test]
fn aligned_window_takes_the_frame_at_its_end_too() {
    let mut mapper = paging::init(frame(0x1000), VirtAddr::new(0));
    let mut frames = allocator(0x100000, 0x200000);
    let mut handler = Handler::new(VirtAddr::new(0));
    let mapping = handler.map_physical_region(&mut mapper, &mut frames, 0x8000, 0x1000).unwrap();
    assert_eq!(mapping.virtual_start().as_u64(), 0x6969_5555_0000);
    assert_eq!(handler.next_window_address(), 0x6969_5555_2000);
    assert_eq!(mapper.translate_addr(VirtAddr::new(0x6969_5555_1008)).unwrap().as_u64(), 0x9008);
    let small = handler.map_physical_region(&mut mapper, &mut frames, 0x8010, 0).unwrap();
    assert_eq!(small.virtual_start().as_u64(), 0x6969_5555_2010);
    assert_eq!(small.physical_start(), 0x8000);
    assert_eq!(handler.next_window_address(), 0x6969_5555_3000);
}

#[test]
fn windows_do_not_overlap() {
    let mut mapper = paging::init(frame(0x1000), VirtAddr::new(0));
    let mut frames = allocator(0x100000, 0x200000);
    let mut handler = Handler::new(VirtAddr::new(0));
    let first = handler.map_physical_region(&mut mapper, &mut frames, 0xe0000, 0x24).unwrap();
    let second = handler.map_physical_region(&mut mapper, &mut frames, 0xe0000, 0x24).unwrap();
    assert_eq!(first.virtual_start().as_u64(), 0x6969_5555_0000);
    assert_eq!(second.virtual_start().as_u64(), 0x6969_5555_1000);
    assert_eq!(mapper.translate_addr(first.virtual_start()).unwrap().as_u64(), 0xe0000);
    assert_eq!(mapper.translate_addr(second.virtual_start()).unwrap().as_u64(), 0xe0000);
}

#[test]
fn closed_window_does_not_resolve() {
    let mut mapper = paging::init(frame(0x1000), VirtAddr::new(0));
    let mut frames = allocator(0x100000, 0x200000);
    let mut handler = Handler::new(VirtAddr::new(0));
    let kept = handler.map_physical_region(&mut mapper, &mut frames, 0x7000, 8).unwrap();
    let mapping =
        handler.map_physical_region(&mut mapper, &mut frames, 0xfee0_0e24, 0x2000).unwrap();
    Handler::unmap_physical_region(&mut mapper, &mapping).unwrap();
    for page in 0..3u64 {
        let addr = 0x6969_5555_1000 + page * 4096;
        assert!(mapper.translate_addr(VirtAddr::new(addr)).is_none());
        assert!(mapper.translate_addr(VirtAddr::new(addr + 4095)).is_none());
    }
    assert_eq!(mapper.translate_addr(kept.virtual_start()).unwrap().as_u64(), 0x7000);
    assert_eq!(
        Handler::unmap_physical_region(&mut mapper, &mapping).unwrap_err(),
        UnmapError::PageNotMapped
    );
}

#[test]
fn window_that_was_never_opened_cannot_be_closed() {
    let mut mapper = paging::init(frame(0x1000), VirtAddr::new(0));
    let mapping = PhysicalMapping::new(0x8000, VirtAddr::new(0x6969_5555_0010), 0x20);
    assert_eq!(
        Handler::unmap_physical_region(&mut mapper, &mapping).unwrap_err(),
        UnmapError::PageNotMapped
    );
}

#[test]
fn window_over_a_mapped_page_fails() {
    let mut mapper = paging::init(frame(0x1000), VirtAddr::new(0));
    let mut frames = allocator(0x100000, 0x200000);
    let taken = Page::containing_address(VirtAddr::new(0x6969_5555_1000));
    let flags = PageTableFlags::from_bits_truncate(PRESENT);
    mapper.map_to(taken, frame(0x5000), flags, &mut frames).unwrap().ignore();
    let mut handler = Handler::new(VirtAddr::new(0));
    match handler.map_physical_region(&mut mapper, &mut frames, 0x8000, 0x1800) {
        Err(MapToError::PageAlreadyMapped(f)) => {
            assert_eq!(f.start_address().as_u64(), 0x9000)
        }
        other => panic!("{:?}", other),
    }
    // the first page of the window stays mapped
    assert_eq!(mapper.translate_addr(VirtAddr::new(0x6969_5555_0000)).unwrap().as_u64(), 0x8000);
    assert_eq!(mapper.translate_addr(VirtAddr::new(0x6969_5555_1000)).unwrap().as_u64(), 0x5000);
    assert_eq!(handler.next_window_address(), 0x6969_5555_2000);
}

#[test]
fn window_without_frames_for_tables_fails() {
    let mut mapper = paging::init(frame(0x1000), VirtAddr::new(0));
    let mut frames = allocator(0x100000, 0x102000);
    let mut handler = Handler::new(VirtAddr::new(0));
    match handler.map_physical_region(&mut mapper, &mut frames, 0x8000, 0x10) {
        Err(MapToError::FrameAllocationFailed) => {}
        other => panic!("{:?}", other),
    }
    assert!(mapper.translate_addr(VirtAddr::new(0x6969_5555_0000)).is_none());
}
