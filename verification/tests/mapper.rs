use kernel_memory::addr::{Page, PhysAddr, PhysFrame, VirtAddr};
use kernel_memory::frame_allocator_bootinfo::{
    FrameAllocatorBootInfo, MemoryRegion, MemoryRegionKind,
};
use kernel_memory::mapper::{AddressSpaceMapper, MapToError, UnmapError};
use kernel_memory::page_table::{PageTableFlags, PRESENT, WRITABLE};
use kernel_memory::paging;
use kernel_memory::translate_address;

fn frame(addr: u64) -> PhysFrame {
    PhysFrame::containing_address(PhysAddr::new(addr))
}

fn page(addr: u64) -> Page {
    Page::containing_address(VirtAddr::new(addr))
}

fn writable() -> PageTableFlags {
    PageTableFlags::from_bits_truncate(PRESENT | WRITABLE)
}

fn allocator(start: u64, end: u64) -> FrameAllocatorBootInfo {
    FrameAllocatorBootInfo::init(vec![
        MemoryRegion { start: 0, end: start, kind: MemoryRegionKind::Bootloader },
        MemoryRegion { start, end, kind: MemoryRegionKind::Usable },
    ])
}

fn mapper() -> AddressSpaceMapper {
    paging::init(frame(0x1000), VirtAddr::new(0xffff_8000_0000_0000))
}

#[test]
fn fresh_mapper_maps_nothing() {
    let mapper = mapper();
    assert_eq!(mapper.level_4_frame().start_address().as_u64(), 0x1000);
    assert_eq!(mapper.phys_offset().as_u64(), 0xffff_8000_0000_0000);
    assert!(mapper.translate_addr(VirtAddr::new(0)).is_none());
    assert!(mapper.translate_addr(VirtAddr::new(0x5555_5555_0000)).is_none());
    assert!(mapper.translate_addr(VirtAddr::new(0xffff_ffff_ffff_ffff)).is_none());
}

#[test]
fn mapped_page_resolves_at_every_offset() {
    let mut mapper = mapper();
    let mut frames = allocator(0x100000, 0x200000);
    let flush = mapper
        .map_to(page(0x4000_0000), frame(0x5000), writable(), &mut frames)
        .unwrap();
    assert_eq!(flush.page().start_address().as_u64(), 0x4000_0000);
    flush.ignore();
    for k in [0u64, 1, 8, 0x123, 0xfff] {
        let phys = mapper.translate_addr(VirtAddr::new(0x4000_0000 + k)).unwrap();
        assert_eq!(phys.as_u64(), 0x5000 + k);
        let phys = translate_address(
            mapper.memory(),
            mapper.level_4_frame(),
            VirtAddr::new(0x4000_0000 + k),
        )
        .unwrap();
        assert_eq!(phys.as_u64(), 0x5000 + k);
    }
    assert!(mapper.translate_addr(VirtAddr::new(0x4000_1000)).is_none());
    assert!(mapper.translate_addr(VirtAddr::new(0x3fff_ffff)).is_none());
}

#[test]
fn first_mapping_takes_three_table_frames() {
    let mut mapper = mapper();
    let mut frames = allocator(0x100000, 0x200000);
    mapper.map_to(page(0x4000_0000), frame(0x5000), writable(), &mut frames).unwrap().ignore();
    // three tables were taken: the next frame is the fourth
    assert_eq!(frames.allocate_frame().unwrap().start_address().as_u64(), 0x103000);
    // a neighbour page shares all tables
    mapper.map_to(page(0x4000_1000), frame(0x6000), writable(), &mut frames).unwrap().ignore();
    assert_eq!(frames.allocate_frame().unwrap().start_address().as_u64(), 0x104000);
    // a page under another level-2 entry needs one table
    mapper.map_to(page(0x4020_0000), frame(0x7000), writable(), &mut frames).unwrap().ignore();
    assert_eq!(frames.allocate_frame().unwrap().start_address().as_u64(), 0x106000);
    assert_eq!(mapper.translate_addr(VirtAddr::new(0x4000_0010)).unwrap().as_u64(), 0x5010);
    assert_eq!(mapper.translate_addr(VirtAddr::new(0x4000_1010)).unwrap().as_u64(), 0x6010);
    assert_eq!(mapper.translate_addr(VirtAddr::new(0x4020_0010)).unwrap().as_u64(), 0x7010);
}

#[test]
fn tables_are_linked_in_allocated_frames() {
    let mut mapper = mapper();
    let mut frames = allocator(0x100000, 0x200000);
    mapper.map_to(page(0x4000_0000), frame(0x5000), writable(), &mut frames).unwrap().ignore();
    let memory = mapper.memory();
    // 0x4000_0000: level-4 index 0, level-3 index 1, level-2 index 0, level-1 index 0
    let p3 = memory.entry_frame(frame(0x1000), 0).unwrap();
    assert_eq!(p3.start_address().as_u64(), 0x100000);
    assert_eq!(memory.entry_flags(frame(0x1000), 0).bits(), 3);
    let p2 = memory.entry_frame(p3, 1).unwrap();
    assert_eq!(p2.start_address().as_u64(), 0x101000);
    let p1 = memory.entry_frame(p2, 0).unwrap();
    assert_eq!(p1.start_address().as_u64(), 0x102000);
    assert_eq!(memory.entry_frame(p1, 0).unwrap().start_address().as_u64(), 0x5000);
    assert_eq!(memory.entry_flags(p1, 0).bits(), 3);
    assert!(memory.entry_is_unused(p1, 1));
}

#[test]
fn parent_tables_gain_the_parent_flags() {
    let mut mapper = mapper();
    let mut frames = allocator(0x100000, 0x200000);
    let present = PageTableFlags::from_bits_truncate(PRESENT | (1 << 63));
    mapper.map_to(page(0x4000_0000), frame(0x5000), present, &mut frames).unwrap().ignore();
    assert_eq!(mapper.memory().entry_flags(frame(0x1000), 0).bits(), 1);
    mapper.map_to(page(0x4000_1000), frame(0x6000), writable(), &mut frames).unwrap().ignore();
    assert_eq!(mapper.memory().entry_flags(frame(0x1000), 0).bits(), 3);
    assert_eq!(mapper.memory().entry_flags(frame(0x102000), 0).bits(), 1 | (1 << 63));
    assert_eq!(mapper.translate_addr(VirtAddr::new(0x4000_0000)).unwrap().as_u64(), 0x5000);
}

#[test]
fn mapped_page_cannot_be_mapped_again() {
    let mut mapper = mapper();
    let mut frames = allocator(0x100000, 0x200000);
    mapper.map_to(page(0x4000_0000), frame(0x5000), writable(), &mut frames).unwrap().ignore();
    match mapper.map_to(page(0x4000_0000), frame(0x6000), writable(), &mut frames) {
        Err(MapToError::PageAlreadyMapped(f)) => {
            assert_eq!(f.start_address().as_u64(), 0x6000)
        }
        other => panic!("{:?}", other),
    }
    assert_eq!(mapper.translate_addr(VirtAddr::new(0x4000_0000)).unwrap().as_u64(), 0x5000);
    assert_eq!(frames.allocate_frame().unwrap().start_address().as_u64(), 0x103000);
}

#[test]
fn mapping_fails_without_frames_for_tables() {
    let mut mapper = mapper();
    let mut frames = allocator(0x100000, 0x102000);
    match mapper.map_to(page(0x4000_0000), frame(0x5000), writable(), &mut frames) {
        Err(MapToError::FrameAllocationFailed) => {}
        other => panic!("{:?}", other),
    }
    assert!(mapper.translate_addr(VirtAddr::new(0x4000_0000)).is_none());
    assert!(frames.allocate_frame().is_none());
    // with one more frame at hand the same mapping succeeds: two tables stayed
    let mut more = allocator(0x200000, 0x201000);
    mapper.map_to(page(0x4000_0000), frame(0x5000), writable(), &mut more).unwrap().ignore();
    assert_eq!(mapper.translate_addr(VirtAddr::new(0x4000_0fff)).unwrap().as_u64(), 0x5fff);
}

#[test]
fn unmapped_page_does_not_resolve() {
    let mut mapper = mapper();
    let mut frames = allocator(0x100000, 0x200000);
    mapper.map_to(page(0x4000_0000), frame(0x5000), writable(), &mut frames).unwrap().ignore();
    mapper.map_to(page(0x4000_1000), frame(0x6000), writable(), &mut frames).unwrap().ignore();
    let (old, flush) = mapper.unmap(page(0x4000_0000)).unwrap();
    assert_eq!(old.start_address().as_u64(), 0x5000);
    assert_eq!(flush.page().start_address().as_u64(), 0x4000_0000);
    assert!(mapper.translate_addr(VirtAddr::new(0x4000_0000)).is_none());
    assert!(mapper.translate_addr(VirtAddr::new(0x4000_0fff)).is_none());
    assert_eq!(mapper.translate_addr(VirtAddr::new(0x4000_1000)).unwrap().as_u64(), 0x6000);
}

#[test]
fn page_that_is_not_mapped_cannot_be_unmapped() {
    let mut mapper = mapper();
    let mut frames = allocator(0x100000, 0x200000);
    assert_eq!(mapper.unmap(page(0x4000_0000)).unwrap_err(), UnmapError::PageNotMapped);
    mapper.map_to(page(0x4000_0000), frame(0x5000), writable(), &mut frames).unwrap().ignore();
    assert_eq!(mapper.unmap(page(0x4000_1000)).unwrap_err(), UnmapError::PageNotMapped);
    assert_eq!(mapper.unmap(page(0x8000_0000)).unwrap_err(), UnmapError::PageNotMapped);
    mapper.unmap(page(0x4000_0000)).unwrap().1.ignore();
    assert_eq!(mapper.unmap(page(0x4000_0000)).unwrap_err(), UnmapError::PageNotMapped);
}

#[test]
fn unmapped_page_can_be_mapped_again() {
    let mut mapper = mapper();
    let mut frames = allocator(0x100000, 0x200000);
    mapper.map_to(page(0x4000_0000), frame(0x5000), writable(), &mut frames).unwrap().ignore();
    mapper.unmap(page(0x4000_0000)).unwrap().1.ignore();
    mapper.map_to(page(0x4000_0000), frame(0x9000), writable(), &mut frames).unwrap().ignore();
    assert_eq!(mapper.translate_addr(VirtAddr::new(0x4000_0004)).unwrap().as_u64(), 0x9004);
    // the tables were kept: three frames in all
    assert_eq!(frames.allocate_frame().unwrap().start_address().as_u64(), 0x103000);
}

#[test]
fn upper_half_pages_are_mapped_too() {
    let mut mapper = mapper();
    let mut frames = allocator(0x100000, 0x200000);
    mapper
        .map_to(page(0xffff_ffff_ffff_f000), frame(0x5000), writable(), &mut frames)
        .unwrap()
        .ignore();
    assert_eq!(
        mapper.translate_addr(VirtAddr::new(0xffff_ffff_ffff_ffff)).unwrap().as_u64(),
        0x5fff
    );
    assert!(mapper.translate_addr(VirtAddr::new(0x0000_7fff_ffff_f000)).is_none());
}
