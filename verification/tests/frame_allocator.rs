use kernel_memory::frame_allocator_bootinfo::{
    map_yields_frame, memory_map_is_valid, regions_are_disjoint, FrameAllocatorBootInfo,
    MemoryRegion, MemoryRegionKind,
};
use kernel_memory::addr::{PhysAddr, PhysFrame};

fn region(start: u64, end: u64, kind: MemoryRegionKind) -> MemoryRegion {
    MemoryRegion { start, end, kind }
}

fn frame(addr: u64) -> PhysFrame {
    PhysFrame::containing_address(PhysAddr::new(addr))
}

#[test]
fn frames_come_from_the_usable_region() {
    let map = vec![
        region(0, 0x100000, MemoryRegionKind::Bootloader),
        region(0x100000, 0x200000, MemoryRegionKind::Usable),
    ];
    assert!(memory_map_is_valid(&map));
    let mut allocator = FrameAllocatorBootInfo::init(map);
    assert_eq!(allocator.allocate_frame().unwrap().start_address().as_u64(), 0x100000);
    assert_eq!(allocator.allocate_frame().unwrap().start_address().as_u64(), 0x101000);
    for i in 2..256u64 {
        let frame = allocator.allocate_frame().unwrap();
        assert_eq!(frame.start_address().as_u64(), 0x100000 + i * 4096);
    }
    assert!(allocator.allocate_frame().is_none());
    assert!(allocator.allocate_frame().is_none());
}

#[test]
fn regions_are_walked_in_map_order() {
    let map = vec![
        region(0x8000, 0xa000, MemoryRegionKind::Usable),
        region(0xa000, 0xc000, MemoryRegionKind::UnknownBios(2)),
        region(0x2000, 0x3000, MemoryRegionKind::Usable),
        region(0x5000, 0x5000, MemoryRegionKind::Usable),
        region(0x20000, 0x21000, MemoryRegionKind::UnknownUefi(7)),
    ];
    let mut allocator = FrameAllocatorBootInfo::init(map);
    assert_eq!(allocator.usable_frame(2).unwrap().start_address().as_u64(), 0x2000);
    assert!(allocator.usable_frame(3).is_none());
    assert_eq!(allocator.allocate_frame().unwrap().start_address().as_u64(), 0x8000);
    assert_eq!(allocator.allocate_frame().unwrap().start_address().as_u64(), 0x9000);
    assert_eq!(allocator.allocate_frame().unwrap().start_address().as_u64(), 0x2000);
    assert!(allocator.allocate_frame().is_none());
}

#[test]
fn unaligned_region_yields_the_frames_of_its_steps() {
    // steps at 0x1800 and 0x2800, both below the end 0x2900
    let map = vec![region(0x1800, 0x2900, MemoryRegionKind::Usable)];
    let mut allocator = FrameAllocatorBootInfo::init(map);
    assert_eq!(allocator.allocate_frame().unwrap().start_address().as_u64(), 0x1000);
    assert_eq!(allocator.allocate_frame().unwrap().start_address().as_u64(), 0x2000);
    assert!(allocator.allocate_frame().is_none());
}

#[test]
fn empty_map_yields_nothing() {
    let mut allocator = FrameAllocatorBootInfo::init(Vec::new());
    assert!(allocator.usable_frame(0).is_none());
    assert!(allocator.allocate_frame().is_none());
}

#[test]
fn map_beyond_physical_memory_is_invalid() {
    let map = vec![region(0x000f_ffff_ffff_f000, 0x0010_0000_0000_1000, MemoryRegionKind::Usable)];
    assert!(!memory_map_is_valid(&map));
    let map = vec![region(0x000f_ffff_ffff_f000, 0x0010_0000_0000_0000, MemoryRegionKind::Usable)];
    assert!(memory_map_is_valid(&map));
    let map = vec![region(0, 0xffff_ffff_ffff_0000, MemoryRegionKind::Bootloader)];
    assert!(memory_map_is_valid(&map));
}

#[test]
fn overlapping_regions_are_found() {
    let apart = vec![
        region(0x1000, 0x3000, MemoryRegionKind::Usable),
        region(0x3000, 0x4000, MemoryRegionKind::Usable),
        region(0x0000, 0x8000, MemoryRegionKind::Bootloader),
    ];
    assert!(regions_are_disjoint(&apart));
    let overlapping = vec![
        region(0x0000, 0x2000, MemoryRegionKind::Usable),
        region(0x1000, 0x3000, MemoryRegionKind::Usable),
    ];
    assert!(!regions_are_disjoint(&overlapping));
    // different addresses, same frame
    let sharing = vec![
        region(0x1000, 0x1800, MemoryRegionKind::Usable),
        region(0x1800, 0x2000, MemoryRegionKind::Usable),
    ];
    assert!(!regions_are_disjoint(&sharing));
}

#[test]
fn overlapping_regions_repeat_a_frame() {
    let overlapping = vec![
        region(0x0000, 0x2000, MemoryRegionKind::Usable),
        region(0x1000, 0x3000, MemoryRegionKind::Usable),
    ];
    let mut allocator = FrameAllocatorBootInfo::init(overlapping);
    assert_eq!(allocator.allocate_frame().unwrap().start_address().as_u64(), 0x0000);
    assert_eq!(allocator.allocate_frame().unwrap().start_address().as_u64(), 0x1000);
    assert_eq!(allocator.allocate_frame().unwrap().start_address().as_u64(), 0x1000);
    assert_eq!(allocator.allocate_frame().unwrap().start_address().as_u64(), 0x2000);
}

#[test]
fn frames_of_the_map_are_recognised() {
    let map = vec![
        region(0x1000, 0x3000, MemoryRegionKind::Usable),
        region(0x8800, 0x9000, MemoryRegionKind::Usable),
        region(0x20000, 0x30000, MemoryRegionKind::Bootloader),
    ];
    assert!(map_yields_frame(&map, frame(0x1000)));
    assert!(map_yields_frame(&map, frame(0x2000)));
    assert!(!map_yields_frame(&map, frame(0x3000)));
    assert!(map_yields_frame(&map, frame(0x8000)));
    assert!(!map_yields_frame(&map, frame(0x9000)));
    assert!(!map_yields_frame(&map, frame(0x20000)));
    assert!(!map_yields_frame(&map, frame(0)));
}

#[test]
fn no_frame_is_issued_twice() {
    let map = vec![
        region(0x10000, 0x18000, MemoryRegionKind::Usable),
        region(0x40000, 0x44000, MemoryRegionKind::Usable),
    ];
    assert!(regions_are_disjoint(&map));
    let mut allocator = FrameAllocatorBootInfo::init(map);
    let mut seen: Vec<u64> = Vec::new();
    while let Some(frame) = allocator.allocate_frame() {
        let start = frame.start_address().as_u64();
        assert!(!seen.contains(&start));
        assert!((0x10000..0x18000).contains(&start) || (0x40000..0x44000).contains(&start));
        seen.push(start);
    }
    assert_eq!(seen.len(), 12);
}
