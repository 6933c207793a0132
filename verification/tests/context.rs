use kernel_memory::addr::{Page, PhysAddr, PhysFrame, VirtAddr};
use kernel_memory::frame_allocator_bootinfo::{MemoryRegion, MemoryRegionKind};
use kernel_memory::page_table::{PageTableFlags, PRESENT, WRITABLE};
use kernel_memory::stack::{alloc_stack, stack_cursor};
use kernel_memory::vga::Pixel;
use kernel_memory::{
    boot_info_is_valid, init_allocator, with_mapper_and_allocator, MemoryContext, SendWrapper,
};

fn frame(addr: u64) -> PhysFrame {
    PhysFrame::containing_address(PhysAddr::new(addr))
}

fn memory_map() -> Vec<MemoryRegion> {
    vec![
        MemoryRegion { start: 0, end: 0x100000, kind: MemoryRegionKind::Bootloader },
        MemoryRegion { start: 0x100000, end: 0x200000, kind: MemoryRegionKind::Usable },
    ]
}

#[test]
fn boot_info_is_checked() {
    assert!(boot_info_is_valid(&memory_map(), frame(0x1000)));
    // the top-level table lies in a usable region
    assert!(!boot_info_is_valid(&memory_map(), frame(0x100000)));
    assert!(!boot_info_is_valid(&memory_map(), frame(0x1ff000)));
    assert!(boot_info_is_valid(&memory_map(), frame(0x200000)));
    let mut overlapping = memory_map();
    overlapping.push(MemoryRegion {
        start: 0x1ff000,
        end: 0x201000,
        kind: MemoryRegionKind::Usable,
    });
    assert!(!boot_info_is_valid(&overlapping, frame(0x1000)));
    let mut beyond = memory_map();
    beyond.push(MemoryRegion {
        start: 0x0010_0000_0000_0000,
        end: 0x0010_0000_0000_1000,
        kind: MemoryRegionKind::Usable,
    });
    assert!(!boot_info_is_valid(&beyond, frame(0x1000)));
}

#[test]
fn context_is_empty_until_set_up() {
    let mut context = MemoryContext::new();
    assert!(!context.is_initialized());
    init_allocator(&mut context, memory_map(), frame(0x1000), VirtAddr::new(0x1000_0000));
    assert!(context.is_initialized());
    let first = with_mapper_and_allocator(&mut context, |mapper, frames| {
        assert_eq!(mapper.level_4_frame().start_address().as_u64(), 0x1000);
        assert_eq!(mapper.phys_offset().as_u64(), 0x1000_0000);
        frames.allocate_frame().unwrap().start_address().as_u64()
    });
    assert_eq!(first, 0x100000);
    let (_, frames) = context.mapper_and_allocator();
    assert_eq!(frames.allocate_frame().unwrap().start_address().as_u64(), 0x101000);
}

#[test]
fn changes_through_the_context_last() {
    let mut context = MemoryContext::new();
    init_allocator(&mut context, memory_map(), frame(0x1000), VirtAddr::new(0));
    with_mapper_and_allocator(&mut context, |mapper, frames| {
        let page = Page::containing_address(VirtAddr::new(0x4000_0000));
        let flags = PageTableFlags::from_bits_truncate(PRESENT | WRITABLE);
        mapper.map_to(page, frame(0x5000), flags, frames).unwrap().ignore();
    });
    let phys = with_mapper_and_allocator(&mut context, |mapper, _| {
        mapper.translate_addr(VirtAddr::new(0x4000_0123)).unwrap().as_u64()
    });
    assert_eq!(phys, 0x5123);
    let next = with_mapper_and_allocator(&mut context, |_, frames| {
        frames.allocate_frame().unwrap().start_address().as_u64()
    });
    assert_eq!(next, 0x103000);
}

#[test]
fn second_set_up_replaces_the_first() {
    let mut context = MemoryContext::new();
    init_allocator(&mut context, memory_map(), frame(0x1000), VirtAddr::new(0));
    with_mapper_and_allocator(&mut context, |mapper, frames| {
        let mut cursor = stack_cursor();
        alloc_stack(2, &mut cursor, mapper, frames).unwrap();
        assert!(mapper.translate_addr(VirtAddr::new(0x5555_5555_1000)).is_some());
    });
    init_allocator(&mut context, memory_map(), frame(0x2000), VirtAddr::new(0));
    with_mapper_and_allocator(&mut context, |mapper, frames| {
        assert_eq!(mapper.level_4_frame().start_address().as_u64(), 0x2000);
        assert!(mapper.translate_addr(VirtAddr::new(0x5555_5555_1000)).is_none());
        assert_eq!(frames.allocate_frame().unwrap().start_address().as_u64(), 0x100000);
    });
}

#[test]
fn wrapper_gives_its_value() {
    let mut wrapper = SendWrapper(7u32);
    assert_eq!(*wrapper.deref(), 7);
    *wrapper.deref_mut() = 9;
    assert_eq!(wrapper.0, 9);
}

#[test]
fn pixels_compare_by_colour() {
    let white = Pixel { red: 0xff, green: 0xff, blue: 0xff };
    let black = Pixel { red: 0, green: 0, blue: 0 };
    assert_eq!(white, Pixel { red: 255, green: 255, blue: 255 });
    assert_ne!(white, black);
}
