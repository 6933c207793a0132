use kernel_memory::addr::{PhysAddr, PhysFrame, VirtAddr};
use kernel_memory::page_table::{
    FrameError, PageTableFlags, TableMemory, HUGE_PAGE, PRESENT, USER_ACCESSIBLE, WRITABLE,
};
use kernel_memory::{translate_address, try_translate_address, TranslateError};

fn frame(addr: u64) -> PhysFrame {
    PhysFrame::containing_address(PhysAddr::new(addr))
}

fn flags(bits: u64) -> PageTableFlags {
    PageTableFlags::from_bits_truncate(bits)
}

/// Tables that map the page at 0x0000_1234_5678_9000 to the frame at 0x7000.
fn one_mapping() -> (TableMemory, PhysFrame) {
    let mut memory = TableMemory::new();
    let root = frame(0x1000);
    memory.set_entry(root, 0x24, frame(0x2000), flags(PRESENT | WRITABLE));
    memory.set_entry(frame(0x2000), 0xd1, frame(0x3000), flags(PRESENT | WRITABLE));
    memory.set_entry(frame(0x3000), 0xb3, frame(0x4000), flags(PRESENT | WRITABLE));
    memory.set_entry(frame(0x4000), 0x189, frame(0x7000), flags(PRESENT));
    (memory, root)
}

#[test]
fn flags_drop_address_bits() {
    assert_eq!(flags(0xffff_ffff_ffff_ffff).bits(), 0xfff0_0000_0000_0fff);
    assert_eq!(flags(PRESENT | WRITABLE).bits(), 3);
    assert!(flags(7).contains(flags(5)));
    assert!(!flags(5).contains(flags(7)));
    assert_eq!(flags(5).union(flags(0x82)).bits(), 0x87);
    assert_eq!(flags(0x87).intersection(flags(7)).bits(), 7);
}

#[test]
fn empty_memory_reads_as_zero() {
    let memory = TableMemory::new();
    assert!(memory.entry_is_unused(frame(0x5000), 0));
    assert!(memory.entry_is_unused(frame(0x5000), 511));
    assert_eq!(memory.entry_flags(frame(0x5000), 3).bits(), 0);
    assert_eq!(memory.entry_frame(frame(0x5000), 3).unwrap_err(), FrameError::FrameNotPresent);
}

#[test]
fn entries_hold_address_and_flags() {
    let mut memory = TableMemory::new();
    let table = frame(0x5000);
    memory.set_entry(table, 7, frame(0xabc000), flags(PRESENT | USER_ACCESSIBLE));
    assert!(!memory.entry_is_unused(table, 7));
    assert!(memory.entry_is_unused(table, 6));
    assert!(memory.entry_is_unused(table, 8));
    assert_eq!(memory.entry_flags(table, 7).bits(), 5);
    assert_eq!(memory.entry_frame(table, 7).unwrap().start_address().as_u64(), 0xabc000);
    // another table is not touched
    assert!(memory.entry_is_unused(frame(0x6000), 7));
}

#[test]
fn entry_without_present_flag_has_no_frame() {
    let mut memory = TableMemory::new();
    let table = frame(0x5000);
    memory.set_entry(table, 1, frame(0x9000), flags(WRITABLE));
    assert!(!memory.entry_is_unused(table, 1));
    assert_eq!(memory.entry_frame(table, 1).unwrap_err(), FrameError::FrameNotPresent);
}

#[test]
fn huge_entry_has_no_frame() {
    let mut memory = TableMemory::new();
    let table = frame(0x5000);
    memory.set_entry(table, 1, frame(0x20_0000), flags(PRESENT | HUGE_PAGE));
    assert_eq!(memory.entry_frame(table, 1).unwrap_err(), FrameError::HugeFrame);
}

#[test]
fn flags_are_replaced_and_address_kept() {
    let mut memory = TableMemory::new();
    let table = frame(0x5000);
    memory.set_entry(table, 9, frame(0x9000), flags(PRESENT));
    memory.set_entry_flags(table, 9, flags(PRESENT | WRITABLE | (1 << 63)));
    assert_eq!(memory.entry_flags(table, 9).bits(), 3 | (1 << 63));
    assert_eq!(memory.entry_frame(table, 9).unwrap().start_address().as_u64(), 0x9000);
}

#[test]
fn cleared_entry_is_unused() {
    let mut memory = TableMemory::new();
    let table = frame(0x5000);
    memory.set_entry(table, 9, frame(0x9000), flags(PRESENT));
    memory.set_entry(table, 10, frame(0xa000), flags(PRESENT));
    memory.clear_entry(table, 9);
    assert!(memory.entry_is_unused(table, 9));
    assert_eq!(memory.entry_frame(table, 10).unwrap().start_address().as_u64(), 0xa000);
}

#[test]
fn zeroed_table_has_no_entries() {
    let mut memory = TableMemory::new();
    let table = frame(0x5000);
    memory.set_entry(table, 9, frame(0x9000), flags(PRESENT));
    memory.set_entry(frame(0x6000), 9, frame(0x9000), flags(PRESENT));
    memory.zero_table(table);
    assert!(memory.entry_is_unused(table, 9));
    assert!(!memory.entry_is_unused(frame(0x6000), 9));
}

#[test]
fn walk_adds_the_page_offset() {
    let (memory, root) = one_mapping();
    let phys = translate_address(&memory, root, VirtAddr::new(0x0000_1234_5678_9abc));
    assert_eq!(phys.unwrap().as_u64(), 0x7abc);
    let phys = translate_address(&memory, root, VirtAddr::new(0x0000_1234_5678_9000));
    assert_eq!(phys.unwrap().as_u64(), 0x7000);
    let phys = try_translate_address(&memory, root, VirtAddr::new(0x0000_1234_5678_9fff));
    assert_eq!(phys.unwrap().as_u64(), 0x7fff);
}

#[test]
fn walk_stops_at_absent_entries() {
    let (memory, root) = one_mapping();
    // next page: level-1 entry absent
    assert!(translate_address(&memory, root, VirtAddr::new(0x0000_1234_5678_a000)).is_none());
    // other level-4 entry
    assert!(translate_address(&memory, root, VirtAddr::new(0x0000_0234_5678_9abc)).is_none());
    assert_eq!(
        try_translate_address(&memory, root, VirtAddr::new(0)).unwrap_err(),
        TranslateError::AddressNotPresent
    );
    // another top-level table
    assert!(translate_address(&memory, frame(0x2000), VirtAddr::new(0x0000_1234_5678_9abc))
        .is_none());
}

#[test]
fn walk_reports_huge_pages() {
    let (mut memory, root) = one_mapping();
    memory.set_entry(frame(0x3000), 0xb4, frame(0x4000_0000), flags(PRESENT | HUGE_PAGE));
    let addr = VirtAddr::new(0x0000_1234_5678_9abc + 0x20_0000);
    assert_eq!(
        try_translate_address(&memory, root, addr).unwrap_err(),
        TranslateError::UnsupportedHugePage
    );
    // the neighbour is still reached
    let phys = translate_address(&memory, root, VirtAddr::new(0x0000_1234_5678_9abc));
    assert_eq!(phys.unwrap().as_u64(), 0x7abc);
}
