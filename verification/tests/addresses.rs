use kernel_memory::addr::{Page, PageCursor, PageTableLevel, PhysAddr, PhysFrame, VirtAddr};
use kernel_memory::paging::active_level_4_table;

#[test]
fn canonical_addresses_are_kept() {
    assert_eq!(VirtAddr::try_new(0).unwrap().as_u64(), 0);
    assert_eq!(VirtAddr::try_new(0x7fff_ffff_ffff).unwrap().as_u64(), 0x7fff_ffff_ffff);
    assert_eq!(
        VirtAddr::try_new(0xffff_8000_0000_0000).unwrap().as_u64(),
        0xffff_8000_0000_0000
    );
    assert_eq!(VirtAddr::new(0x5555_5555_0000).as_u64(), 0x5555_5555_0000);
}

#[test]
fn bit_47_alone_is_sign_extended() {
    assert_eq!(
        VirtAddr::try_new(0x0000_8000_0000_0000).unwrap().as_u64(),
        0xffff_8000_0000_0000
    );
    assert_eq!(
        VirtAddr::try_new(0x0000_ffff_ffff_f123).unwrap().as_u64(),
        0xffff_ffff_ffff_f123
    );
}

#[test]
fn data_above_bit_47_is_rejected() {
    assert!(VirtAddr::try_new(0x0001_0000_0000_0000).is_none());
    assert!(VirtAddr::try_new(0x1234_0000_0000_0000).is_none());
    assert!(VirtAddr::try_new(0xffff_7fff_ffff_ffff).is_none());
}

#[test]
fn table_indices_are_nine_bit_fields() {
    // 0x0000_1234_5678_9abc: index 4 = 0x24, index 3 = 0xd1, index 2 = 0xb3, index 1 = 0x189
    let addr = VirtAddr::new(0x0000_1234_5678_9abc);
    assert_eq!(addr.page_table_index(PageTableLevel::Four), 0x24);
    assert_eq!(addr.page_table_index(PageTableLevel::Three), 0xd1);
    assert_eq!(addr.page_table_index(PageTableLevel::Two), 0xb3);
    assert_eq!(addr.page_table_index(PageTableLevel::One), 0x189);
    assert_eq!(addr.page_offset(), 0xabc);
}

#[test]
fn table_indices_of_upper_half_address() {
    let addr = VirtAddr::new(0xffff_ffff_ffff_ffff);
    assert_eq!(addr.page_table_index(PageTableLevel::Four), 511);
    assert_eq!(addr.page_table_index(PageTableLevel::Three), 511);
    assert_eq!(addr.page_table_index(PageTableLevel::Two), 511);
    assert_eq!(addr.page_table_index(PageTableLevel::One), 511);
    assert_eq!(addr.page_offset(), 4095);
}

#[test]
fn lower_levels_follow_each_other() {
    assert_eq!(PageTableLevel::Four.next_lower_level(), Some(PageTableLevel::Three));
    assert_eq!(PageTableLevel::Three.next_lower_level(), Some(PageTableLevel::Two));
    assert_eq!(PageTableLevel::Two.next_lower_level(), Some(PageTableLevel::One));
    assert_eq!(PageTableLevel::One.next_lower_level(), None);
}

#[test]
fn pages_round_down() {
    let page = Page::containing_address(VirtAddr::new(0x5555_5555_0fff));
    assert_eq!(page.start_address().as_u64(), 0x5555_5555_0000);
    let page = Page::containing_address(VirtAddr::new(0xffff_8000_0000_1001));
    assert_eq!(page.start_address().as_u64(), 0xffff_8000_0000_1000);
}

#[test]
fn pages_start_aligned() {
    assert!(Page::from_start_address(VirtAddr::new(0x1000)).is_some());
    assert!(Page::from_start_address(VirtAddr::new(0x1001)).is_none());
    let page = Page::from_start_address(VirtAddr::new(0x7000)).unwrap();
    assert_eq!(page.plus_pages(3).start_address().as_u64(), 0xa000);
}

#[test]
fn frames_round_down() {
    let frame = PhysFrame::containing_address(PhysAddr::new(0x1234_5678));
    assert_eq!(frame.start_address().as_u64(), 0x1234_5000);
    assert!(PhysFrame::from_start_address(PhysAddr::new(0x2000)).is_some());
    assert!(PhysFrame::from_start_address(PhysAddr::new(0x2008)).is_none());
}

#[test]
fn physical_addresses_have_52_bits() {
    assert_eq!(PhysAddr::try_new(0x000f_ffff_ffff_ffff).unwrap().as_u64(), 0x000f_ffff_ffff_ffff);
    assert!(PhysAddr::try_new(0x0010_0000_0000_0000).is_none());
}

#[test]
fn addresses_add_up() {
    assert_eq!(VirtAddr::new(0x1000).plus(0x234).as_u64(), 0x1234);
    assert_eq!(
        VirtAddr::new(0x7fff_ffff_f000).plus(0x1000).as_u64(),
        0xffff_8000_0000_0000
    );
}

#[test]
fn top_level_table_is_seen_through_the_offset() {
    let frame = PhysFrame::containing_address(PhysAddr::new(0x1000));
    let offset = VirtAddr::new(0xffff_8000_0000_0000);
    assert_eq!(active_level_4_table(frame, offset).as_u64(), 0xffff_8000_0000_1000);
}

#[test]
fn cursor_hands_out_ascending_runs() {
    let mut cursor = PageCursor::new(0x4000);
    assert_eq!(cursor.next_address(), 0x4000);
    let first = cursor.reserve(3);
    assert_eq!(first.start_address().as_u64(), 0x4000);
    assert_eq!(cursor.next_address(), 0x7000);
    let second = cursor.reserve(1);
    assert_eq!(second.start_address().as_u64(), 0x7000);
    assert_eq!(cursor.next_address(), 0x8000);
    assert_eq!(cursor.pages_left(), (0x8000_0000_0000u64 - 0x1000 - 0x8000) / 4096);
}
