//! Virtual and physical addresses, pages and frames.
//!
//! Addresses are kept as plain `u64` values inside small validated types.
//! Canonicalisation, alignment and page-table index extraction are done by
//! the `x86_64` crate; the contracts of the private helpers below say in
//! arithmetic terms what that crate computes.

use vstd::prelude::*;
use x86_64::structures::paging::{Page as HwPage, PhysFrame as HwFrame, Size4KiB};

verus! {

/// Size in bytes of a page and of a physical frame.
pub const PAGE_SIZE: u64 = 4096;

/// First address above the lower canonical half.
pub const LOWER_HALF_END: u64 = 0x0000_8000_0000_0000;

/// First address of the upper canonical half.
pub const UPPER_HALF_START: u64 = 0xffff_8000_0000_0000;

/// First value that is not a physical address (bits 52 and up must be clear).
pub const PHYS_ADDR_END: u64 = 0x0010_0000_0000_0000;

/// Whether bits 48 to 63 of `addr` are copies of bit 47.
pub open spec fn is_canonical(addr: u64) -> bool {
    addr < LOWER_HALF_END || addr >= UPPER_HALF_START
}

/// Whether `addr` is a multiple of the page size.
pub open spec fn is_page_aligned(addr: u64) -> bool {
    addr % PAGE_SIZE == 0
}

/// The greatest page-aligned address not above `addr`.
pub open spec fn align_down(addr: u64) -> u64 {
    (addr - addr % PAGE_SIZE) as u64
}

/// What a raw value becomes as a virtual address: unchanged if canonical,
/// sign-extended if only bit 47 is set above the low 47 bits, rejected
/// otherwise.
pub open spec fn canonicalize(addr: u64) -> Option<u64> {
    if is_canonical(addr) {
        Some(addr)
    } else if addr < 0x0001_0000_0000_0000 {
        Some((addr + 0xffff_0000_0000_0000) as u64)
    } else {
        None
    }
}

/// The four levels of the page-table hierarchy, leaf tables first.
#[derive(Clone, Copy, PartialEq, Eq, Structural, Debug)]
pub enum PageTableLevel {
    One,
    Two,
    Three,
    Four,
}

impl PageTableLevel {
    /// The level as a number from 1 to 4.
    pub open spec fn number(self) -> nat {
        match self {
            PageTableLevel::One => 1,
            PageTableLevel::Two => 2,
            PageTableLevel::Three => 3,
            PageTableLevel::Four => 4,
        }
    }

    /// The next level towards the leaf tables, if any.
    pub fn next_lower_level(self) -> (lower: Option<PageTableLevel>)
        ensures
            lower == match self {
                PageTableLevel::Four => Some(PageTableLevel::Three),
                PageTableLevel::Three => Some(PageTableLevel::Two),
                PageTableLevel::Two => Some(PageTableLevel::One),
                PageTableLevel::One => None,
            },
    {
        match self {
            PageTableLevel::Four => Some(PageTableLevel::Three),
            PageTableLevel::Three => Some(PageTableLevel::Two),
            PageTableLevel::Two => Some(PageTableLevel::One),
            PageTableLevel::One => None,
        }
    }
}

/// Number of bytes of address space covered by one entry of a table at
/// `level` (1 to 4).
pub open spec fn entry_span(level: nat) -> int {
    if level <= 1 {
        0x1000
    } else if level == 2 {
        0x20_0000
    } else if level == 3 {
        0x4000_0000
    } else {
        0x80_0000_0000
    }
}

/// The 9-bit index that `addr` selects in a table at `level` (1 to 4).
pub open spec fn table_index(addr: u64, level: nat) -> int {
    (addr as int / entry_span(level)) % 512
}

/// The offset of `addr` within its page.
pub open spec fn page_offset(addr: u64) -> int {
    addr as int % 4096
}

/// `VirtAddr::try_new(addr)` followed by `as_u64`: the canonical form of
/// `addr`, or `None` where bits 47 to 63 are neither all equal nor `0..01`.
#[verifier::external_body]
fn hw_canonicalize(addr: u64) -> (canonical: Option<u64>)
    ensures
        canonical == canonicalize(addr),
{
    match x86_64::VirtAddr::try_new(addr) {
        Ok(virt) => Some(virt.as_u64()),
        Err(_) => None,
    }
}

/// `VirtAddr::page_table_index(level)`: bits 12 + 9(level - 1) to
/// 20 + 9(level - 1) of the address.
#[verifier::external_body]
fn hw_page_table_index(addr: u64, level: PageTableLevel) -> (index: u16)
    requires
        is_canonical(addr),
    ensures
        index as int == table_index(addr, level.number()),
        index < 512,
{
    let hw_level = match level {
        PageTableLevel::One => x86_64::structures::paging::page_table::PageTableLevel::One,
        PageTableLevel::Two => x86_64::structures::paging::page_table::PageTableLevel::Two,
        PageTableLevel::Three => x86_64::structures::paging::page_table::PageTableLevel::Three,
        PageTableLevel::Four => x86_64::structures::paging::page_table::PageTableLevel::Four,
    };
    u16::from(x86_64::VirtAddr::new(addr).page_table_index(hw_level))
}

/// `VirtAddr::page_offset`: the low twelve bits of the address.
#[verifier::external_body]
fn hw_page_offset(addr: u64) -> (offset: u16)
    requires
        is_canonical(addr),
    ensures
        offset as int == page_offset(addr),
        offset < 4096,
{
    u16::from(x86_64::VirtAddr::new(addr).page_offset())
}

/// `Page::containing_address` followed by `start_address`: the address
/// rounded down to a page boundary.
#[verifier::external_body]
fn hw_page_containing(addr: u64) -> (start: u64)
    requires
        is_canonical(addr),
    ensures
        start == align_down(addr),
{
    HwPage::<Size4KiB>::containing_address(x86_64::VirtAddr::new(addr)).start_address().as_u64()
}

/// `PhysFrame::containing_address` followed by `start_address`: the address
/// rounded down to a frame boundary.
#[verifier::external_body]
fn hw_frame_containing(addr: u64) -> (start: u64)
    requires
        addr < PHYS_ADDR_END,
    ensures
        start == align_down(addr),
{
    HwFrame::<Size4KiB>::containing_address(x86_64::PhysAddr::new(addr)).start_address().as_u64()
}

/// A canonical 64-bit virtual address.
#[derive(Clone, Copy, Debug)]
pub struct VirtAddr {
    addr: u64,
}

impl View for VirtAddr {
    type V = u64;

    closed spec fn view(&self) -> u64 {
        self.addr
    }
}

impl VirtAddr {
    /// Every virtual address is canonical.
    #[verifier::type_invariant]
    pub open spec fn wf(self) -> bool {
        is_canonical(self@)
    }

    /// The canonical form of `addr`, or `None` if bits 48 to 63 hold data.
    pub fn try_new(addr: u64) -> (virt: Option<VirtAddr>)
        ensures
            match virt {
                Some(v) => canonicalize(addr) == Some(v@),
                None => canonicalize(addr) is None,
            },
    {
        match hw_canonicalize(addr) {
            Some(canonical) => Some(VirtAddr { addr: canonical }),
            None => None,
        }
    }

    /// The canonical form of `addr`, which must have one.
    pub fn new(addr: u64) -> (virt: VirtAddr)
        requires
            canonicalize(addr) is Some,
        ensures
            Some(virt@) == canonicalize(addr),
    {
        VirtAddr { addr: hw_canonicalize(addr).unwrap() }
    }

    /// The address as a number.
    pub fn as_u64(self) -> (addr: u64)
        ensures
            addr == self@,
            is_canonical(addr),
    {
        proof {
            use_type_invariant(self);
        }
        self.addr
    }

    /// The address `offset` bytes further on, in canonical form. The sum
    /// must fit in 64 bits and must have a canonical form.
    pub fn plus(self, offset: u64) -> (sum: VirtAddr)
        requires
            self@ + offset <= u64::MAX,
            canonicalize((self@ + offset) as u64) is Some,
        ensures
            Some(sum@) == canonicalize((self@ + offset) as u64),
    {
        VirtAddr::new(self.addr + offset)
    }

    /// The index this address selects in a table at `level`.
    pub fn page_table_index(self, level: PageTableLevel) -> (index: u16)
        ensures
            index as int == table_index(self@, level.number()),
            index < 512,
    {
        proof {
            use_type_invariant(self);
        }
        hw_page_table_index(self.addr, level)
    }

    /// The offset of this address within its page.
    pub fn page_offset(self) -> (offset: u16)
        ensures
            offset as int == page_offset(self@),
            offset < 4096,
    {
        proof {
            use_type_invariant(self);
        }
        hw_page_offset(self.addr)
    }
}

/// A physical address: a value below 2^52.
#[derive(Clone, Copy, Debug)]
pub struct PhysAddr {
    addr: u64,
}

impl View for PhysAddr {
    type V = u64;

    closed spec fn view(&self) -> u64 {
        self.addr
    }
}

impl PhysAddr {
    /// Bits 52 to 63 of a physical address are clear.
    #[verifier::type_invariant]
    pub open spec fn wf(self) -> bool {
        self@ < PHYS_ADDR_END
    }

    /// `addr` as a physical address, or `None` if a bit from 52 up is set.
    pub fn try_new(addr: u64) -> (phys: Option<PhysAddr>)
        ensures
            match phys {
                Some(p) => p@ == addr && addr < PHYS_ADDR_END,
                None => addr >= PHYS_ADDR_END,
            },
    {
        if addr < PHYS_ADDR_END {
            Some(PhysAddr { addr })
        } else {
            None
        }
    }

    /// `addr` as a physical address.
    pub fn new(addr: u64) -> (phys: PhysAddr)
        requires
            addr < PHYS_ADDR_END,
        ensures
            phys@ == addr,
    {
        PhysAddr { addr }
    }

    /// The address as a number.
    pub fn as_u64(self) -> (addr: u64)
        ensures
            addr == self@,
            addr < PHYS_ADDR_END,
    {
        proof {
            use_type_invariant(self);
        }
        self.addr
    }
}

/// A 4 KiB page of virtual memory, named by its first address.
#[derive(Clone, Copy, Debug)]
pub struct Page {
    start: u64,
}

impl View for Page {
    type V = u64;

    closed spec fn view(&self) -> u64 {
        self.start
    }
}

impl Page {
    /// A page starts at a canonical, page-aligned address.
    #[verifier::type_invariant]
    pub open spec fn wf(self) -> bool {
        is_canonical(self@) && is_page_aligned(self@)
    }

    /// The page that contains `address`.
    pub fn containing_address(address: VirtAddr) -> (page: Page)
        ensures
            page@ == align_down(address@),
    {
        let addr: u64 = address.as_u64();
        let start: u64 = hw_page_containing(addr);
        Page { start }
    }

    /// The page that starts at `address`, or `None` if `address` is not
    /// page-aligned.
    pub fn from_start_address(address: VirtAddr) -> (page: Option<Page>)
        ensures
            match page {
                Some(p) => p@ == address@ && is_page_aligned(address@),
                None => !is_page_aligned(address@),
            },
    {
        let addr: u64 = address.as_u64();
        if addr % PAGE_SIZE == 0 {
            Some(Page { start: addr })
        } else {
            None
        }
    }

    /// The page `pages` pages further on. It must lie in the same half of
    /// the address space.
    pub fn plus_pages(self, pages: u64) -> (page: Page)
        requires
            self@ + pages * 4096 <= u64::MAX,
            is_canonical((self@ + pages * 4096) as u64),
        ensures
            page@ == self@ + pages * 4096,
    {
        proof {
            use_type_invariant(self);
        }
        Page { start: self.start + pages * PAGE_SIZE }
    }

    /// The first address of the page.
    pub fn start_address(self) -> (address: VirtAddr)
        ensures
            address@ == self@,
            is_canonical(self@),
            is_page_aligned(self@),
    {
        proof {
            use_type_invariant(self);
        }
        VirtAddr { addr: self.start }
    }
}

/// A 4 KiB frame of physical memory, named by its first address.
#[derive(Clone, Copy, Debug)]
pub struct PhysFrame {
    start: u64,
}

impl View for PhysFrame {
    type V = u64;

    closed spec fn view(&self) -> u64 {
        self.start
    }
}

impl PhysFrame {
    /// A frame starts at a page-aligned physical address.
    #[verifier::type_invariant]
    pub open spec fn wf(self) -> bool {
        self@ < PHYS_ADDR_END && is_page_aligned(self@)
    }

    /// The frame that starts at `start`.
    pub(crate) fn starting_at(start: u64) -> (frame: PhysFrame)
        requires
            start < PHYS_ADDR_END,
            is_page_aligned(start),
        ensures
            frame@ == start,
    {
        PhysFrame { start }
    }

    /// The frame that contains `address`.
    pub fn containing_address(address: PhysAddr) -> (frame: PhysFrame)
        ensures
            frame@ == align_down(address@),
    {
        let addr: u64 = address.as_u64();
        let start: u64 = hw_frame_containing(addr);
        PhysFrame { start }
    }

    /// The frame that starts at `address`, or `None` if `address` is not
    /// page-aligned.
    pub fn from_start_address(address: PhysAddr) -> (frame: Option<PhysFrame>)
        ensures
            match frame {
                Some(f) => f@ == address@ && is_page_aligned(address@),
                None => !is_page_aligned(address@),
            },
    {
        let addr: u64 = address.as_u64();
        if addr % PAGE_SIZE == 0 {
            Some(PhysFrame { start: addr })
        } else {
            None
        }
    }

    /// The first address of the frame.
    pub fn start_address(self) -> (address: PhysAddr)
        ensures
            address@ == self@,
            self@ < PHYS_ADDR_END,
            is_page_aligned(self@),
    {
        proof {
            use_type_invariant(self);
        }
        PhysAddr { addr: self.start }
    }
}

/// A cursor that hands out runs of pages from the lower half of the
/// address space, each run once and in ascending order.
#[derive(Debug)]
pub struct PageCursor {
    next: u64,
}

impl View for PageCursor {
    type V = u64;

    closed spec fn view(&self) -> u64 {
        self.next
    }
}

impl PageCursor {
    /// The cursor is page-aligned and stays within the lower half.
    #[verifier::type_invariant]
    pub open spec fn wf(self) -> bool {
        is_page_aligned(self@) && self@ < LOWER_HALF_END
    }

    /// A cursor that starts at the page-aligned lower-half address `base`.
    pub fn new(base: u64) -> (cursor: PageCursor)
        requires
            is_page_aligned(base),
            base < LOWER_HALF_END,
        ensures
            cursor@ == base,
    {
        PageCursor { next: base }
    }

    /// The address of the next page that the cursor hands out.
    pub fn next_address(&self) -> (next: u64)
        ensures
            next == self@,
            is_page_aligned(next),
            next < LOWER_HALF_END,
    {
        proof {
            use_type_invariant(self);
        }
        self.next
    }

    /// How many pages the cursor can still hand out.
    pub fn pages_left(&self) -> (left: u64)
        ensures
            left == (LOWER_HALF_END - 4096 - self@) / 4096,
            self@ + left * 4096 < LOWER_HALF_END,
    {
        proof {
            use_type_invariant(self);
        }
        (LOWER_HALF_END - PAGE_SIZE - self.next) / PAGE_SIZE
    }

    /// Reserves `pages` pages and returns the first of them. The run must
    /// end within the lower half of the address space.
    pub fn reserve(&mut self, pages: u64) -> (first: Page)
        requires
            old(self)@ + pages * 4096 < LOWER_HALF_END,
        ensures
            first@ == old(self)@,
            final(self)@ == old(self)@ + pages * 4096,
    {
        proof {
            use_type_invariant(&*self);
        }
        let start: u64 = self.next;
        self.next = start + pages * PAGE_SIZE;
        let address: VirtAddr = VirtAddr::new(start);
        Page::from_start_address(address).unwrap()
    }
}

} // verus!
