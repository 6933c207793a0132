//! Page-table entries and the memory that holds page tables.
//!
//! A [`TableMemory`] stands for the part of physical memory that holds page
//! tables: a sparse map from frame addresses to 512-entry tables, where a
//! frame that holds no table reads as all zero. The tables themselves are
//! `x86_64::structures::paging::PageTable` values, read and written through
//! that crate's entry methods.

use vstd::prelude::*;
use crate::addr::{PhysFrame, is_page_aligned, page_offset, table_index, PHYS_ADDR_END};

verus! {

/// Bits 12 to 51 of an entry: the physical address it points to.
pub const ADDRESS_MASK: u64 = 0x000f_ffff_ffff_f000;

/// Bits 0 to 11 and 52 to 63 of an entry: its flags.
pub const FLAGS_MASK: u64 = 0xfff0_0000_0000_0fff;

/// The mapped frame or table is loaded in memory.
pub const PRESENT: u64 = 0x1;

/// Writes through the entry are allowed.
pub const WRITABLE: u64 = 0x2;

/// Accesses from user mode are allowed.
pub const USER_ACCESSIBLE: u64 = 0x4;

/// The entry maps a huge frame instead of pointing to a table.
pub const HUGE_PAGE: u64 = 0x80;

/// The flags that `map_to` hands on to the parent tables of a mapping.
pub const PARENT_FLAGS: u64 = 0x7;

/// Why an entry yields no 4 KiB frame.
#[derive(Clone, Copy, PartialEq, Eq, Structural, Debug)]
pub enum FrameError {
    /// The entry does not have the `PRESENT` flag set.
    FrameNotPresent,
    /// The entry has the `HUGE_PAGE` flag set.
    HugeFrame,
}

/// The address bits of an entry.
pub open spec fn entry_address(entry: u64) -> u64 {
    entry & ADDRESS_MASK
}

/// The flag bits of an entry.
pub open spec fn entry_flags(entry: u64) -> u64 {
    entry & FLAGS_MASK
}

/// The frame an entry points to: none if it is not present, none if it maps
/// a huge frame, else its address bits.
pub open spec fn entry_frame(entry: u64) -> Result<u64, FrameError> {
    if entry_flags(entry) & PRESENT == 0 {
        Err(FrameError::FrameNotPresent)
    } else if entry_flags(entry) & HUGE_PAGE != 0 {
        Err(FrameError::HugeFrame)
    } else {
        Ok(entry_address(entry))
    }
}

/// A table with all 512 entries zero.
pub open spec fn zero_table() -> Seq<u64> {
    Seq::new(512, |i: int| 0u64)
}

/// The table held in frame `table`; all zero where the memory holds none.
pub open spec fn table_row(tables: Map<u64, Seq<u64>>, table: u64) -> Seq<u64> {
    if tables.contains_key(table) {
        tables[table]
    } else {
        zero_table()
    }
}

/// Entry `index` of the table held in frame `table`.
pub open spec fn read_entry(tables: Map<u64, Seq<u64>>, table: u64, index: int) -> u64 {
    table_row(tables, table)[index]
}

/// The memory after entry `index` of the table in frame `table` is set to
/// `entry`.
pub open spec fn write_entry(tables: Map<u64, Seq<u64>>, table: u64, index: int, entry: u64) -> Map<
    u64,
    Seq<u64>,
> {
    tables.insert(table, table_row(tables, table).update(index, entry))
}

/// Every table of the memory has 512 entries.
pub open spec fn rows_complete(tables: Map<u64, Seq<u64>>) -> bool {
    forall|table: u64| #[trigger] tables.contains_key(table) ==> tables[table].len() == 512
}

/// The table of `level` (4 down to 1) that the walk for `addr` reaches from
/// the top-level table in frame `root`; at level 0, the frame that the page
/// of `addr` is mapped to. The walk stops at the first entry that is not
/// present or maps a huge frame.
pub open spec fn table_at(tables: Map<u64, Seq<u64>>, root: u64, addr: u64, level: nat) -> Result<
    u64,
    FrameError,
>
    decreases 4 - level,
{
    if level >= 4 {
        Ok(root)
    } else {
        match table_at(tables, root, addr, level + 1) {
            Ok(table) => entry_frame(read_entry(tables, table, table_index(addr, level + 1))),
            Err(e) => Err(e),
        }
    }
}

/// The raw leaf entry for the page of `addr`: the entry that `addr` selects
/// in the level-1 table that its walk reaches, or zero where the walk does
/// not reach one.
pub open spec fn leaf_entry(tables: Map<u64, Seq<u64>>, root: u64, addr: u64) -> u64 {
    match table_at(tables, root, addr, 1) {
        Ok(table) => read_entry(tables, table, table_index(addr, 1)),
        Err(_) => 0,
    }
}

/// The physical address that `addr` resolves to through the tables rooted in
/// frame `root`: the mapped frame plus the offset of `addr` within its page.
pub open spec fn resolve(tables: Map<u64, Seq<u64>>, root: u64, addr: u64) -> Result<
    u64,
    FrameError,
> {
    match table_at(tables, root, addr, 0) {
        Ok(frame) => Ok((frame + page_offset(addr)) as u64),
        Err(e) => Err(e),
    }
}

/// A set of page-table flags: any bits outside the address bits of an entry.
#[derive(Clone, Copy, Debug)]
pub struct PageTableFlags {
    bits: u64,
}

impl View for PageTableFlags {
    type V = u64;

    closed spec fn view(&self) -> u64 {
        self.bits
    }
}

impl PageTableFlags {
    /// Flags never overlap the address bits of an entry.
    #[verifier::type_invariant]
    pub open spec fn wf(self) -> bool {
        self@ & ADDRESS_MASK == 0
    }

    /// The flags among `bits`; address bits are dropped.
    pub fn from_bits_truncate(bits: u64) -> (flags: PageTableFlags)
        ensures
            flags@ == bits & FLAGS_MASK,
    {
        let kept: u64 = bits & FLAGS_MASK;
        assert(kept & ADDRESS_MASK == 0) by (bit_vector)
            requires
                kept == bits & FLAGS_MASK,
        ;
        PageTableFlags { bits: kept }
    }

    /// The flags as a number.
    pub fn bits(self) -> (bits: u64)
        ensures
            bits == self@,
            bits & ADDRESS_MASK == 0,
    {
        proof {
            use_type_invariant(self);
        }
        self.bits
    }

    /// Whether every flag of `other` is set in `self`.
    pub fn contains(self, other: PageTableFlags) -> (all: bool)
        ensures
            all == (self@ & other@ == other@),
    {
        self.bits & other.bits == other.bits
    }

    /// The flags set in `self` or in `other`.
    pub fn union(self, other: PageTableFlags) -> (both: PageTableFlags)
        ensures
            both@ == self@ | other@,
    {
        proof {
            use_type_invariant(self);
            use_type_invariant(other);
        }
        let a: u64 = self.bits;
        let b: u64 = other.bits;
        assert((a | b) & ADDRESS_MASK == 0) by (bit_vector)
            requires
                a & ADDRESS_MASK == 0,
                b & ADDRESS_MASK == 0,
        ;
        PageTableFlags { bits: a | b }
    }

    /// The flags set in both `self` and `other`.
    pub fn intersection(self, other: PageTableFlags) -> (common: PageTableFlags)
        ensures
            common@ == self@ & other@,
    {
        proof {
            use_type_invariant(self);
        }
        let a: u64 = self.bits;
        let b: u64 = other.bits;
        assert((a & b) & ADDRESS_MASK == 0) by (bit_vector)
            requires
                a & ADDRESS_MASK == 0,
        ;
        PageTableFlags { bits: a & b }
    }
}

/// `x86_64::structures::paging::PageTable`, a table of 512 entries, taken as an
/// opaque type: its entries are read and written by the helpers below.
#[verifier::external_type_specification]
#[verifier::external_body]
pub struct ExPageTable(x86_64::structures::paging::PageTable);

/// The 512 raw entries of a page table, first entry first.
pub uninterp spec fn table_entries(table: x86_64::structures::paging::PageTable) -> Seq<u64>;

/// `PageTable::new`: a table whose 512 entries are all unused.
#[verifier::external_body]
fn hw_new_table() -> (table: x86_64::structures::paging::PageTable)
    ensures
        table_entries(table) == zero_table(),
{
    x86_64::structures::paging::PageTable::new()
}

/// `PageTableEntry::frame` on entry `index`: the start of the frame the entry
/// points to, or why there is none.
#[verifier::external_body]
fn hw_entry_frame(table: &x86_64::structures::paging::PageTable, index: usize) -> (frame: Result<
    u64,
    FrameError,
>)
    requires
        index < 512,
    ensures
        frame == entry_frame(table_entries(*table)[index as int]),
{
    match table[index].frame() {
        Ok(frame) => Ok(frame.start_address().as_u64()),
        Err(x86_64::structures::paging::page_table::FrameError::FrameNotPresent) => Err(
            FrameError::FrameNotPresent,
        ),
        Err(x86_64::structures::paging::page_table::FrameError::HugeFrame) => Err(
            FrameError::HugeFrame,
        ),
    }
}

/// `PageTableEntry::is_unused` on entry `index`: whether the entry is zero.
#[verifier::external_body]
fn hw_entry_is_unused(table: &x86_64::structures::paging::PageTable, index: usize) -> (unused: bool)
    requires
        index < 512,
    ensures
        unused == (table_entries(*table)[index as int] == 0),
{
    table[index].is_unused()
}

/// `PageTableEntry::flags` on entry `index`, as bits: the entry without its
/// address bits.
#[verifier::external_body]
fn hw_entry_flags(table: &x86_64::structures::paging::PageTable, index: usize) -> (flags: u64)
    requires
        index < 512,
    ensures
        flags == entry_flags(table_entries(*table)[index as int]),
{
    table[index].flags().bits()
}

/// `PageTableEntry::set_addr` on entry `index`: the entry becomes the
/// bitwise or of the address and the flags; the other entries stay.
#[verifier::external_body]
fn hw_set_entry_addr(
    table: &mut x86_64::structures::paging::PageTable,
    index: usize,
    addr: u64,
    flags: u64,
)
    requires
        index < 512,
        addr < PHYS_ADDR_END,
        is_page_aligned(addr),
        flags & ADDRESS_MASK == 0,
    ensures
        table_entries(*final(table)) == table_entries(*old(table)).update(
            index as int,
            addr | flags,
        ),
{
    table[index].set_addr(
        x86_64::PhysAddr::new(addr),
        x86_64::structures::paging::PageTableFlags::from_bits_truncate(flags),
    );
}

/// `PageTableEntry::set_flags` on entry `index`: the entry keeps its address
/// bits and takes the given flags; the other entries stay.
#[verifier::external_body]
fn hw_set_entry_flags(table: &mut x86_64::structures::paging::PageTable, index: usize, flags: u64)
    requires
        index < 512,
        flags & ADDRESS_MASK == 0,
    ensures
        table_entries(*final(table)) == table_entries(*old(table)).update(
            index as int,
            entry_address(table_entries(*old(table))[index as int]) | flags,
        ),
{
    table[index].set_flags(x86_64::structures::paging::PageTableFlags::from_bits_truncate(flags));
}

/// `PageTableEntry::set_unused` on entry `index`: the entry becomes zero;
/// the other entries stay.
#[verifier::external_body]
fn hw_set_entry_unused(table: &mut x86_64::structures::paging::PageTable, index: usize)
    requires
        index < 512,
    ensures
        table_entries(*final(table)) == table_entries(*old(table)).update(index as int, 0),
{
    table[index].set_unused();
}

/// One frame of table memory: the frame's address and the table it holds.
struct TableSlot {
    frame: u64,
    table: x86_64::structures::paging::PageTable,
}

/// The part of physical memory that holds page tables.
pub struct TableMemory {
    slots: Vec<TableSlot>,
}

impl TableMemory {
    /// No frame occurs twice, and every table has 512 entries.
    pub closed spec fn wf(self) -> bool {
        &&& forall|i: int, j: int|
            0 <= i < j < self.slots.len() ==> self.slots[i].frame != self.slots[j].frame
        &&& forall|i: int|
            0 <= i < self.slots.len() ==> (#[trigger] table_entries(self.slots[i].table)).len()
                == 512
    }

    /// Whether slot `i` holds the table of `frame`.
    closed spec fn holds(self, i: int, frame: u64) -> bool {
        0 <= i < self.slots.len() && self.slots[i].frame == frame
    }

    /// The slot that holds the table of `frame`, if one does.
    closed spec fn slot_of(self, frame: u64) -> int {
        choose|i: int| self.holds(i, frame)
    }

    /// The tables by frame address, each as its 512 raw entries.
    pub closed spec fn view(self) -> Map<u64, Seq<u64>> {
        Map::new(
            |frame: u64| exists|i: int| self.holds(i, frame),
            |frame: u64| table_entries(self.slots[self.slot_of(frame)].table),
        )
    }

    /// A memory that holds no table: every frame reads as zero.
    pub fn new() -> (memory: TableMemory)
        ensures
            memory.wf(),
            memory@ == Map::<u64, Seq<u64>>::empty(),
            rows_complete(memory@),
    {
        let memory = TableMemory { slots: Vec::new() };
        assert(memory@ =~= Map::<u64, Seq<u64>>::empty());
        memory
    }

    /// Every table of the memory has 512 entries.
    proof fn lemma_rows_complete(self)
        requires
            self.wf(),
        ensures
            rows_complete(self@),
    {
        assert forall|table: u64| #[trigger] self@.contains_key(table) implies self@[table].len()
            == 512 by {
            let i = self.slot_of(table);
            assert(self.holds(i, table));
        }
    }

    /// The slot that holds the table of `frame`.
    fn find(&self, frame: u64) -> (slot: Option<usize>)
        requires
            self.wf(),
        ensures
            match slot {
                Some(i) => self.holds(i as int, frame) && self.slot_of(frame) == i
                    && self@.contains_key(frame),
                None => !self@.contains_key(frame),
            },
    {
        let mut i: usize = 0;
        while i < self.slots.len()
            invariant
                i <= self.slots.len(),
                self.wf(),
                forall|j: int| 0 <= j < i ==> self.slots[j].frame != frame,
            decreases self.slots.len() - i,
        {
            if self.slots[i].frame == frame {
                assert(self.holds(i as int, frame));
                return Some(i);
            }
            i += 1;
        }
        None
    }

    /// What the view becomes when the table of one slot is replaced.
    proof fn lemma_table_replaced(self, after: TableMemory, i: int)
        requires
            self.wf(),
            after.wf(),
            0 <= i < self.slots.len(),
            after.slots.len() == self.slots.len(),
            forall|j: int| 0 <= j < self.slots.len()
                ==> after.slots[j].frame == self.slots[j].frame,
            forall|j: int|
                0 <= j < self.slots.len() && j != i ==> after.slots[j].table == self.slots[j].table,
        ensures
            after@ == self@.insert(self.slots[i].frame, table_entries(after.slots[i].table)),
    {
        let frame = self.slots[i].frame;
        let expected = self@.insert(frame, table_entries(after.slots[i].table));
        assert forall|key: u64| after@.contains_key(key) == expected.contains_key(key) by {
            if after@.contains_key(key) {
                let j = choose|j: int| after.holds(j, key);
                assert(self.holds(j, key));
            }
            if expected.contains_key(key) {
                if key == frame {
                    assert(after.holds(i, key));
                } else {
                    let j = choose|j: int| self.holds(j, key);
                    assert(after.holds(j, key));
                }
            }
        }
        assert forall|key: u64| after@.contains_key(key) implies after@[key] == expected[key] by {
            let j = after.slot_of(key);
            assert(after.holds(j, key));
            if key == frame {
                assert(j == i);
            } else {
                let k = self.slot_of(key);
                assert(self.holds(j, key));
                assert(self.holds(k, key));
                assert(j == k);
            }
        }
        assert(after@ =~= expected);
    }

    /// What the view becomes when a slot for a frame without table is added.
    proof fn lemma_table_added(self, after: TableMemory)
        requires
            self.wf(),
            after.wf(),
            after.slots.len() == self.slots.len() + 1,
            forall|j: int| 0 <= j < self.slots.len() ==> after.slots[j] == self.slots[j],
        ensures
            after@ == self@.insert(
                after.slots[self.slots.len() as int].frame,
                table_entries(after.slots[self.slots.len() as int].table),
            ),
    {
        let n = self.slots.len() as int;
        let frame = after.slots[n].frame;
        let expected = self@.insert(frame, table_entries(after.slots[n].table));
        assert forall|key: u64| after@.contains_key(key) == expected.contains_key(key) by {
            if after@.contains_key(key) {
                let j = choose|j: int| after.holds(j, key);
                if j < n {
                    assert(self.holds(j, key));
                }
            }
            if expected.contains_key(key) {
                if key == frame {
                    assert(after.holds(n, key));
                } else {
                    let j = choose|j: int| self.holds(j, key);
                    assert(after.holds(j, key));
                }
            }
        }
        assert forall|key: u64| after@.contains_key(key) implies after@[key] == expected[key] by {
            let j = after.slot_of(key);
            assert(after.holds(j, key));
            if key == frame {
                assert(j == n);
            } else {
                let k = self.slot_of(key);
                assert(self.holds(j, key));
                assert(self.holds(k, key));
                assert(j == k);
            }
        }
        assert(after@ =~= expected);
    }

    /// The slot that holds the table of `frame`; a zero table is added for a
    /// frame that has none, which leaves every entry as it reads.
    fn find_or_add(&mut self, frame: u64) -> (slot: usize)
        requires
            old(self).wf(),
        ensures
            final(self).wf(),
            final(self).holds(slot as int, frame),
            final(self)@ == old(self)@.insert(frame, table_row(old(self)@, frame)),
            table_entries(final(self).slots[slot as int].table) == table_row(old(self)@, frame),
            rows_complete(final(self)@),
    {
        match self.find(frame) {
            Some(i) => {
                proof {
                    self.lemma_rows_complete();
                    assert(self@ =~= self@.insert(frame, table_row(self@, frame)));
                }
                i
            },
            None => {
                let ghost before = *self;
                let n: usize = self.slots.len();
                assert forall|j: int| 0 <= j < n implies self.slots[j].frame != frame by {
                    if self.slots[j].frame == frame {
                        assert(self.holds(j, frame));
                    }
                }
                self.slots.push(TableSlot { frame, table: hw_new_table() });
                proof {
                    before.lemma_table_added(*self);
                    self.lemma_rows_complete();
                }
                n
            },
        }
    }

    /// The frame that entry `index` of the table in frame `table` points to.
    pub fn entry_frame(&self, table: PhysFrame, index: u16) -> (frame: Result<PhysFrame, FrameError>)
        requires
            self.wf(),
            index < 512,
        ensures
            match frame {
                Ok(f) => entry_frame(read_entry(self@, table@, index as int)) == Ok::<
                    u64,
                    FrameError,
                >(f@),
                Err(e) => entry_frame(read_entry(self@, table@, index as int)) == Err::<
                    u64,
                    FrameError,
                >(e),
            },
    {
        let start: u64 = table.start_address().as_u64();
        match self.find(start) {
            Some(i) => {
                match hw_entry_frame(&self.slots[i].table, index as usize) {
                    Ok(next) => {
                        let ghost entry = read_entry(self@, table@, index as int);
                        assert(next == entry & ADDRESS_MASK);
                        assert((entry & ADDRESS_MASK) % 4096 == 0 && (entry & ADDRESS_MASK)
                            < 0x0010_0000_0000_0000) by (bit_vector);
                        Ok(PhysFrame::starting_at(next))
                    },
                    Err(e) => Err(e),
                }
            },
            None => {
                assert(0u64 & FLAGS_MASK & PRESENT == 0) by (bit_vector);
                Err(FrameError::FrameNotPresent)
            },
        }
    }

    /// Whether entry `index` of the table in frame `table` is zero.
    pub fn entry_is_unused(&self, table: PhysFrame, index: u16) -> (unused: bool)
        requires
            self.wf(),
            index < 512,
        ensures
            unused == (read_entry(self@, table@, index as int) == 0),
    {
        let start: u64 = table.start_address().as_u64();
        match self.find(start) {
            Some(i) => hw_entry_is_unused(&self.slots[i].table, index as usize),
            None => true,
        }
    }

    /// The flags of entry `index` of the table in frame `table`.
    pub fn entry_flags(&self, table: PhysFrame, index: u16) -> (flags: PageTableFlags)
        requires
            self.wf(),
            index < 512,
        ensures
            flags@ == entry_flags(read_entry(self@, table@, index as int)),
    {
        let start: u64 = table.start_address().as_u64();
        let bits: u64 = match self.find(start) {
            Some(i) => hw_entry_flags(&self.slots[i].table, index as usize),
            None => {
                assert(0u64 & FLAGS_MASK == 0) by (bit_vector);
                0
            },
        };
        let ghost entry = read_entry(self@, table@, index as int);
        assert((entry & FLAGS_MASK) & FLAGS_MASK == entry & FLAGS_MASK) by (bit_vector);
        PageTableFlags::from_bits_truncate(bits)
    }

    /// Points entry `index` of the table in frame `table` to `target`, with
    /// `flags`.
    pub fn set_entry(&mut self, table: PhysFrame, index: u16, target: PhysFrame, flags: PageTableFlags)
        requires
            old(self).wf(),
            index < 512,
        ensures
            final(self).wf(),
            final(self)@ == write_entry(old(self)@, table@, index as int, target@ | flags@),
            rows_complete(final(self)@),
    {
        let start: u64 = table.start_address().as_u64();
        let addr: u64 = target.start_address().as_u64();
        let bits: u64 = flags.bits();
        let i: usize = self.find_or_add(start);
        let ghost before = *self;
        hw_set_entry_addr(&mut self.slots[i].table, index as usize, addr, bits);
        proof {
            before.lemma_table_replaced(*self, i as int);
            self.lemma_rows_complete();
            assert(self@ =~= write_entry(old(self)@, table@, index as int, target@ | flags@));
        }
    }

    /// Gives entry `index` of the table in frame `table` the flags `flags`;
    /// its address bits stay.
    pub fn set_entry_flags(&mut self, table: PhysFrame, index: u16, flags: PageTableFlags)
        requires
            old(self).wf(),
            index < 512,
        ensures
            final(self).wf(),
            final(self)@ == write_entry(
                old(self)@,
                table@,
                index as int,
                entry_address(read_entry(old(self)@, table@, index as int)) | flags@,
            ),
            rows_complete(final(self)@),
    {
        let start: u64 = table.start_address().as_u64();
        let bits: u64 = flags.bits();
        let i: usize = self.find_or_add(start);
        let ghost before = *self;
        hw_set_entry_flags(&mut self.slots[i].table, index as usize, bits);
        proof {
            before.lemma_table_replaced(*self, i as int);
            self.lemma_rows_complete();
            assert(self@ =~= write_entry(
                old(self)@,
                table@,
                index as int,
                entry_address(read_entry(old(self)@, table@, index as int)) | flags@,
            ));
        }
    }

    /// Sets entry `index` of the table in frame `table` to zero.
    pub fn clear_entry(&mut self, table: PhysFrame, index: u16)
        requires
            old(self).wf(),
            index < 512,
        ensures
            final(self).wf(),
            final(self)@ == write_entry(old(self)@, table@, index as int, 0),
            rows_complete(final(self)@),
    {
        let start: u64 = table.start_address().as_u64();
        let i: usize = self.find_or_add(start);
        let ghost before = *self;
        hw_set_entry_unused(&mut self.slots[i].table, index as usize);
        proof {
            before.lemma_table_replaced(*self, i as int);
            self.lemma_rows_complete();
            assert(self@ =~= write_entry(old(self)@, table@, index as int, 0));
        }
    }

    /// Puts a table with all entries zero into frame `table`.
    pub fn zero_table(&mut self, table: PhysFrame)
        requires
            old(self).wf(),
        ensures
            final(self).wf(),
            final(self)@ == old(self)@.insert(table@, zero_table()),
            rows_complete(final(self)@),
    {
        let start: u64 = table.start_address().as_u64();
        let i: usize = self.find_or_add(start);
        let ghost before = *self;
        self.slots[i].table = hw_new_table();
        proof {
            before.lemma_table_replaced(*self, i as int);
            self.lemma_rows_complete();
            assert(self@ =~= old(self)@.insert(table@, zero_table()));
        }
    }
}

} // verus!
