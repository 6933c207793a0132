//! The address-space mapper: installs and removes 4 KiB mappings in a
//! four-level page-table hierarchy.

use vstd::prelude::*;
use crate::addr::{
    Page, PageTableLevel, PhysAddr, PhysFrame, VirtAddr, align_down, is_canonical,
    is_page_aligned, page_offset, table_index, LOWER_HALF_END, PHYS_ADDR_END,
};
use crate::frame_allocator_bootinfo::FrameAllocatorBootInfo;
use crate::page_table::{
    FrameError, PageTableFlags, TableMemory, entry_address, entry_flags, entry_frame, leaf_entry,
    read_entry, resolve, rows_complete, table_at, write_entry, zero_table, ADDRESS_MASK,
    FLAGS_MASK, HUGE_PAGE, PARENT_FLAGS, PRESENT, WRITABLE,
};

verus! {

/// Whether every entry is either zero or present and not huge.
pub open spec fn entries_sound(tables: Map<u64, Seq<u64>>) -> bool {
    forall|table: u64, index: int|
        0 <= index < 512 ==> entry_sound(#[trigger] read_entry(tables, table, index))
}

/// Whether an entry is either zero or present and not huge.
pub open spec fn entry_sound(entry: u64) -> bool {
    entry == 0 || (entry_flags(entry) & PRESENT != 0 && entry_flags(entry) & HUGE_PAGE == 0)
}

/// Whether `a` and `b` select the same entries in the tables above `level`.
pub open spec fn same_prefix(a: u64, b: u64, level: nat) -> bool {
    &&& level >= 4 || table_index(a, 4) == table_index(b, 4)
    &&& level >= 3 || table_index(a, 3) == table_index(b, 3)
    &&& level >= 2 || table_index(a, 2) == table_index(b, 2)
    &&& level >= 1 || table_index(a, 1) == table_index(b, 1)
}

/// Whether the tables form a tree: a frame that serves as a table is reached
/// at one level only, and only by addresses that share the path to it.
pub open spec fn tree_shaped(tables: Map<u64, Seq<u64>>, root: u64) -> bool {
    forall|a: u64, b: u64, la: nat, lb: nat|
        1 <= la <= 4 && 1 <= lb <= 4 && (#[trigger] table_at(tables, root, a, la)) is Ok
            && table_at(tables, root, a, la) == (#[trigger] table_at(tables, root, b, lb)) ==> la
            == lb && same_prefix(a, b, la)
}

/// Whether the frame serves as a table nowhere in the hierarchy.
pub open spec fn not_a_table(tables: Map<u64, Seq<u64>>, root: u64, frame: u64) -> bool {
    forall|a: u64, l: nat|
        1 <= l <= 4 ==> (#[trigger] table_at(tables, root, a, l)) != Ok::<u64, FrameError>(frame)
}

/// A zero entry is sound and not present.
proof fn lemma_zero_entry()
    ensures
        entry_frame(0) == Err::<u64, FrameError>(FrameError::FrameNotPresent),
        entry_sound(0),
{
    assert(0u64 & FLAGS_MASK & PRESENT == 0) by (bit_vector);
}

/// An entry made of a frame address and present, non-huge flags is sound and
/// points to the frame.
proof fn lemma_pointer_entry(addr: u64, flags: u64)
    requires
        addr < PHYS_ADDR_END,
        is_page_aligned(addr),
        flags & ADDRESS_MASK == 0,
        flags & PRESENT != 0,
        flags & HUGE_PAGE == 0,
    ensures
        entry_frame(addr | flags) == Ok::<u64, FrameError>(addr),
        entry_sound(addr | flags),
        addr | flags != 0,
{
    assert((addr | flags) & ADDRESS_MASK == addr
        && (addr | flags) & FLAGS_MASK == flags) by (bit_vector)
        requires
            addr < 0x0010_0000_0000_0000,
            addr % 4096 == 0,
            flags & ADDRESS_MASK == 0,
    ;
    assert((addr | flags) != 0) by (bit_vector)
        requires
            flags & PRESENT != 0,
    ;
}

/// Adding non-huge flags to a sound entry keeps it sound and pointing to
/// the same frame.
proof fn lemma_merged_flags(entry: u64, insert: u64)
    requires
        entry != 0,
        entry_sound(entry),
        insert & ADDRESS_MASK == 0,
        insert & HUGE_PAGE == 0,
    ensures
        entry_frame(entry_address(entry) | (entry_flags(entry) | insert)) == entry_frame(entry),
        entry_sound(entry_address(entry) | (entry_flags(entry) | insert)),
        entry_address(entry) | (entry_flags(entry) | insert) != 0,
        (entry_flags(entry) | insert) & ADDRESS_MASK == 0,
{
    let merged = entry_address(entry) | (entry_flags(entry) | insert);
    assert(merged & ADDRESS_MASK == entry & ADDRESS_MASK && (merged & FLAGS_MASK) & PRESENT != 0
        && (merged & FLAGS_MASK) & HUGE_PAGE == 0 && merged != 0 && ((entry & FLAGS_MASK)
        | insert) & ADDRESS_MASK == 0) by (bit_vector)
        requires
            merged == (entry & ADDRESS_MASK) | ((entry & FLAGS_MASK) | insert),
            (entry & FLAGS_MASK) & PRESENT != 0,
            (entry & FLAGS_MASK) & HUGE_PAGE == 0,
            insert & ADDRESS_MASK == 0,
            insert & HUGE_PAGE == 0,
    ;
}

/// A write changes the entry written and no other.
proof fn lemma_read_after_write(tables: Map<u64, Seq<u64>>, t: u64, i: int, e: u64, t2: u64, i2: int)
    requires
        rows_complete(tables),
        0 <= i < 512,
        0 <= i2 < 512,
    ensures
        read_entry(write_entry(tables, t, i, e), t2, i2) == if t2 == t && i2 == i {
            e
        } else {
            read_entry(tables, t2, i2)
        },
{
}

/// A write leaves every table with 512 entries.
proof fn lemma_rows_after_write(tables: Map<u64, Seq<u64>>, t: u64, i: int, e: u64)
    requires
        rows_complete(tables),
        0 <= i < 512,
    ensures
        rows_complete(write_entry(tables, t, i, e)),
{
}

/// Two addresses that select the same entries down to `level` reach the same
/// table there.
proof fn lemma_walk_prefix(tables: Map<u64, Seq<u64>>, root: u64, a: u64, b: u64, level: nat)
    requires
        level <= 4,
        same_prefix(a, b, level),
    ensures
        table_at(tables, root, a, level) == table_at(tables, root, b, level),
    decreases 4 - level,
{
    if level < 4 {
        lemma_walk_prefix(tables, root, a, b, level + 1);
    }
}

/// Once the walk has stopped, it stays stopped at every lower level.
proof fn lemma_walk_stopped(tables: Map<u64, Seq<u64>>, root: u64, a: u64, high: nat, low: nat)
    requires
        low <= high <= 4,
        table_at(tables, root, a, high) is Err,
    ensures
        table_at(tables, root, a, low) == table_at(tables, root, a, high),
    decreases high - low,
{
    if low < high {
        lemma_walk_stopped(tables, root, a, high, low + 1);
    }
}

/// If every entry that the walk for `a` reads above `level` yields the same
/// frame in both memories, the walk reaches the same table at `level`.
proof fn lemma_walk_unchanged(
    before: Map<u64, Seq<u64>>,
    after: Map<u64, Seq<u64>>,
    root: u64,
    a: u64,
    level: nat,
)
    requires
        level <= 4,
        forall|k: nat|
            level < k <= 4 ==> match #[trigger] table_at(before, root, a, k) {
                Ok(t) => entry_frame(read_entry(after, t, table_index(a, k))) == entry_frame(
                    read_entry(before, t, table_index(a, k)),
                ),
                Err(_) => true,
            },
    ensures
        table_at(after, root, a, level) == table_at(before, root, a, level),
    decreases 4 - level,
{
    if level < 4 {
        lemma_walk_unchanged(before, after, root, a, level + 1);
        let up = table_at(before, root, a, level + 1);
        assert(table_at(after, root, a, level + 1) == up);
    }
}

/// Writing one entry of the table that `p` reaches at level `lp` changes the
/// walk only for addresses that select that entry, and for them only below
/// level `lp`.
proof fn lemma_write_walk(
    tables: Map<u64, Seq<u64>>,
    root: u64,
    p: u64,
    lp: nat,
    entry: u64,
    a: u64,
    level: nat,
)
    requires
        rows_complete(tables),
        tree_shaped(tables, root),
        1 <= lp <= 4,
        table_at(tables, root, p, lp) is Ok,
        level <= 4,
    ensures
        ({
            let t = table_at(tables, root, p, lp)->Ok_0;
            let after = write_entry(tables, t, table_index(p, lp), entry);
            &&& !same_prefix(a, p, (lp - 1) as nat) || level >= lp ==> table_at(
                after,
                root,
                a,
                level,
            ) == table_at(tables, root, a, level)
            &&& same_prefix(a, p, (lp - 1) as nat) && level == lp - 1 ==> table_at(
                after,
                root,
                a,
                level,
            ) == entry_frame(entry)
        }),
    decreases 4 - level,
{
    let t = table_at(tables, root, p, lp)->Ok_0;
    let i = table_index(p, lp);
    let after = write_entry(tables, t, i, entry);
    if !same_prefix(a, p, (lp - 1) as nat) || level >= lp {
        assert forall|k: nat| level < k <= 4 implies match #[trigger] table_at(
            tables,
            root,
            a,
            k,
        ) {
            Ok(tk) => entry_frame(read_entry(after, tk, table_index(a, k))) == entry_frame(
                read_entry(tables, tk, table_index(a, k)),
            ),
            Err(_) => true,
        } by {
            match table_at(tables, root, a, k) {
                Ok(tk) => {
                    lemma_read_after_write(tables, t, i, entry, tk, table_index(a, k));
                    if tk == t {
                        assert(table_at(tables, root, a, k) == table_at(tables, root, p, lp));
                        assert(k == lp && same_prefix(a, p, lp));
                    }
                },
                Err(_) => {},
            }
        }
        lemma_walk_unchanged(tables, after, root, a, level);
    }
    if same_prefix(a, p, (lp - 1) as nat) && level == lp - 1 {
        lemma_write_walk(tables, root, p, lp, entry, a, lp);
        lemma_walk_prefix(tables, root, a, p, lp);
        lemma_read_after_write(tables, t, i, entry, t, table_index(a, lp));
    }
}

/// Two canonical addresses select the same entry at every level exactly if
/// they lie in the same page.
pub proof fn lemma_same_page(a: u64, b: u64)
    requires
        is_canonical(a),
        is_canonical(b),
    ensures
        same_prefix(a, b, 0) <==> align_down(a) == align_down(b),
{
    assert(((a / 0x1000) % 512 == (b / 0x1000) % 512 && (a / 0x20_0000) % 512 == (b / 0x20_0000)
        % 512 && (a / 0x4000_0000) % 512 == (b / 0x4000_0000) % 512 && (a / 0x80_0000_0000) % 512
        == (b / 0x80_0000_0000) % 512) <==> a - a % 4096 == b - b % 4096) by (bit_vector)
        requires
            a < 0x0000_8000_0000_0000 || a >= 0xffff_8000_0000_0000,
            b < 0x0000_8000_0000_0000 || b >= 0xffff_8000_0000_0000,
    ;
}

/// With sound entries the walk never meets a huge frame.
proof fn lemma_no_huge(tables: Map<u64, Seq<u64>>, root: u64, a: u64, level: nat)
    requires
        entries_sound(tables),
        level <= 4,
    ensures
        table_at(tables, root, a, level) != Err::<u64, FrameError>(FrameError::HugeFrame),
    decreases 4 - level,
{
    if level < 4 {
        lemma_no_huge(tables, root, a, level + 1);
        lemma_zero_entry();
        match table_at(tables, root, a, level + 1) {
            Ok(t) => {
                assert(entry_sound(read_entry(tables, t, table_index(a, level + 1))));
            },
            Err(_) => {},
        }
    }
}

/// Whether the frames not yet issued serve as tables nowhere and are all
/// different.
pub open spec fn unissued_free(
    tables: Map<u64, Seq<u64>>,
    root: u64,
    frames: Seq<u64>,
    issued: nat,
) -> bool {
    &&& forall|n: int| issued <= n < frames.len()
        ==> not_a_table(tables, root, #[trigger] frames[n])
    &&& forall|n: int, m: int|
        issued <= n < m < frames.len() ==> #[trigger] frames[n] != #[trigger] frames[m]
}

/// The invariant of the table memory of a mapper.
pub open spec fn hierarchy_wf(tables: Map<u64, Seq<u64>>, root: u64) -> bool {
    &&& rows_complete(tables)
    &&& entries_sound(tables)
    &&& tree_shaped(tables, root)
}

/// Zeroing a frame that is no table changes no walk.
proof fn lemma_zero_fresh(tables: Map<u64, Seq<u64>>, root: u64, frame: u64)
    requires
        hierarchy_wf(tables, root),
        not_a_table(tables, root, frame),
    ensures
        hierarchy_wf(tables.insert(frame, zero_table()), root),
        forall|a: u64, l: nat|
            l <= 4 ==> #[trigger] table_at(tables.insert(frame, zero_table()), root, a, l)
                == table_at(tables, root, a, l),
        forall|i: int|
            0 <= i < 512 ==> #[trigger] read_entry(tables.insert(frame, zero_table()), frame, i)
                == 0,
{
    let after = tables.insert(frame, zero_table());
    assert forall|a: u64, l: nat| l <= 4 implies #[trigger] table_at(after, root, a, l)
        == table_at(tables, root, a, l) by {
        assert forall|k: nat| l < k <= 4 implies match #[trigger] table_at(tables, root, a, k) {
            Ok(t) => entry_frame(read_entry(after, t, table_index(a, k))) == entry_frame(
                read_entry(tables, t, table_index(a, k)),
            ),
            Err(_) => true,
        } by {}
        lemma_walk_unchanged(tables, after, root, a, l);
    }
    lemma_zero_entry();
    assert forall|table: u64, index: int| 0 <= index < 512 implies entry_sound(
        #[trigger] read_entry(after, table, index),
    ) by {
        if table != frame {
            assert(read_entry(after, table, index) == read_entry(tables, table, index));
        }
    }
}

/// Pointing an unused entry of a table to a zeroed frame that was no table
/// makes that frame the next table for the addresses that select the entry,
/// and changes nothing else.
proof fn lemma_link(
    tables: Map<u64, Seq<u64>>,
    root: u64,
    p: u64,
    lp: nat,
    frame: u64,
    flags: u64,
)
    requires
        hierarchy_wf(tables, root),
        2 <= lp <= 4,
        table_at(tables, root, p, lp) is Ok,
        read_entry(tables, table_at(tables, root, p, lp)->Ok_0, table_index(p, lp)) == 0,
        not_a_table(tables, root, frame),
        forall|i: int| 0 <= i < 512 ==> #[trigger] read_entry(tables, frame, i) == 0,
        frame < PHYS_ADDR_END,
        is_page_aligned(frame),
        flags & ADDRESS_MASK == 0,
        flags & PRESENT != 0,
        flags & HUGE_PAGE == 0,
    ensures
        ({
            let t = table_at(tables, root, p, lp)->Ok_0;
            let after = write_entry(tables, t, table_index(p, lp), frame | flags);
            &&& hierarchy_wf(after, root)
            &&& forall|a: u64, l: nat|
                l <= 4 ==> #[trigger] table_at(after, root, a, l) == if same_prefix(
                    a,
                    p,
                    (lp - 1) as nat,
                ) && l == lp - 1 {
                    Ok::<u64, FrameError>(frame)
                } else {
                    table_at(tables, root, a, l)
                }
        }),
{
    let t = table_at(tables, root, p, lp)->Ok_0;
    let i = table_index(p, lp);
    let entry = frame | flags;
    let after = write_entry(tables, t, i, entry);
    lemma_pointer_entry(frame, flags);
    lemma_zero_entry();
    lemma_rows_after_write(tables, t, i, entry);
    assert(t != frame);
    assert forall|table: u64, index: int| 0 <= index < 512 implies entry_sound(
        #[trigger] read_entry(after, table, index),
    ) by {
        lemma_read_after_write(tables, t, i, entry, table, index);
        assert(entry_sound(read_entry(tables, table, index)));
    }
    assert forall|a: u64, l: nat| l <= 4 implies #[trigger] table_at(after, root, a, l)
        == if same_prefix(a, p, (lp - 1) as nat) && l == lp - 1 {
        Ok::<u64, FrameError>(frame)
    } else {
        table_at(tables, root, a, l)
    } by {
        lemma_write_walk(tables, root, p, lp, entry, a, l);
        if same_prefix(a, p, (lp - 1) as nat) && l < lp - 1 {
            let child = (lp - 1) as nat;
            lemma_write_walk(tables, root, p, lp, entry, a, child);
            lemma_write_walk(tables, root, p, lp, entry, a, lp);
            lemma_walk_prefix(tables, root, a, p, lp);
            // before the write the walk stopped at the unused entry
            assert(table_at(tables, root, a, child) is Err);
            lemma_walk_stopped(tables, root, a, child, l);
            // after the write it stops in the zeroed table
            let below = (lp - 2) as nat;
            lemma_read_after_write(tables, t, i, entry, frame, table_index(a, child));
            assert(table_at(after, root, a, below) == Err::<u64, FrameError>(
                FrameError::FrameNotPresent,
            ));
            lemma_walk_stopped(after, root, a, below, l);
        }
    }
    assert forall|a: u64, b: u64, la: nat, lb: nat|
        1 <= la <= 4 && 1 <= lb <= 4 && (#[trigger] table_at(after, root, a, la)) is Ok
            && table_at(after, root, a, la) == (#[trigger] table_at(
            after,
            root,
            b,
            lb,
        )) implies la == lb && same_prefix(a, b, la) by {
        let new_a = same_prefix(a, p, (lp - 1) as nat) && la == lp - 1;
        let new_b = same_prefix(b, p, (lp - 1) as nat) && lb == lp - 1;
        if new_a && new_b {
        } else if new_a {
            assert(table_at(tables, root, b, lb) == Ok::<u64, FrameError>(frame));
        } else if new_b {
            assert(table_at(tables, root, a, la) == Ok::<u64, FrameError>(frame));
        } else {
            assert(table_at(tables, root, a, la) == table_at(tables, root, b, lb));
        }
    }
}

/// Replacing an entry by one that points to the same frame changes no walk.
proof fn lemma_same_target(tables: Map<u64, Seq<u64>>, root: u64, t: u64, i: int, entry: u64)
    requires
        hierarchy_wf(tables, root),
        0 <= i < 512,
        entry_frame(entry) == entry_frame(read_entry(tables, t, i)),
        entry_sound(entry),
    ensures
        hierarchy_wf(write_entry(tables, t, i, entry), root),
        forall|a: u64, l: nat|
            l <= 4 ==> #[trigger] table_at(write_entry(tables, t, i, entry), root, a, l)
                == table_at(tables, root, a, l),
{
    let after = write_entry(tables, t, i, entry);
    lemma_rows_after_write(tables, t, i, entry);
    assert forall|table: u64, index: int| 0 <= index < 512 implies entry_sound(
        #[trigger] read_entry(after, table, index),
    ) by {
        lemma_read_after_write(tables, t, i, entry, table, index);
        assert(entry_sound(read_entry(tables, table, index)));
    }
    assert forall|a: u64, l: nat| l <= 4 implies #[trigger] table_at(after, root, a, l)
        == table_at(tables, root, a, l) by {
        assert forall|k: nat| l < k <= 4 implies match #[trigger] table_at(tables, root, a, k) {
            Ok(tk) => entry_frame(read_entry(after, tk, table_index(a, k))) == entry_frame(
                read_entry(tables, tk, table_index(a, k)),
            ),
            Err(_) => true,
        } by {
            match table_at(tables, root, a, k) {
                Ok(tk) => {
                    lemma_read_after_write(tables, t, i, entry, tk, table_index(a, k));
                },
                Err(_) => {},
            }
        }
        lemma_walk_unchanged(tables, after, root, a, l);
    }
}

/// Writing the entry of a leaf table changes the mapping of one page and no
/// table of the hierarchy.
proof fn lemma_leaf(tables: Map<u64, Seq<u64>>, root: u64, p: u64, entry: u64)
    requires
        hierarchy_wf(tables, root),
        table_at(tables, root, p, 1) is Ok,
        entry_sound(entry),
    ensures
        ({
            let t = table_at(tables, root, p, 1)->Ok_0;
            let after = write_entry(tables, t, table_index(p, 1), entry);
            &&& hierarchy_wf(after, root)
            &&& forall|a: u64, l: nat|
                1 <= l <= 4 ==> #[trigger] table_at(after, root, a, l) == table_at(
                    tables,
                    root,
                    a,
                    l,
                )
            &&& forall|a: u64| #[trigger]
                table_at(after, root, a, 0) == if same_prefix(a, p, 0) {
                    entry_frame(entry)
                } else {
                    table_at(tables, root, a, 0)
                }
        }),
{
    let t = table_at(tables, root, p, 1)->Ok_0;
    let i = table_index(p, 1);
    let after = write_entry(tables, t, i, entry);
    lemma_rows_after_write(tables, t, i, entry);
    assert forall|table: u64, index: int| 0 <= index < 512 implies entry_sound(
        #[trigger] read_entry(after, table, index),
    ) by {
        lemma_read_after_write(tables, t, i, entry, table, index);
        assert(entry_sound(read_entry(tables, table, index)));
    }
    assert forall|a: u64, l: nat| 1 <= l <= 4 implies #[trigger] table_at(after, root, a, l)
        == table_at(tables, root, a, l) by {
        lemma_write_walk(tables, root, p, 1, entry, a, l);
    }
    assert forall|a: u64| #[trigger]
        table_at(after, root, a, 0) == if same_prefix(a, p, 0) {
            entry_frame(entry)
        } else {
            table_at(tables, root, a, 0)
        } by {
        lemma_write_walk(tables, root, p, 1, entry, a, 0);
    }
}

/// Zeroing a frame that is no table changes no leaf entry.
proof fn lemma_leaf_entry_zero_fresh(tables: Map<u64, Seq<u64>>, root: u64, frame: u64, a: u64)
    requires
        hierarchy_wf(tables, root),
        not_a_table(tables, root, frame),
    ensures
        leaf_entry(tables.insert(frame, zero_table()), root, a) == leaf_entry(tables, root, a),
{
    lemma_zero_fresh(tables, root, frame);
    let after = tables.insert(frame, zero_table());
    assert(table_at(after, root, a, 1) == table_at(tables, root, a, 1));
}

/// Linking a zeroed frame in as a table changes no leaf entry.
proof fn lemma_leaf_entry_link(
    tables: Map<u64, Seq<u64>>,
    root: u64,
    p: u64,
    lp: nat,
    frame: u64,
    flags: u64,
    a: u64,
)
    requires
        hierarchy_wf(tables, root),
        2 <= lp <= 4,
        table_at(tables, root, p, lp) is Ok,
        read_entry(tables, table_at(tables, root, p, lp)->Ok_0, table_index(p, lp)) == 0,
        not_a_table(tables, root, frame),
        forall|i: int| 0 <= i < 512 ==> #[trigger] read_entry(tables, frame, i) == 0,
        frame < PHYS_ADDR_END,
        is_page_aligned(frame),
        flags & ADDRESS_MASK == 0,
        flags & PRESENT != 0,
        flags & HUGE_PAGE == 0,
    ensures
        leaf_entry(
            write_entry(
                tables,
                table_at(tables, root, p, lp)->Ok_0,
                table_index(p, lp),
                frame | flags,
            ),
            root,
            a,
        ) == leaf_entry(tables, root, a),
{
    let t = table_at(tables, root, p, lp)->Ok_0;
    let i = table_index(p, lp);
    let after = write_entry(tables, t, i, frame | flags);
    lemma_link(tables, root, p, lp, frame, flags);
    assert(t != frame);
    if same_prefix(a, p, (lp - 1) as nat) && lp == 2 {
        assert(table_at(after, root, a, 1) == Ok::<u64, FrameError>(frame));
        lemma_read_after_write(tables, t, i, frame | flags, frame, table_index(a, 1));
        lemma_write_walk(tables, root, p, lp, frame | flags, a, lp);
        lemma_walk_prefix(tables, root, a, p, lp);
        lemma_zero_entry();
        assert(table_at(tables, root, a, 1) is Err);
    } else {
        assert(table_at(after, root, a, 1) == table_at(tables, root, a, 1));
        match table_at(tables, root, a, 1) {
            Ok(t1) => {
                assert(t1 != t) by {
                    if t1 == t {
                        assert(table_at(tables, root, a, 1) == table_at(tables, root, p, lp));
                    }
                }
                lemma_read_after_write(tables, t, i, frame | flags, t1, table_index(a, 1));
            },
            Err(_) => {},
        }
    }
}

/// Changing the flags of an entry of a table above the leaf tables changes
/// no leaf entry.
proof fn lemma_leaf_entry_same_target(
    tables: Map<u64, Seq<u64>>,
    root: u64,
    p: u64,
    lp: nat,
    entry: u64,
    a: u64,
)
    requires
        hierarchy_wf(tables, root),
        2 <= lp <= 4,
        table_at(tables, root, p, lp) is Ok,
        entry_frame(entry) == entry_frame(
            read_entry(tables, table_at(tables, root, p, lp)->Ok_0, table_index(p, lp)),
        ),
        entry_sound(entry),
    ensures
        leaf_entry(
            write_entry(tables, table_at(tables, root, p, lp)->Ok_0, table_index(p, lp), entry),
            root,
            a,
        ) == leaf_entry(tables, root, a),
{
    let t = table_at(tables, root, p, lp)->Ok_0;
    let i = table_index(p, lp);
    let after = write_entry(tables, t, i, entry);
    lemma_same_target(tables, root, t, i, entry);
    assert(table_at(after, root, a, 1) == table_at(tables, root, a, 1));
    match table_at(tables, root, a, 1) {
        Ok(t1) => {
            assert(t1 != t) by {
                if t1 == t {
                    assert(table_at(tables, root, a, 1) == table_at(tables, root, p, lp));
                }
            }
            lemma_read_after_write(tables, t, i, entry, t1, table_index(a, 1));
        },
        Err(_) => {},
    }
}

/// Writing the entry of a leaf table changes the leaf entry of one page.
proof fn lemma_leaf_entry_leaf(tables: Map<u64, Seq<u64>>, root: u64, p: u64, entry: u64, a: u64)
    requires
        hierarchy_wf(tables, root),
        table_at(tables, root, p, 1) is Ok,
        entry_sound(entry),
    ensures
        leaf_entry(
            write_entry(tables, table_at(tables, root, p, 1)->Ok_0, table_index(p, 1), entry),
            root,
            a,
        ) == if same_prefix(a, p, 0) {
            entry
        } else {
            leaf_entry(tables, root, a)
        },
{
    let t = table_at(tables, root, p, 1)->Ok_0;
    let i = table_index(p, 1);
    let after = write_entry(tables, t, i, entry);
    lemma_leaf(tables, root, p, entry);
    assert(table_at(after, root, a, 1) == table_at(tables, root, a, 1));
    if same_prefix(a, p, 0) {
        lemma_walk_prefix(tables, root, a, p, 1);
        lemma_read_after_write(tables, t, i, entry, t, table_index(a, 1));
    } else {
        match table_at(tables, root, a, 1) {
            Ok(t1) => {
                lemma_read_after_write(tables, t, i, entry, t1, table_index(a, 1));
                if t1 == t {
                    assert(table_at(tables, root, a, 1) == table_at(tables, root, p, 1));
                }
            },
            Err(_) => {},
        }
    }
}

/// With sound entries, an address resolves as its leaf entry says.
proof fn lemma_frame_by_leaf_entry(tables: Map<u64, Seq<u64>>, root: u64, a: u64)
    requires
        entries_sound(tables),
    ensures
        table_at(tables, root, a, 0) == entry_frame(leaf_entry(tables, root, a)),
{
    lemma_zero_entry();
    lemma_no_huge(tables, root, a, 1);
}

/// Why a mapping could not be installed.
#[derive(Clone, Copy, Debug)]
pub enum MapToError {
    /// A table of the hierarchy was missing and no frame was left for it.
    FrameAllocationFailed,
    /// The page is mapped already. Holds the frame that was to be mapped.
    PageAlreadyMapped(PhysFrame),
}

/// Why a mapping could not be removed.
#[derive(Clone, Copy, PartialEq, Eq, Structural, Debug)]
pub enum UnmapError {
    /// The page is not mapped.
    PageNotMapped,
}

/// The obligation to flush the cached entry of a page from the
/// address-lookup cache of the processor before the changed mapping is
/// relied on.
#[must_use]
#[derive(Clone, Copy, Debug)]
pub struct MapperFlush {
    page: Page,
}

impl MapperFlush {
    /// The page whose cached entry is stale.
    pub closed spec fn page_spec(self) -> Page {
        self.page
    }

    /// The page whose cached entry is stale.
    pub fn page(&self) -> (page: Page)
        ensures
            page == self.page_spec(),
    {
        self.page
    }

    /// Gives the obligation up without a flush.
    pub fn ignore(self) {
    }
}

/// The mapper of one address space: the top-level table, the offset at which
/// physical memory is visible in virtual memory, and the memory that holds
/// the tables.
pub struct AddressSpaceMapper {
    level_4_frame: PhysFrame,
    physical_memory_offset: VirtAddr,
    memory: TableMemory,
}

impl AddressSpaceMapper {
    /// The page tables by frame address.
    pub closed spec fn tables(self) -> Map<u64, Seq<u64>> {
        self.memory@
    }

    /// The frame of the top-level table.
    pub closed spec fn root(self) -> u64 {
        self.level_4_frame@
    }

    /// The offset at which physical memory is visible in virtual memory.
    pub closed spec fn offset(self) -> u64 {
        self.physical_memory_offset@
    }

    /// The tables form a tree of complete tables whose entries are zero or
    /// present and not huge.
    pub closed spec fn wf(self) -> bool {
        &&& self.memory.wf()
        &&& hierarchy_wf(self.memory@, self.level_4_frame@)
    }

    /// The table of `level` (4 down to 1) on the way to `addr`; at level 0
    /// the frame that the page of `addr` is mapped to.
    pub open spec fn table_of(self, addr: u64, level: nat) -> Result<u64, FrameError> {
        table_at(self.tables(), self.root(), addr, level)
    }

    /// What `addr` resolves to.
    pub open spec fn translate_spec(self, addr: u64) -> Result<u64, FrameError> {
        resolve(self.tables(), self.root(), addr)
    }

    /// The raw leaf entry for the page of `addr`, zero where no leaf table
    /// is reached: the frame that the page is mapped to and the flags of
    /// the mapping.
    pub open spec fn entry_of(self, addr: u64) -> u64 {
        leaf_entry(self.tables(), self.root(), addr)
    }

    /// Whether this mapper differs from `before` in that the leaf entry of
    /// `page` is `entry`.
    pub open spec fn entry_set(self, before: AddressSpaceMapper, page: u64, entry: u64) -> bool {
        forall|a: u64|
            is_canonical(a) ==> #[trigger] self.entry_of(a) == if align_down(a) == page {
                entry
            } else {
                before.entry_of(a)
            }
    }

    /// Whether the tables of this mapper are those of `before` and, on the
    /// way to `page`, the lowest `created` of the tables that were missing
    /// there: the table of level `l` lies in frame
    /// `frames[first + missing - l]`, so that the frames are used in order
    /// from the highest missing level down.
    #[verifier::opaque]
    pub open spec fn tables_created(
        self,
        before: AddressSpaceMapper,
        page: u64,
        frames: Seq<u64>,
        first: int,
        created: int,
    ) -> bool {
        forall|a: u64, l: nat|
            1 <= l <= 4 ==> #[trigger] self.table_of(a, l) == if same_prefix(a, page, l)
                && before.missing_tables(page) - created < l <= before.missing_tables(page) {
                Ok::<u64, FrameError>(frames[first + before.missing_tables(page) - l])
            } else {
                before.table_of(a, l)
            }
    }

    /// Whether every leaf entry is as it is in `before`.
    pub open spec fn same_entries(self, before: AddressSpaceMapper) -> bool {
        forall|a: u64| #[trigger] self.entry_of(a) == before.entry_of(a)
    }

    /// The raw entry that `addr` selects in the table of `level` on its way,
    /// zero where the walk does not reach that table.
    pub open spec fn path_entry(self, addr: u64, level: nat) -> u64 {
        match self.table_of(addr, level) {
            Ok(table) => read_entry(self.tables(), table, table_index(addr, level)),
            Err(_) => 0,
        }
    }

    /// Whether the page that contains `addr` is mapped.
    pub open spec fn is_mapped(self, addr: u64) -> bool {
        self.translate_spec(addr) is Ok
    }

    /// How many tables are missing on the way to `page`.
    pub open spec fn missing_tables(self, page: u64) -> nat {
        if self.table_of(page, 3) is Err {
            3
        } else if self.table_of(page, 2) is Err {
            2
        } else if self.table_of(page, 1) is Err {
            1
        } else {
            0
        }
    }

    /// Whether this mapper differs from `before` in that `page` is mapped to
    /// `frame`: an address of the page resolves to the same offset in the
    /// frame, every other address resolves as before.
    pub open spec fn mapped_to(self, before: AddressSpaceMapper, page: u64, frame: u64) -> bool {
        forall|a: u64|
            is_canonical(a) ==> #[trigger] self.translate_spec(a) == if align_down(a) == page {
                Ok::<u64, FrameError>((frame + page_offset(a)) as u64)
            } else {
                before.translate_spec(a)
            }
    }

    /// Whether this mapper differs from `before` in that `page` is not
    /// mapped: no address of the page resolves, every other address resolves
    /// as before.
    pub open spec fn unmapped(self, before: AddressSpaceMapper, page: u64) -> bool {
        forall|a: u64|
            is_canonical(a) ==> #[trigger] self.translate_spec(a) == if align_down(a) == page {
                Err::<u64, FrameError>(FrameError::FrameNotPresent)
            } else {
                before.translate_spec(a)
            }
    }

    /// Whether every address resolves as it does in `before`.
    pub open spec fn same_mappings(self, before: AddressSpaceMapper) -> bool {
        forall|a: u64| #[trigger] self.translate_spec(a) == before.translate_spec(a)
    }

    /// Whether the frames that `allocator` has not issued yet are free as far
    /// as this mapper is concerned: none serves as a page table, and no two
    /// are the same.
    pub open spec fn frames_free(self, allocator: FrameAllocatorBootInfo) -> bool {
        unissued_free(self.tables(), self.root(), allocator.frames(), allocator.issued())
    }

    /// A mapper over the top-level table in `level_4_frame`, with no mapping
    /// in it.
    pub fn new(level_4_frame: PhysFrame, physical_memory_offset: VirtAddr) -> (mapper:
        AddressSpaceMapper)
        ensures
            mapper.wf(),
            mapper.root() == level_4_frame@,
            mapper.offset() == physical_memory_offset@,
            forall|a: u64| #[trigger] mapper.translate_spec(a) == Err::<u64, FrameError>(
                FrameError::FrameNotPresent,
            ),
            forall|a: u64, l: nat|
                l < 4 ==> #[trigger] mapper.table_of(a, l) == Err::<u64, FrameError>(
                    FrameError::FrameNotPresent,
                ),
    {
        let mut memory: TableMemory = TableMemory::new();
        memory.zero_table(level_4_frame);
        let mapper = AddressSpaceMapper { level_4_frame, physical_memory_offset, memory };
        proof {
            let tables = mapper.memory@;
            let root = level_4_frame@;
            lemma_zero_entry();
            assert forall|table: u64, index: int| 0 <= index < 512 implies entry_sound(
                #[trigger] read_entry(tables, table, index),
            ) by {}
            assert forall|a: u64, l: nat| l < 4 implies #[trigger] table_at(tables, root, a, l)
                == Err::<u64, FrameError>(FrameError::FrameNotPresent) by {
                assert(table_at(tables, root, a, 4) == Ok::<u64, FrameError>(root));
                assert(read_entry(tables, root, table_index(a, 4)) == 0);
                assert(table_at(tables, root, a, 3) == Err::<u64, FrameError>(
                    FrameError::FrameNotPresent,
                ));
                lemma_walk_stopped(tables, root, a, 3, l);
            }
        }
        mapper
    }

    /// The frame of the top-level table.
    pub fn level_4_frame(&self) -> (frame: PhysFrame)
        ensures
            frame@ == self.root(),
    {
        self.level_4_frame
    }

    /// The offset at which physical memory is visible in virtual memory.
    pub fn phys_offset(&self) -> (offset: VirtAddr)
        ensures
            offset@ == self.offset(),
    {
        self.physical_memory_offset
    }

    /// The memory that holds the tables of this mapper.
    pub fn memory(&self) -> (memory: &TableMemory)
        requires
            self.wf(),
        ensures
            memory.wf(),
            memory@ == self.tables(),
    {
        &self.memory
    }

    /// The physical address that `addr` is mapped to, or `None` if it is not
    /// mapped.
    pub fn translate_addr(&self, addr: VirtAddr) -> (phys: Option<PhysAddr>)
        requires
            self.wf(),
        ensures
            match self.translate_spec(addr@) {
                Ok(p) => phys matches Some(a) && a@ == p,
                Err(_) => phys is None,
            },
    {
        proof {
            lemma_no_huge(self.memory@, self.level_4_frame@, addr@, 0);
        }
        crate::translate_address(&self.memory, self.level_4_frame, addr)
    }

    /// Whether every walk reaches the tables it reaches in `before`.
    spec fn walks_kept(self, before: AddressSpaceMapper) -> bool {
        forall|a: u64, l: nat|
            l <= 4 ==> #[trigger] table_at(self.tables(), self.root(), a, l) == table_at(
                before.tables(),
                before.root(),
                a,
                l,
            )
    }

    /// Whether the walks differ from those in `before` in that `frame` is
    /// the table of level `child` on the way to `page`.
    spec fn table_linked(self, before: AddressSpaceMapper, page: u64, child: nat, frame: u64) -> bool {
        forall|a: u64, l: nat|
            l <= 4 ==> #[trigger] table_at(self.tables(), self.root(), a, l) == if same_prefix(
                a,
                page,
                child,
            ) && l == child {
                Ok::<u64, FrameError>(frame)
            } else {
                table_at(before.tables(), before.root(), a, l)
            }
    }

    /// Whether every entry is as it is in `before`, but for entry `index` of
    /// the table in frame `table` and for the entries of the frame `fresh`.
    spec fn slots_kept(
        self,
        before: AddressSpaceMapper,
        table: u64,
        index: int,
        fresh: Option<u64>,
    ) -> bool {
        forall|t: u64, i: int|
            0 <= i < 512
                && !(t == table && i == index)
                && fresh != Some(t) ==> #[trigger] read_entry(
                self.tables(),
                t,
                i,
            ) == read_entry(before.tables(), t, i)
    }

    /// Whether every page is mapped as it is in `before`.
    spec fn leaves_kept(self, before: AddressSpaceMapper) -> bool {
        &&& forall|a: u64| #[trigger]
            table_at(self.tables(), self.root(), a, 0) == table_at(
                before.tables(),
                before.root(),
                a,
                0,
            )
        &&& forall|a: u64| #[trigger]
            leaf_entry(self.tables(), self.root(), a) == leaf_entry(
                before.tables(),
                before.root(),
                a,
            )
    }

    /// The table below entry `page` of `table`, which is the table of
    /// `level` on the way to `page`. Where the entry is unused, a frame is
    /// taken from `allocator`, zeroed and linked in; `None` if there is no
    /// frame left. Where the entry is in use, it gains the flags
    /// `parent_flags`.
    fn create_next_table(
        &mut self,
        table: PhysFrame,
        page: Page,
        level: PageTableLevel,
        parent_flags: PageTableFlags,
        allocator: &mut FrameAllocatorBootInfo,
    ) -> (next: Option<PhysFrame>)
        requires
            old(self).wf(),
            old(allocator).wf(),
            old(self).frames_free(*old(allocator)),
            level.number() >= 2,
            old(self).table_of(page@, level.number()) == Ok::<u64, FrameError>(table@),
            parent_flags@ & PRESENT != 0,
            parent_flags@ & HUGE_PAGE == 0,
        ensures
            final(self).wf(),
            final(allocator).wf(),
            final(self).frames_free(*final(allocator)),
            final(allocator).regions() == old(allocator).regions(),
            final(self).root() == old(self).root(),
            final(self).offset() == old(self).offset(),
            final(self).leaves_kept(*old(self)),
            old(self).table_of(page@, (level.number() - 1) as nat) is Ok ==> {
                &&& next is Some
                &&& final(allocator).issued() == old(allocator).issued()
                &&& final(self).walks_kept(*old(self))
            },
            old(self).table_of(page@, (level.number() - 1) as nat) is Err
                && old(allocator).issued() < old(allocator).frames().len() ==> {
                &&& next is Some
                &&& final(allocator).issued() == old(allocator).issued() + 1
                &&& final(self).table_linked(
                    *old(self),
                    page@,
                    (level.number() - 1) as nat,
                    old(allocator).frames()[old(allocator).issued() as int],
                )
            },
            old(self).table_of(page@, (level.number() - 1) as nat) is Err
                && old(allocator).issued() >= old(allocator).frames().len() ==> {
                &&& next is None
                &&& final(allocator).issued() == old(allocator).issued()
                &&& final(self).walks_kept(*old(self))
            },
            next matches Some(n) ==> final(self).table_of(page@, (level.number() - 1) as nat)
                == Ok::<u64, FrameError>(n@),
            next is Some ==> entry_flags(
                read_entry(final(self).tables(), table@, table_index(page@, level.number())),
            ) & parent_flags@ == parent_flags@,
            final(self).slots_kept(
                *old(self),
                table@,
                table_index(page@, level.number()),
                if old(self).table_of(page@, (level.number() - 1) as nat) is Err && old(
                    allocator,
                ).issued() < old(allocator).frames().len() {
                    Some(old(allocator).frames()[old(allocator).issued() as int])
                } else {
                    None
                },
            ),
    {
        let ghost tables = self.memory@;
        let ghost root = self.level_4_frame@;
        let ghost lp = level.number();
        let ghost child = (lp - 1) as nat;
        let index: u16 = page.start_address().page_table_index(level);
        proof {
            use_type_invariant(parent_flags);
            lemma_zero_entry();
            assert(entry_sound(read_entry(tables, table@, index as int)));
        }
        if self.memory.entry_is_unused(table, index) {
            match allocator.allocate_frame() {
                None => None,
                Some(frame) => {
                    let ghost frames = allocator.frames();
                    let ghost issued = old(allocator).issued();
                    proof {
                        use_type_invariant(frame);
                        assert(frames[issued as int] == frame@);
                        assert(not_a_table(tables, root, frame@));
                        lemma_zero_fresh(tables, root, frame@);
                    }
                    self.memory.zero_table(frame);
                    let ghost zeroed = self.memory@;
                    proof {
                        assert(table_at(zeroed, root, page@, lp)
                            == table_at(tables, root, page@, lp));
                        assert(read_entry(zeroed, table@, index as int) == 0);
                        assert(not_a_table(zeroed, root, frame@)) by {
                            assert forall|a: u64, l: nat| 1 <= l <= 4 implies (#[trigger] table_at(
                                zeroed,
                                root,
                                a,
                                l,
                            )) != Ok::<u64, FrameError>(frame@) by {
                                assert(table_at(zeroed, root, a, l)
                                    == table_at(tables, root, a, l));
                            }
                        }
                        lemma_link(zeroed, root, page@, lp, frame@, parent_flags@);
                    }
                    self.memory.set_entry(table, index, frame, parent_flags);
                    proof {
                        let after = self.memory@;
                        assert forall|a: u64, l: nat| l <= 4 implies #[trigger] table_at(
                            after,
                            root,
                            a,
                            l,
                        ) == if same_prefix(a, page@, child) && l == child {
                            Ok::<u64, FrameError>(frame@)
                        } else {
                            table_at(tables, root, a, l)
                        } by {
                            assert(table_at(zeroed, root, a, l) == table_at(tables, root, a, l));
                        }
                        assert forall|n: int|
                            issued + 1 <= n < frames.len() implies not_a_table(
                            after,
                            root,
                            #[trigger] frames[n],
                        ) by {
                            assert(not_a_table(tables, root, frames[n]));
                            assert(frames[n] != frames[issued as int]);
                            assert forall|a: u64, l: nat| 1 <= l <= 4 implies (#[trigger] table_at(
                                after,
                                root,
                                a,
                                l,
                            )) != Ok::<u64, FrameError>(frames[n]) by {}
                        }
                        assert forall|a: u64| #[trigger]
                            leaf_entry(after, root, a) == leaf_entry(tables, root, a) by {
                            lemma_leaf_entry_zero_fresh(tables, root, frame@, a);
                            lemma_leaf_entry_link(zeroed, root, page@, lp, frame@, parent_flags@, a);
                        }
                        lemma_entry_parts(frame@, parent_flags@);
                        lemma_read_after_write(
                            zeroed,
                            table@,
                            index as int,
                            frame@ | parent_flags@,
                            table@,
                            index as int,
                        );
                        let inserted = parent_flags@;
                        assert(inserted & inserted == inserted) by (bit_vector);
                        assert forall|t: u64, i: int|
                            0 <= i < 512 && !(t == table@ && i == index) && t
                                != frame@ implies #[trigger] read_entry(after, t, i) == read_entry(
                            tables,
                            t,
                            i,
                        ) by {
                            lemma_read_after_write(
                                zeroed,
                                table@,
                                index as int,
                                frame@ | parent_flags@,
                                t,
                                i,
                            );
                        }
                    }
                    Some(frame)
                },
            }
        } else {
            let flags: PageTableFlags = self.memory.entry_flags(table, index);
            if !flags.contains(parent_flags) {
                let merged: PageTableFlags = flags.union(parent_flags);
                proof {
                    let entry = read_entry(tables, table@, index as int);
                    lemma_merged_flags(entry, parent_flags@);
                    let old_flags = entry_flags(entry);
                    let address = entry_address(entry);
                    let insert = parent_flags@;
                    assert((address | (old_flags | insert)) & FLAGS_MASK == old_flags | insert
                        && (old_flags | insert) & insert == insert) by (bit_vector)
                        requires
                            address == entry & ADDRESS_MASK,
                            old_flags == entry & FLAGS_MASK,
                            insert & ADDRESS_MASK == 0,
                    ;
                    assert forall|t: u64, i: int|
                        0 <= i < 512 && !(t == table@ && i == index) implies #[trigger] read_entry(
                        write_entry(tables, table@, index as int, address | merged@),
                        t,
                        i,
                    ) == read_entry(tables, t, i) by {
                        lemma_read_after_write(
                            tables,
                            table@,
                            index as int,
                            address | merged@,
                            t,
                            i,
                        );
                    }
                    lemma_same_target(
                        tables,
                        root,
                        table@,
                        index as int,
                        entry_address(entry) | merged@,
                    );
                    assert forall|a: u64| #[trigger]
                        leaf_entry(
                            write_entry(
                                tables,
                                table@,
                                index as int,
                                entry_address(entry) | merged@,
                            ),
                            root,
                            a,
                        ) == leaf_entry(tables, root, a) by {
                        lemma_leaf_entry_same_target(
                            tables,
                            root,
                            page@,
                            lp,
                            entry_address(entry) | merged@,
                            a,
                        );
                    }
                }
                self.memory.set_entry_flags(table, index, merged);
            }
            let next = self.memory.entry_frame(table, index);
            proof {
                let after = self.memory@;
                assert(table_at(after, root, page@, lp) == table_at(tables, root, page@, lp));
                assert(table_at(after, root, page@, child) == table_at(tables, root, page@, child));
                assert(entry_sound(read_entry(after, table@, index as int)));
                assert forall|n: int|
                    allocator.issued() <= n < allocator.frames().len() implies not_a_table(
                    after,
                    root,
                    #[trigger] allocator.frames()[n],
                ) by {
                    assert(not_a_table(tables, root, allocator.frames()[n]));
                    assert forall|a: u64, l: nat| 1 <= l <= 4 implies (#[trigger] table_at(
                        after,
                        root,
                        a,
                        l,
                    )) != Ok::<u64, FrameError>(allocator.frames()[n]) by {
                        assert(table_at(after, root, a, l) == table_at(tables, root, a, l));
                    }
                }
            }
            match next {
                Ok(frame) => Some(frame),
                Err(_) => None,
            }
        }
    }

    /// Maps `page` to `frame` with `flags`. Tables missing on the way are
    /// created in frames taken from `frame_allocator` and carry the present,
    /// writable and user flags among `flags`. Returns the obligation to flush
    /// the page.
    ///
    /// Fails with `PageAlreadyMapped` if the page is mapped, and with
    /// `FrameAllocationFailed` if fewer frames are left than tables are
    /// missing; the tables created up to there stay in place, and no address
    /// changes what it resolves to.
    pub fn map_to(
        &mut self,
        page: Page,
        frame: PhysFrame,
        flags: PageTableFlags,
        frame_allocator: &mut FrameAllocatorBootInfo,
    ) -> (result: Result<MapperFlush, MapToError>)
        requires
            old(self).wf(),
            old(frame_allocator).wf(),
            old(self).frames_free(*old(frame_allocator)),
            flags@ & PRESENT != 0,
            flags@ & HUGE_PAGE == 0,
        ensures
            final(self).wf(),
            final(frame_allocator).wf(),
            final(self).frames_free(*final(frame_allocator)),
            final(frame_allocator).regions() == old(frame_allocator).regions(),
            final(self).root() == old(self).root(),
            final(self).offset() == old(self).offset(),
            final(self).tables_created(
                *old(self),
                page@,
                old(frame_allocator).frames(),
                old(frame_allocator).issued() as int,
                final(frame_allocator).issued() - old(frame_allocator).issued(),
            ),
            match result {
                Ok(flush) => {
                    &&& flush.page_spec()@ == page@
                    &&& !old(self).is_mapped(page@)
                    &&& old(frame_allocator).issued() + old(self).missing_tables(page@)
                        <= old(frame_allocator).frames().len()
                    &&& final(frame_allocator).issued()
                        == old(frame_allocator).issued() + old(self).missing_tables(page@)
                    &&& final(self).mapped_to(*old(self), page@, frame@)
                    &&& final(self).entry_set(*old(self), page@, frame@ | flags@)
                    &&& forall|l: nat|
                        2 <= l <= 4 ==> entry_flags(#[trigger] final(self).path_entry(page@, l))
                            & (flags@ & PARENT_FLAGS) == flags@ & PARENT_FLAGS
                },
                Err(MapToError::PageAlreadyMapped(f)) => {
                    &&& f@ == frame@
                    &&& old(self).is_mapped(page@)
                    &&& final(frame_allocator).issued() == old(frame_allocator).issued()
                    &&& final(self).same_mappings(*old(self))
                    &&& final(self).same_entries(*old(self))
                },
                Err(MapToError::FrameAllocationFailed) => {
                    &&& old(frame_allocator).issued() + old(self).missing_tables(page@)
                        > old(frame_allocator).frames().len()
                    &&& final(frame_allocator).issued() == old(frame_allocator).frames().len()
                    &&& final(self).same_mappings(*old(self))
                    &&& final(self).same_entries(*old(self))
                },
            },
    {
        let mask: PageTableFlags = PageTableFlags::from_bits_truncate(PARENT_FLAGS);
        let parent_flags: PageTableFlags = flags.intersection(mask);
        proof {
            reveal(AddressSpaceMapper::tables_created);
            let f = flags@;
            assert((f & (PARENT_FLAGS & FLAGS_MASK)) & PRESENT != 0 && (f & (PARENT_FLAGS
                & FLAGS_MASK)) & HUGE_PAGE == 0 && f & (PARENT_FLAGS & FLAGS_MASK) == f
                & PARENT_FLAGS) by (bit_vector)
                requires
                    f & PRESENT != 0,
            ;
        }
        let root: PhysFrame = self.level_4_frame;
        let ghost top = self.level_4_frame@;
        let ghost t0 = self.memory@;
        let ghost n0 = frame_allocator.issued();
        let p3: PhysFrame = match self.create_next_table(
            root,
            page,
            PageTableLevel::Four,
            parent_flags,
            frame_allocator,
        ) {
            Some(table) => table,
            None => { return Err(MapToError::FrameAllocationFailed); },
        };
        let ghost t1 = self.memory@;
        let ghost n1 = frame_allocator.issued();
        let ghost pf = parent_flags@;
        let ghost i4 = table_index(page@, 4);
        let ghost i3 = table_index(page@, 3);
        let ghost i2 = table_index(page@, 2);
        proof {
            assert(entry_flags(read_entry(t1, top, i4)) & pf == pf);
            assert(table_at(t1, top, page@, 4) == Ok::<u64, FrameError>(top));
            assert(table_at(t1, top, page@, 0) == table_at(t0, top, page@, 0));
            if table_at(t0, top, page@, 3) is Err {
                assert(table_at(t1, top, page@, 2) is Err);
                assert(table_at(t1, top, page@, 1) is Err);
                assert(table_at(t1, top, page@, 0) is Err);
                lemma_walk_stopped(t0, top, page@, 3, 2);
                lemma_walk_stopped(t0, top, page@, 3, 1);
            } else {
                assert(table_at(t1, top, page@, 2) == table_at(t0, top, page@, 2));
                assert(table_at(t1, top, page@, 1) == table_at(t0, top, page@, 1));
            }
        }
        let p2: PhysFrame = match self.create_next_table(
            p3,
            page,
            PageTableLevel::Three,
            parent_flags,
            frame_allocator,
        ) {
            Some(table) => table,
            None => { return Err(MapToError::FrameAllocationFailed); },
        };
        let ghost t2 = self.memory@;
        let ghost n2 = frame_allocator.issued();
        proof {
            assert(top != p3@) by {
                assert(table_at(t1, top, page@, 3) == Ok::<u64, FrameError>(p3@));
            }
            if n2 > n1 {
                assert(not_a_table(t1, top, frame_allocator.frames()[n1 as int]));
            }
            assert(read_entry(t2, top, i4) == read_entry(t1, top, i4));
            assert(entry_flags(read_entry(t2, p3@, i3)) & pf == pf);
            assert(table_at(t2, top, page@, 4) == Ok::<u64, FrameError>(top));
            assert(table_at(t2, top, page@, 3) == Ok::<u64, FrameError>(p3@));
            assert(table_at(t2, top, page@, 0) == table_at(t1, top, page@, 0));
            if table_at(t1, top, page@, 2) is Err {
                assert(table_at(t2, top, page@, 1) is Err);
                assert(table_at(t2, top, page@, 0) is Err);
                lemma_walk_stopped(t1, top, page@, 2, 1);
            } else {
                assert(table_at(t2, top, page@, 1) == table_at(t1, top, page@, 1));
            }
        }
        let p1: PhysFrame = match self.create_next_table(
            p2,
            page,
            PageTableLevel::Two,
            parent_flags,
            frame_allocator,
        ) {
            Some(table) => table,
            None => { return Err(MapToError::FrameAllocationFailed); },
        };
        let index: u16 = page.start_address().page_table_index(PageTableLevel::One);
        let ghost tables = self.memory@;
        let ghost n3 = frame_allocator.issued();
        proof {
            assert(top != p2@ && p3@ != p2@) by {
                assert(table_at(t2, top, page@, 2) == Ok::<u64, FrameError>(p2@));
            }
            if n3 > n2 {
                assert(not_a_table(t2, top, frame_allocator.frames()[n2 as int]));
            }
            assert(read_entry(tables, top, i4) == read_entry(t2, top, i4));
            assert(read_entry(tables, p3@, i3) == read_entry(t2, p3@, i3));
            assert(entry_flags(read_entry(tables, p2@, i2)) & pf == pf);
            assert(table_at(tables, top, page@, 4) == Ok::<u64, FrameError>(top));
            assert(table_at(tables, top, page@, 3) == Ok::<u64, FrameError>(p3@));
            assert(table_at(tables, top, page@, 2) == Ok::<u64, FrameError>(p2@));
            assert(table_at(tables, top, page@, 1) == Ok::<u64, FrameError>(p1@));
            assert(top != p1@ && p3@ != p1@ && p2@ != p1@);
            lemma_zero_entry();
            assert(entry_sound(read_entry(tables, p1@, index as int)));
            assert(table_at(tables, top, page@, 0) == table_at(t2, top, page@, 0));
            assert(table_at(tables, top, page@, 0) == entry_frame(
                read_entry(tables, p1@, index as int),
            ));
            if table_at(t2, top, page@, 1) is Err {
                assert(table_at(tables, top, page@, 0) is Err);
            }
            assert forall|a: u64| #[trigger]
                resolve(tables, top, a) == old(self).translate_spec(a) by {
                assert(table_at(tables, top, a, 0) == table_at(t2, top, a, 0));
                assert(table_at(t2, top, a, 0) == table_at(t1, top, a, 0));
                assert(table_at(t1, top, a, 0) == table_at(t0, top, a, 0));
            }
            assert forall|a: u64| #[trigger]
                leaf_entry(tables, top, a) == old(self).entry_of(a) by {
                assert(leaf_entry(tables, top, a) == leaf_entry(t2, top, a));
                assert(leaf_entry(t2, top, a) == leaf_entry(t1, top, a));
                assert(leaf_entry(t1, top, a) == leaf_entry(t0, top, a));
            }
        }
        if !self.memory.entry_is_unused(p1, index) {
            return Err(MapToError::PageAlreadyMapped(frame));
        }
        proof {
            use_type_invariant(flags);
            use_type_invariant(frame);
            lemma_pointer_entry(frame@, flags@);
            lemma_leaf(tables, self.level_4_frame@, page@, frame@ | flags@);
        }
        self.memory.set_entry(p1, index, frame, flags);
        proof {
            let after = self.memory@;
            assert forall|a: u64| is_canonical(a) implies #[trigger] resolve(after, top, a)
                == if align_down(a) == page@ {
                Ok::<u64, FrameError>((frame@ + page_offset(a)) as u64)
            } else {
                old(self).translate_spec(a)
            } by {
                lemma_same_page(a, page@);
                assert(resolve(tables, top, a) == old(self).translate_spec(a));
            }
            assert forall|a: u64| is_canonical(a) implies #[trigger] leaf_entry(after, top, a)
                == if align_down(a) == page@ {
                frame@ | flags@
            } else {
                old(self).entry_of(a)
            } by {
                lemma_same_page(a, page@);
                lemma_leaf_entry_leaf(tables, top, page@, frame@ | flags@, a);
                assert(leaf_entry(tables, top, a) == old(self).entry_of(a));
            }
            assert forall|l: nat| 2 <= l <= 4 implies entry_flags(
                #[trigger] self.path_entry(page@, l),
            ) & pf == pf by {
                let entry = frame@ | flags@;
                assert(table_at(after, top, page@, l) == table_at(tables, top, page@, l));
                lemma_read_after_write(tables, p1@, index as int, entry, top, i4);
                lemma_read_after_write(tables, p1@, index as int, entry, p3@, i3);
                lemma_read_after_write(tables, p1@, index as int, entry, p2@, i2);
            }
            assert forall|n: int|
                frame_allocator.issued() <= n < frame_allocator.frames().len() implies not_a_table(
                after,
                top,
                #[trigger] frame_allocator.frames()[n],
            ) by {
                assert(not_a_table(tables, top, frame_allocator.frames()[n]));
                assert forall|a: u64, l: nat| 1 <= l <= 4 implies (#[trigger] table_at(
                    after,
                    top,
                    a,
                    l,
                )) != Ok::<u64, FrameError>(frame_allocator.frames()[n]) by {
                    assert(table_at(after, top, a, l) == table_at(tables, top, a, l));
                }
            }
        }
        Ok(MapperFlush { page })
    }

    /// Removes the mapping of `page`. Returns the frame it was mapped to and
    /// the obligation to flush the page. Fails with `PageNotMapped` if the
    /// page is not mapped; nothing changes in that case.
    pub fn unmap(&mut self, page: Page) -> (result: Result<(PhysFrame, MapperFlush), UnmapError>)
        requires
            old(self).wf(),
        ensures
            final(self).wf(),
            final(self).root() == old(self).root(),
            final(self).offset() == old(self).offset(),
            forall|a: u64, l: nat|
                1 <= l <= 4 ==> #[trigger] final(self).table_of(a, l) == old(self).table_of(a, l),
            forall|allocator: FrameAllocatorBootInfo|
                old(self).frames_free(allocator) ==> #[trigger] final(self).frames_free(allocator),
            match result {
                Ok((frame, flush)) => {
                    &&& flush.page_spec()@ == page@
                    &&& old(self).translate_spec(page@) == Ok::<u64, FrameError>(frame@)
                    &&& final(self).unmapped(*old(self), page@)
                    &&& final(self).entry_set(*old(self), page@, 0)
                },
                Err(_) => {
                    &&& !old(self).is_mapped(page@)
                    &&& final(self).same_mappings(*old(self))
                    &&& final(self).same_entries(*old(self))
                },
            },
    {
        let ghost tables = self.memory@;
        let ghost top = self.level_4_frame@;
        let address: VirtAddr = page.start_address();
        proof {
            reveal_with_fuel(table_at, 5);
        }
        let i4: u16 = address.page_table_index(PageTableLevel::Four);
        let p3: PhysFrame = match self.memory.entry_frame(self.level_4_frame, i4) {
            Ok(table) => table,
            Err(_) => { return Err(UnmapError::PageNotMapped); },
        };
        let i3: u16 = address.page_table_index(PageTableLevel::Three);
        let p2: PhysFrame = match self.memory.entry_frame(p3, i3) {
            Ok(table) => table,
            Err(_) => { return Err(UnmapError::PageNotMapped); },
        };
        let i2: u16 = address.page_table_index(PageTableLevel::Two);
        let p1: PhysFrame = match self.memory.entry_frame(p2, i2) {
            Ok(table) => table,
            Err(_) => { return Err(UnmapError::PageNotMapped); },
        };
        let i1: u16 = address.page_table_index(PageTableLevel::One);
        let frame: PhysFrame = match self.memory.entry_frame(p1, i1) {
            Ok(frame) => frame,
            Err(_) => { return Err(UnmapError::PageNotMapped); },
        };
        proof {
            lemma_zero_entry();
            lemma_leaf(tables, top, page@, 0);
        }
        self.memory.clear_entry(p1, i1);
        proof {
            let after = self.memory@;
            assert(page_offset(page@) == 0);
            assert forall|a: u64| is_canonical(a) implies #[trigger] resolve(after, top, a)
                == if align_down(a) == page@ {
                Err::<u64, FrameError>(FrameError::FrameNotPresent)
            } else {
                old(self).translate_spec(a)
            } by {
                lemma_same_page(a, page@);
            }
            assert forall|a: u64| is_canonical(a) implies #[trigger] leaf_entry(after, top, a)
                == if align_down(a) == page@ {
                0
            } else {
                old(self).entry_of(a)
            } by {
                lemma_same_page(a, page@);
                lemma_leaf_entry_leaf(tables, top, page@, 0, a);
            }
            assert forall|allocator: FrameAllocatorBootInfo|
                old(self).frames_free(allocator) implies #[trigger] self.frames_free(allocator) by {
                assert forall|n: int|
                    allocator.issued() <= n < allocator.frames().len() implies not_a_table(
                    after,
                    top,
                    #[trigger] allocator.frames()[n],
                ) by {
                    assert(not_a_table(tables, top, allocator.frames()[n]));
                    assert forall|a: u64, l: nat| 1 <= l <= 4 implies (#[trigger] table_at(
                        after,
                        top,
                        a,
                        l,
                    )) != Ok::<u64, FrameError>(allocator.frames()[n]) by {
                        assert(table_at(after, top, a, l) == table_at(tables, top, a, l));
                    }
                }
            }
        }
        Ok((frame, MapperFlush { page }))
    }
}

/// Whether every canonical address outside `[start, end)` resolves in
/// `after` as it does in `before`.
pub open spec fn outside_unchanged(
    after: AddressSpaceMapper,
    before: AddressSpaceMapper,
    start: int,
    end: int,
) -> bool {
    forall|a: u64|
        is_canonical(a) && !(start <= a < end) ==> #[trigger] after.translate_spec(a)
            == before.translate_spec(a)
}

/// Whether no address in `[start, end)` is mapped.
pub open spec fn range_unmapped(mapper: AddressSpaceMapper, start: int, end: int) -> bool {
    forall|a: u64| start <= a < end ==> !#[trigger] mapper.is_mapped(a)
}

/// Whether the mapping of every address in `[start, end)` carries exactly
/// the flags `flags`.
pub open spec fn range_flags(mapper: AddressSpaceMapper, start: int, end: int, flags: u64) -> bool {
    forall|a: u64| start <= a < end ==> entry_flags(#[trigger] mapper.entry_of(a)) == flags
}

/// An entry made of a frame address and flags holds both unchanged.
pub proof fn lemma_entry_parts(frame: u64, flags: u64)
    requires
        frame < PHYS_ADDR_END,
        is_page_aligned(frame),
        flags & ADDRESS_MASK == 0,
    ensures
        entry_address(frame | flags) == frame,
        entry_flags(frame | flags) == flags,
{
    assert((frame | flags) & ADDRESS_MASK == frame
        && (frame | flags) & FLAGS_MASK == flags) by (bit_vector)
        requires
            frame < 0x0010_0000_0000_0000,
            frame % 4096 == 0,
            flags & ADDRESS_MASK == 0,
    ;
}

/// Whether every address in `[start, end)` is mapped.
pub open spec fn range_mapped(mapper: AddressSpaceMapper, start: int, end: int) -> bool {
    forall|a: u64| start <= a < end ==> #[trigger] mapper.is_mapped(a)
}

/// Page number `j` of a run of pages that starts at `start`.
pub open spec fn run_page(start: int, j: int) -> u64 {
    (start + j * 4096) as u64
}

/// How many tables have to be created for page number `j` of a run from
/// `start` that is mapped page by page: the tables on the way to the page
/// that are missing in `before` and do not lie on the way to the page before
/// it either.
pub open spec fn fresh_tables(before: AddressSpaceMapper, start: int, j: int) -> nat {
    let page = run_page(start, j);
    let previous = run_page(start, j - 1);
    if before.table_of(page, 3) is Err && !(j > 0 && same_prefix(page, previous, 3)) {
        3
    } else if before.table_of(page, 2) is Err && !(j > 0 && same_prefix(page, previous, 2)) {
        2
    } else if before.table_of(page, 1) is Err && !(j > 0 && same_prefix(page, previous, 1)) {
        1
    } else {
        0
    }
}

/// How many frames it takes to map the first `pages` pages of a run from
/// `start`: for every page `per_page` frames and a frame for each table
/// that has to be created.
pub open spec fn frames_for_run(
    before: AddressSpaceMapper,
    start: int,
    pages: int,
    per_page: nat,
) -> nat
    decreases pages,
{
    if pages <= 0 {
        0
    } else {
        frames_for_run(before, start, pages - 1, per_page) + per_page + fresh_tables(
            before,
            start,
            pages - 1,
        )
    }
}

/// The frames that a run takes grow with its length.
pub proof fn lemma_frames_for_run_grow(
    before: AddressSpaceMapper,
    start: int,
    shorter: int,
    longer: int,
    per_page: nat,
)
    requires
        shorter <= longer,
    ensures
        frames_for_run(before, start, shorter, per_page) <= frames_for_run(
            before,
            start,
            longer,
            per_page,
        ),
    decreases longer - shorter,
{
    if shorter < longer {
        lemma_frames_for_run_grow(before, start, shorter, longer - 1, per_page);
    }
}

/// Whether `now` holds the tables of `before` and those on the way to the
/// first `done` pages of a run of `pages` pages from `start`, as far as the
/// rest of the run is concerned.
#[verifier::opaque]
pub open spec fn run_tables(
    before: AddressSpaceMapper,
    now: AddressSpaceMapper,
    start: int,
    done: int,
    pages: int,
) -> bool {
    forall|k: int, l: nat|
        done <= k < pages && 1 <= l <= 3 ==> ((#[trigger] now.table_of(run_page(start, k), l))
            is Ok <==> before.table_of(run_page(start, k), l) is Ok || (done > 0 && same_prefix(
            run_page(start, k),
            run_page(start, done - 1),
            l,
        )))
}

/// Of three ascending addresses of the lower half, the middle one shares
/// with the outer ones every entry that they share with each other.
proof fn lemma_prefix_between(a: u64, b: u64, c: u64, l: nat)
    requires
        a <= b <= c < 0x0000_8000_0000_0000,
        1 <= l <= 3,
        same_prefix(a, c, l),
    ensures
        same_prefix(a, b, l),
        same_prefix(b, c, l),
{
    assert(((a / 0x80_0000_0000) % 512 == (c / 0x80_0000_0000) % 512) ==> ((a / 0x80_0000_0000)
        % 512 == (b / 0x80_0000_0000) % 512)) by (bit_vector)
        requires
            a <= b <= c < 0x0000_8000_0000_0000,
    ;
    assert(((a / 0x80_0000_0000) % 512 == (c / 0x80_0000_0000) % 512 && (a / 0x4000_0000) % 512
        == (c / 0x4000_0000) % 512) ==> ((a / 0x4000_0000) % 512 == (b / 0x4000_0000) % 512))
        by (bit_vector)
        requires
            a <= b <= c < 0x0000_8000_0000_0000,
    ;
    assert(((a / 0x80_0000_0000) % 512 == (c / 0x80_0000_0000) % 512 && (a / 0x4000_0000) % 512
        == (c / 0x4000_0000) % 512 && (a / 0x20_0000) % 512 == (c / 0x20_0000) % 512) ==> ((a
        / 0x20_0000) % 512 == (b / 0x20_0000) % 512)) by (bit_vector)
        requires
            a <= b <= c < 0x0000_8000_0000_0000,
    ;
}

/// Before a run is mapped, the mapper holds the tables it held.
pub proof fn lemma_run_start(before: AddressSpaceMapper, start: int, pages: int)
    ensures
        run_tables(before, before, start, 0, pages),
{
    reveal(run_tables);
}

/// While a run is mapped page by page, the tables missing on the way to
/// the next page are those that have to be created for it.
pub proof fn lemma_run_missing(
    before: AddressSpaceMapper,
    now: AddressSpaceMapper,
    start: int,
    done: int,
    pages: int,
)
    requires
        0 <= done < pages,
        run_tables(before, now, start, done, pages),
    ensures
        now.missing_tables(run_page(start, done)) == fresh_tables(before, start, done),
{
    reveal(run_tables);
    let page = run_page(start, done);
    assert(now.table_of(page, 3) is Ok <==> before.table_of(page, 3) is Ok || (done > 0
        && same_prefix(page, run_page(start, done - 1), 3)));
    assert(now.table_of(page, 2) is Ok <==> before.table_of(page, 2) is Ok || (done > 0
        && same_prefix(page, run_page(start, done - 1), 2)));
    assert(now.table_of(page, 1) is Ok <==> before.table_of(page, 1) is Ok || (done > 0
        && same_prefix(page, run_page(start, done - 1), 1)));
}

/// Mapping the next page of a run creates the tables missing on the way to
/// it, which the pages after it share as far as their ways are the same.
pub proof fn lemma_run_step(
    before: AddressSpaceMapper,
    now: AddressSpaceMapper,
    next: AddressSpaceMapper,
    frames: Seq<u64>,
    first: int,
    start: int,
    done: int,
    pages: int,
)
    requires
        0 <= start,
        start + pages * 4096 <= 0x0000_8000_0000_0000,
        0 <= done < pages,
        now.root() == next.root(),
        run_tables(before, now, start, done, pages),
        next.tables_created(
            now,
            run_page(start, done),
            frames,
            first,
            now.missing_tables(run_page(start, done)) as int,
        ),
    ensures
        run_tables(before, next, start, done + 1, pages),
{
    reveal(AddressSpaceMapper::tables_created);
    reveal(run_tables);
    let page = run_page(start, done);
    assert forall|k: int, l: nat| done + 1 <= k < pages
        && 1 <= l <= 3 implies ((#[trigger] next.table_of(
        run_page(start, k),
        l,
    )) is Ok <==> before.table_of(run_page(start, k), l) is Ok || same_prefix(
        run_page(start, k),
        page,
        l,
    )) by {
        let a = run_page(start, k);
        assert(now.table_of(a, l) is Ok <==> before.table_of(a, l) is Ok || (done > 0
            && same_prefix(a, run_page(start, done - 1), l)));
        if done > 0 && same_prefix(a, run_page(start, done - 1), l) {
            lemma_prefix_between(run_page(start, done - 1), page, a, l);
        }
        if same_prefix(a, page, l) {
            lemma_walk_prefix(now.tables(), now.root(), a, page, l);
        }
    }
}

/// The addresses of page number `done` of a run.
pub proof fn lemma_run_page_addresses(start: int, done: int, a: u64)
    requires
        0 <= start,
        0 <= done,
        start % 4096 == 0,
        start + (done + 1) * 4096 < LOWER_HALF_END,
        is_canonical(a),
    ensures
        is_canonical(run_page(start, done)),
        is_page_aligned(run_page(start, done)),
        run_page(start, done) == start + done * 4096,
        align_down(a) == run_page(start, done) <==> start + done * 4096 <= a < start + (done + 1)
            * 4096,
        start + done * 4096 <= a < start + (done + 1) * 4096 ==> (a - start) / 4096 == done,
{
}

/// Mapping page number `done` of a run leaves the addresses outside the
/// first `done + 1` pages as they were.
pub proof fn lemma_outside_later(
    now: AddressSpaceMapper,
    after: AddressSpaceMapper,
    before: AddressSpaceMapper,
    start: int,
    done: int,
    frame: u64,
)
    requires
        0 <= start,
        0 <= done,
        start % 4096 == 0,
        start + (done + 1) * 4096 < LOWER_HALF_END,
        outside_unchanged(now, before, start, start + done * 4096),
        after.mapped_to(now, run_page(start, done), frame),
    ensures
        outside_unchanged(after, before, start, start + (done + 1) * 4096),
{
    assert forall|a: u64|
        is_canonical(a) && !(start <= a < start + (done + 1)
            * 4096) implies #[trigger] after.translate_spec(a) == before.translate_spec(a) by {
        lemma_run_page_addresses(start, done, a);
        assert(now.translate_spec(a) == before.translate_spec(a));
    }
}

/// If the first `done` pages of a run and page number `done` were not
/// mapped, the first `done + 1` pages were not.
pub proof fn lemma_unmapped_later(
    now: AddressSpaceMapper,
    before: AddressSpaceMapper,
    start: int,
    done: int,
)
    requires
        0 <= start,
        0 <= done,
        start % 4096 == 0,
        start + (done + 1) * 4096 < LOWER_HALF_END,
        range_unmapped(before, start, start + done * 4096),
        !before.is_mapped(run_page(start, done)),
    ensures
        range_unmapped(before, start, start + (done + 1) * 4096),
{
    assert forall|a: u64| start <= a < start + (done + 1) * 4096
        implies !#[trigger] before.is_mapped(
        a,
    ) by {
        if a >= start + done * 4096 {
            lemma_run_page_addresses(start, done, a);
            lemma_mapped_by_page(before, a, run_page(start, done));
        }
    }
}

/// Mapping page number `done` of a run present and writable leaves the
/// first `done + 1` pages present and writable, if the first `done` were.
pub proof fn lemma_flags_later(
    now: AddressSpaceMapper,
    after: AddressSpaceMapper,
    start: int,
    done: int,
    frame: u64,
)
    requires
        0 <= start,
        0 <= done,
        start % 4096 == 0,
        start + (done + 1) * 4096 < LOWER_HALF_END,
        range_flags(now, start, start + done * 4096, PRESENT | WRITABLE),
        after.entry_set(now, run_page(start, done), frame | (PRESENT | WRITABLE)),
        frame < PHYS_ADDR_END,
        is_page_aligned(frame),
    ensures
        range_flags(after, start, start + (done + 1) * 4096, PRESENT | WRITABLE),
{
    assert((PRESENT | WRITABLE) & ADDRESS_MASK == 0) by (bit_vector);
    lemma_entry_parts(frame, PRESENT | WRITABLE);
    assert forall|a: u64| start <= a < start + (done + 1) * 4096 implies entry_flags(
        #[trigger] after.entry_of(a),
    ) == PRESENT | WRITABLE by {
        lemma_run_page_addresses(start, done, a);
        if a < start + done * 4096 {
            assert(after.entry_of(a) == now.entry_of(a));
        }
    }
}

/// Whether an address is mapped depends on its page alone.
pub proof fn lemma_mapped_by_page(mapper: AddressSpaceMapper, a: u64, b: u64)
    requires
        is_canonical(a),
        is_canonical(b),
        align_down(a) == align_down(b),
    ensures
        mapper.table_of(a, 0) == mapper.table_of(b, 0),
        mapper.is_mapped(a) == mapper.is_mapped(b),
{
    lemma_same_page(a, b);
    lemma_walk_prefix(mapper.tables(), mapper.root(), a, b, 0);
}

/// An address resolves as the leaf entry of its page says: to the frame of
/// the entry if the entry is present, and not at all if the entry is zero.
pub proof fn lemma_translate_by_entry(mapper: AddressSpaceMapper, a: u64)
    requires
        mapper.wf(),
    ensures
        mapper.table_of(a, 0) == entry_frame(mapper.entry_of(a)),
        mapper.is_mapped(a) <==> mapper.entry_of(a) != 0,
        entry_sound(mapper.entry_of(a)),
{
    lemma_frame_by_leaf_entry(mapper.tables(), mapper.root(), a);
    lemma_zero_entry();
    match table_at(mapper.tables(), mapper.root(), a, 1) {
        Ok(t) => {
            assert(entry_sound(read_entry(mapper.tables(), t, table_index(a, 1))));
        },
        Err(_) => {},
    }
}

/// The addresses of a page: each lies in the page at its own offset.
pub proof fn lemma_page_addresses(page: u64, k: u64)
    requires
        is_canonical(page),
        is_page_aligned(page),
        k < 4096,
    ensures
        page + k <= u64::MAX,
        is_canonical((page + k) as u64),
        align_down((page + k) as u64) == page,
        page_offset((page + k) as u64) == k,
{
}

/// Every address of a freshly mapped page resolves to the same offset in the
/// frame it was mapped to.
pub proof fn lemma_mapped_page_resolves(
    before: AddressSpaceMapper,
    mapped: AddressSpaceMapper,
    page: u64,
    frame: u64,
    k: u64,
)
    requires
        is_canonical(page),
        is_page_aligned(page),
        k < 4096,
        mapped.mapped_to(before, page, frame),
    ensures
        mapped.translate_spec((page + k) as u64) == Ok::<u64, FrameError>((frame + k) as u64),
{
    lemma_page_addresses(page, k);
}

/// A page that is mapped and unmapped again does not resolve: the unmapping
/// succeeds, and afterwards no address of the page resolves. `failed` says
/// whether the unmapping reported that the page was not mapped.
pub proof fn lemma_map_unmap(
    before: AddressSpaceMapper,
    mapped: AddressSpaceMapper,
    after: AddressSpaceMapper,
    page: u64,
    frame: u64,
    failed: bool,
    k: u64,
)
    requires
        is_canonical(page),
        is_page_aligned(page),
        k < 4096,
        mapped.mapped_to(before, page, frame),
        if failed {
            !mapped.is_mapped(page) && after.same_mappings(mapped)
        } else {
            after.unmapped(mapped, page)
        },
    ensures
        !failed,
        after.translate_spec((page + k) as u64) == Err::<u64, FrameError>(
            FrameError::FrameNotPresent,
        ),
{
    lemma_page_addresses(page, k);
    lemma_page_addresses(page, 0);
    assert(mapped.translate_spec(page) is Ok);
}

} // verus!
