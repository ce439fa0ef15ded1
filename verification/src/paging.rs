//! Translation tables: four levels of 512 entries, 4 KiB granule, 48 bit
//! virtual addresses.
//!
//!   level 0   bits [47:39]   each entry covers 512 GiB
//!   level 1   bits [38:30]   each entry covers   1 GiB
//!   level 2   bits [29:21]   each entry covers   2 MiB
//!   level 3   bits [20:12]   each entry covers   4 KiB
//!
//! Tables live in physical frames, so everything here reads and writes
//! physical memory. What a root means is the function from a virtual address
//! to the descriptor a walk ends on; that function is `stop`, and the
//! contracts below speak of it.

use vstd::arithmetic::div_mod::*;
use vstd::prelude::*;

use crate::frames;
use crate::frames::{Allocator, Frame};
use crate::memory::Memory;

verus! {

/// Base of the kernel's half of the address space. Every physical address has
/// a fixed alias at `KERNEL_BASE + pa`.
pub const KERNEL_BASE: u64 = 0xffff_0000_0000_0000;

/// Where the low half ends. Addresses have 48 bits: from here to `KERNEL_BASE`
/// every access faults, whatever the tables say of the bits below.
pub const LOW_HALF_END: u64 = 0x1_0000_0000_0000;

const PAGE_SIZE: u64 = 4096;

const BLOCK_2MIB: u64 = 2 * 1024 * 1024;

/// Output address field of a descriptor, bits [47:12].
pub const ADDR_MASK: u64 = 0x0000_ffff_ffff_f000;

/// The descriptor means something.
pub const VALID: u64 = 1;

/// At levels 0 to 2 this means "table". At level 3 it means "page".
pub const TABLE_OR_PAGE: u64 = 2;

const AP_SHIFT: u64 = 6;

/// Access flag. Hardware faults on every access through a descriptor without
/// it when nothing in software manages it.
pub const AF: u64 = 0x400;

/// Privileged execute never: EL1 may not fetch instructions from here.
pub const PXN: u64 = 0x20_0000_0000_0000;

/// Unprivileged execute never: EL0 may not fetch instructions from here.
pub const UXN: u64 = 0x40_0000_0000_0000;

/// Readable and writable at EL1 only.
pub const AP_RW_EL1: u64 = 0;

/// Readable and writable at both levels.
pub const AP_RW_ALL: u64 = 1;

/// Read only, EL1 only.
pub const AP_RO_EL1: u64 = 2;

/// Read only, at both levels.
pub const AP_RO_ALL: u64 = 3;

/// Memory type slot 0: Device-nGnRnE.
pub const MAIR_DEVICE_INDEX: u64 = 0;

/// Memory type slot 1: Normal write-back.
pub const MAIR_NORMAL_INDEX: u64 = 1;

/// Kernel code: normal memory, read only at EL1, executable there alone.
pub const KERNEL_TEXT: u64 = 0x40_0000_0000_0784;

/// Kernel constants: normal memory, read only at EL1, never executable.
pub const KERNEL_RODATA: u64 = 0x60_0000_0000_0784;

/// Kernel data: normal memory, read and write at EL1, never executable.
pub const KERNEL_DATA: u64 = 0x60_0000_0000_0704;

/// Device registers: device memory, read and write at EL1, never executable.
pub const DEVICE: u64 = 0x60_0000_0000_0400;

/// User data: normal memory, read and write at both levels, never executable.
pub const USER_DATA: u64 = 0x60_0000_0000_0744;

/// User code: normal memory, read only at both levels, executable at EL0.
pub const USER_TEXT: u64 = 0x20_0000_0000_07c4;

/// Entries in a translation table at any level.
pub const ENTRIES: usize = 512;

// ---------------------------------------------------------------------------
// Descriptors.
// ---------------------------------------------------------------------------

/// Does the descriptor mean anything?
pub open spec fn valid(e: u64) -> bool {
    e & VALID != 0
}

/// Above level 3: does the descriptor point at another table?
pub open spec fn is_table(e: u64) -> bool {
    e & TABLE_OR_PAGE != 0
}

/// The physical address a descriptor holds.
pub open spec fn out_addr(e: u64) -> int {
    (e & ADDR_MASK) as int
}

/// The access permission field of a descriptor.
pub open spec fn access(e: u64) -> u64 {
    (e >> 6u64) & 3u64
}

/// A descriptor that carries on to another table when found at `level`.
pub open spec fn descends(e: u64, level: int) -> bool {
    level < 3 && valid(e) && is_table(e)
}

proof fn lemma_descriptor(pa: u64, attrs: u64)
    by (bit_vector)
    requires
        pa % 4096 == 0,
        pa < 0x1_0000_0000_0000,
        attrs & 0x0000_ffff_ffff_f003 == 0,
    ensures
        (pa | attrs | 1 | 2) & 1 != 0,
        (pa | attrs | 1 | 2) & 2 != 0,
        (pa | attrs | 1) & 1 != 0,
        (pa | attrs | 1) & 2 == 0,
        (pa | attrs | 1 | 2) & 0x0000_ffff_ffff_f000 == pa,
        (pa | attrs | 1) & 0x0000_ffff_ffff_f000 == pa,
        ((pa | attrs | 1 | 2) >> 6) & 3 == (attrs >> 6) & 3,
        ((pa | attrs | 1) >> 6) & 3 == (attrs >> 6) & 3,
{
}

proof fn lemma_table_descriptor(pa: u64)
    by (bit_vector)
    requires
        pa % 4096 == 0,
        pa < 0x1_0000_0000_0000,
    ensures
        (pa | 1 | 2) & 1 != 0,
        (pa | 1 | 2) & 2 != 0,
        (pa | 1 | 2) & 0x0000_ffff_ffff_f000 == pa,
{
}

proof fn lemma_entry_bits(e: u64)
    by (bit_vector)
    ensures
        (e & 0x0000_ffff_ffff_f000) % 4096 == 0,
        (e & 0x0000_ffff_ffff_f000) <= 0x0000_ffff_ffff_f000,
        0u64 & 1 == 0,
{
}

/// Memory type and permissions for a mapping.
#[derive(Clone, Copy, PartialEq, Eq, Debug, Structural)]
pub struct Attributes(pub u64);

impl Attributes {
    /// Only attribute bits: none of the address field, none of the type bits.
    pub open spec fn clean(self) -> bool {
        self.0 & 0x0000_ffff_ffff_f003 == 0
    }

    /// Exactly this memory type, access permission, shareability and
    /// executability, with the access flag set.
    pub open spec fn grants(
        self,
        memory: u64,
        ap: u64,
        sh: u64,
        el1_executes: bool,
        el0_executes: bool,
    ) -> bool {
        &&& (self.0 >> 2) & 7u64 == memory
        &&& access(self.0) == ap
        &&& (self.0 >> 8) & 3u64 == sh
        &&& self.0 & AF != 0
        &&& (self.0 & PXN == 0) == el1_executes
        &&& (self.0 & UXN == 0) == el0_executes
    }

    /// Kernel code: readable and executable at EL1, never writable, never
    /// executable at EL0.
    pub fn kernel_text() -> (r: Attributes)
        ensures
            r == Attributes(KERNEL_TEXT),
            r.clean(),
            r.grants(MAIR_NORMAL_INDEX, AP_RO_EL1, 3, true, false),
    {
        proof {
            lemma_attributes();
        }
        Attributes(KERNEL_TEXT)
    }

    /// Kernel constants: readable only, never executable.
    pub fn kernel_rodata() -> (r: Attributes)
        ensures
            r == Attributes(KERNEL_RODATA),
            r.clean(),
            r.grants(MAIR_NORMAL_INDEX, AP_RO_EL1, 3, false, false),
    {
        proof {
            lemma_attributes();
        }
        Attributes(KERNEL_RODATA)
    }

    /// Kernel data and free memory: readable and writable, never executable.
    pub fn kernel_data() -> (r: Attributes)
        ensures
            r == Attributes(KERNEL_DATA),
            r.clean(),
            r.grants(MAIR_NORMAL_INDEX, AP_RW_EL1, 3, false, false),
    {
        proof {
            lemma_attributes();
        }
        Attributes(KERNEL_DATA)
    }

    /// Memory mapped device registers: Device memory, so the hardware performs
    /// exactly the accesses that were written, in order.
    pub fn device() -> (r: Attributes)
        ensures
            r == Attributes(DEVICE),
            r.clean(),
            r.grants(MAIR_DEVICE_INDEX, AP_RW_EL1, 0, false, false),
    {
        proof {
            lemma_attributes();
        }
        Attributes(DEVICE)
    }

    /// User data: readable and writable at both EL0 and EL1, never executable.
    pub fn user_data() -> (r: Attributes)
        ensures
            r == Attributes(USER_DATA),
            r.clean(),
            r.grants(MAIR_NORMAL_INDEX, AP_RW_ALL, 3, false, false),
    {
        proof {
            lemma_attributes();
        }
        Attributes(USER_DATA)
    }

    /// User code: executable at EL0, read only, and explicitly not executable
    /// by the kernel.
    pub fn user_text() -> (r: Attributes)
        ensures
            r == Attributes(USER_TEXT),
            r.clean(),
            r.grants(MAIR_NORMAL_INDEX, AP_RO_ALL, 3, false, true),
    {
        proof {
            lemma_attributes();
        }
        Attributes(USER_TEXT)
    }
}

spec fn attribute_bits(bits: u64, mem: u64, ap: u64, sh: u64, px: bool, ux: bool) -> bool {
    &&& bits & 0x0000_ffff_ffff_f003u64 == 0
    &&& (bits >> 2u64) & 7u64 == mem
    &&& (bits >> 6u64) & 3u64 == ap
    &&& (bits >> 8u64) & 3u64 == sh
    &&& bits & 0x400u64 != 0
    &&& (bits & 0x20_0000_0000_0000u64 == 0) == px
    &&& (bits & 0x40_0000_0000_0000u64 == 0) == ux
}

proof fn lemma_attributes()
    by (bit_vector)
    ensures
        attribute_bits(0x40_0000_0000_0784, 1, 2, 3, true, false),
        attribute_bits(0x60_0000_0000_0784, 1, 2, 3, false, false),
        attribute_bits(0x60_0000_0000_0704, 1, 0, 3, false, false),
        attribute_bits(0x60_0000_0000_0400, 0, 0, 0, false, false),
        attribute_bits(0x60_0000_0000_0744, 1, 1, 3, false, false),
        attribute_bits(0x20_0000_0000_07c4, 1, 3, 3, false, true),
{
}

/// What user mappings grant.
pub proof fn lemma_user_attributes()
    ensures
        Attributes(USER_TEXT).clean(),
        Attributes(USER_TEXT).grants(MAIR_NORMAL_INDEX, AP_RO_ALL, 3, false, true),
        Attributes(USER_DATA).clean(),
        Attributes(USER_DATA).grants(MAIR_NORMAL_INDEX, AP_RW_ALL, 3, false, false),
{
    lemma_attributes();
}

// ---------------------------------------------------------------------------
// What a table means.
// ---------------------------------------------------------------------------

/// Index into the table at `level` for virtual address `va`.
///
/// Taken modulo the table size, so the sign extension above bit 47 is
/// discarded and high half addresses index without any special casing.
pub open spec fn index(va: u64, level: int) -> int {
    if level <= 0 {
        va as int / 0x80_0000_0000 % 512
    } else if level == 1 {
        va as int / 0x4000_0000 % 512
    } else if level == 2 {
        va as int / 0x20_0000 % 512
    } else {
        va as int / 0x1000 % 512
    }
}

/// Entry `i` of the table at `table`.
pub open spec fn entry(m: Memory, table: int, i: int) -> u64 {
    m.u64_at(table + 8 * i)
}

/// Where a walk for `va` ends: the level it got to, and the descriptor it
/// found there. The descriptor is a leaf if it is valid, and nothing if not.
pub open spec fn stop(m: Memory, table: int, va: u64, level: int) -> (int, u64)
    decreases 4 - level,
{
    let e = entry(m, table, index(va, level));
    if descends(e, level) {
        stop(m, out_addr(e), va, level + 1)
    } else {
        (level, e)
    }
}

/// Every table a walk for `va` reads is inside memory.
pub open spec fn walkable(m: Memory, table: int, va: u64, level: int) -> bool
    decreases 4 - level,
{
    let e = entry(m, table, index(va, level));
    &&& m.has(table, 4096)
    &&& descends(e, level) ==> walkable(m, out_addr(e), va, level + 1)
}

/// The frames that hold `table` and every table below it.
pub open spec fn tables(m: Memory, table: int, level: int) -> Set<int>
    decreases 4 - level,
{
    Set::new(
        |a: int|
            a == table || exists|i: int|
                0 <= i < 512 && descends(#[trigger] entry(m, table, i), level) && tables(
                    m,
                    out_addr(entry(m, table, i)),
                    level + 1,
                ).contains(a),
    )
}

/// The frames that hold the tables below entry `i`.
pub open spec fn entry_tables(m: Memory, table: int, i: int, level: int) -> Set<int> {
    let e = entry(m, table, i);
    if descends(e, level) {
        tables(m, out_addr(e), level + 1)
    } else {
        Set::empty()
    }
}

/// The tables under `table` form a tree: each is a frame of memory, and no
/// two entries lead to the same one.
pub open spec fn tree(m: Memory, table: int, level: int) -> bool
    decreases 4 - level,
{
    &&& table % 4096 == 0
    &&& m.has(table, 4096)
    &&& forall|i: int|
        0 <= i < 512 && descends(#[trigger] entry(m, table, i), level) ==> tree(
            m,
            out_addr(entry(m, table, i)),
            level + 1,
        )
    &&& forall|i: int|
        0 <= i < 512 ==> !(#[trigger] entry_tables(m, table, i, level)).contains(table)
    &&& forall|i: int, j: int|
        0 <= i < 512 && 0 <= j < 512 && i != j ==> (#[trigger] entry_tables(
            m,
            table,
            i,
            level,
        )).disjoint(#[trigger] entry_tables(m, table, j, level))
}

/// What entry `i` leads to is a tree.
pub open spec fn entry_tree(m: Memory, table: int, i: int, level: int) -> bool {
    let e = entry(m, table, i);
    descends(e, level) ==> tree(m, out_addr(e), level + 1)
}

/// Frames one leaf covers at `level`.
pub open spec fn pages(level: int) -> int {
    if level >= 3 {
        1
    } else if level == 2 {
        512
    } else if level == 1 {
        0x4_0000
    } else {
        0x800_0000
    }
}

/// The frames mapped by the leaves under `table`.
pub open spec fn leaves(m: Memory, table: int, level: int) -> Set<int>
    decreases 4 - level,
{
    Set::new(
        |a: int|
            exists|i: int|
                0 <= i < 512 && valid(#[trigger] entry(m, table, i)) && (if descends(
                    entry(m, table, i),
                    level,
                ) {
                    leaves(m, out_addr(entry(m, table, i)), level + 1)
                } else {
                    frames::run(out_addr(entry(m, table, i)), pages(level))
                }).contains(a),
    )
}

/// The frames mapped through entry `i`.
pub open spec fn entry_leaves(m: Memory, table: int, i: int, level: int) -> Set<int> {
    let e = entry(m, table, i);
    if !valid(e) {
        Set::empty()
    } else if descends(e, level) {
        leaves(m, out_addr(e), level + 1)
    } else {
        frames::run(out_addr(e), pages(level))
    }
}

/// No frame is mapped twice, no leaf sits at level 0, and each leaf's address
/// is aligned to what it covers.
pub open spec fn private(m: Memory, table: int, level: int) -> bool
    decreases 4 - level,
{
    &&& forall|i: int|
        0 <= i < 512 && descends(#[trigger] entry(m, table, i), level) ==> private(
            m,
            out_addr(entry(m, table, i)),
            level + 1,
        )
    &&& forall|i: int|
        0 <= i < 512 && valid(#[trigger] entry(m, table, i)) ==> descends(
            entry(m, table, i),
            level,
        ) || level >= 1 && out_addr(entry(m, table, i)) % (pages(level) * 4096) == 0
    &&& forall|i: int, j: int|
        0 <= i < 512 && 0 <= j < 512 && i != j ==> (#[trigger] entry_leaves(
            m,
            table,
            i,
            level,
        )).disjoint(#[trigger] entry_leaves(m, table, j, level))
}

/// What entry `i` leads to maps no frame twice.
pub open spec fn entry_private(m: Memory, table: int, i: int, level: int) -> bool {
    let e = entry(m, table, i);
    &&& descends(e, level) ==> private(m, out_addr(e), level + 1)
    &&& valid(e) && !descends(e, level) ==> level >= 1 && out_addr(e) % (pages(level) * 4096) == 0
}

/// The two memories hold the same bytes in every frame of `s`.
pub open spec fn keeps(m1: Memory, m2: Memory, s: Set<int>) -> bool {
    &&& m1.same_window(&m2)
    &&& forall|t: int| #[trigger] s.contains(t) ==> m1.agrees(&m2, t, t + 4096)
}

proof fn lemma_index(va: u64, level: int)
    ensures
        0 <= index(va, level) < 512,
{
}

proof fn lemma_entries_same(m1: Memory, m2: Memory, table: int)
    requires
        m1.has(table, 4096),
        m1.agrees(&m2, table, table + 4096),
    ensures
        forall|i: int| 0 <= i < 512 ==> #[trigger] entry(m1, table, i) == entry(m2, table, i),
{
    m1.lemma_agrees_reads(&m2, table, table + 4096);
}

/// The recursive definitions above, one step unfolded.
proof fn lemma_unfold(m: Memory, table: int, level: int)
    ensures
        forall|a: int|
            #![trigger tables(m, table, level).contains(a)]
            tables(m, table, level).contains(a) == (a == table || exists|i: int|
                0 <= i < 512 && (#[trigger] entry_tables(m, table, i, level)).contains(a)),
        forall|a: int|
            #![trigger leaves(m, table, level).contains(a)]
            leaves(m, table, level).contains(a) == (exists|i: int|
                0 <= i < 512 && (#[trigger] entry_leaves(m, table, i, level)).contains(a)),
        forall|a: int, i: int|
            0 <= i < 512 && (#[trigger] entry_tables(m, table, i, level).contains(a)) ==> tables(
                m,
                table,
                level,
            ).contains(a),
        forall|a: int, i: int|
            0 <= i < 512 && (#[trigger] entry_leaves(m, table, i, level).contains(a)) ==> leaves(
                m,
                table,
                level,
            ).contains(a),
        tree(m, table, level) == {
            &&& table % 4096 == 0
            &&& m.has(table, 4096)
            &&& forall|i: int| 0 <= i < 512 ==> #[trigger] entry_tree(m, table, i, level)
            &&& forall|i: int|
                0 <= i < 512 ==> !(#[trigger] entry_tables(m, table, i, level)).contains(table)
            &&& forall|i: int, j: int|
                0 <= i < 512 && 0 <= j < 512 && i != j ==> (#[trigger] entry_tables(
                    m,
                    table,
                    i,
                    level,
                )).disjoint(#[trigger] entry_tables(m, table, j, level))
        },
        private(m, table, level) == {
            &&& forall|i: int| 0 <= i < 512 ==> #[trigger] entry_private(m, table, i, level)
            &&& forall|i: int, j: int|
                0 <= i < 512 && 0 <= j < 512 && i != j ==> (#[trigger] entry_leaves(
                    m,
                    table,
                    i,
                    level,
                )).disjoint(#[trigger] entry_leaves(m, table, j, level))
        },
{
    assert forall|a: int|
        #![trigger tables(m, table, level).contains(a)]
        tables(m, table, level).contains(a) == (a == table || exists|i: int|
            0 <= i < 512 && (#[trigger] entry_tables(m, table, i, level)).contains(a)) by {
        if tables(m, table, level).contains(a) && a != table {
            let i = choose|i: int|
                0 <= i < 512 && descends(#[trigger] entry(m, table, i), level) && tables(
                    m,
                    out_addr(entry(m, table, i)),
                    level + 1,
                ).contains(a);
            assert(entry_tables(m, table, i, level).contains(a));
        }
    }
    assert forall|a: int|
        #![trigger leaves(m, table, level).contains(a)]
        leaves(m, table, level).contains(a) == (exists|i: int|
            0 <= i < 512 && (#[trigger] entry_leaves(m, table, i, level)).contains(a)) by {
        if leaves(m, table, level).contains(a) {
            let i = choose|i: int|
                0 <= i < 512 && valid(#[trigger] entry(m, table, i)) && (if descends(
                    entry(m, table, i),
                    level,
                ) {
                    leaves(m, out_addr(entry(m, table, i)), level + 1)
                } else {
                    frames::run(out_addr(entry(m, table, i)), pages(level))
                }).contains(a);
            assert(entry_leaves(m, table, i, level).contains(a));
        }
    }
    assert((forall|i: int| 0 <= i < 512 ==> #[trigger] entry_tree(m, table, i, level)) ==> (forall|
        i: int,
    |
        0 <= i < 512 && descends(#[trigger] entry(m, table, i), level) ==> tree(
            m,
            out_addr(entry(m, table, i)),
            level + 1,
        ))) by {
        assert forall|i: int|
            (forall|i: int| 0 <= i < 512 ==> #[trigger] entry_tree(m, table, i, level)) && 0 <= i
                < 512 && descends(#[trigger] entry(m, table, i), level) implies tree(
            m,
            out_addr(entry(m, table, i)),
            level + 1,
        ) by {
            assert(entry_tree(m, table, i, level));
        }
    }
    assert((forall|i: int| 0 <= i < 512 ==> #[trigger] entry_private(m, table, i, level)) ==> (
    forall|i: int|
        0 <= i < 512 ==> {
            &&& descends(#[trigger] entry(m, table, i), level) ==> private(
                m,
                out_addr(entry(m, table, i)),
                level + 1,
            )
            &&& valid(entry(m, table, i)) && !descends(entry(m, table, i), level) ==> level >= 1
                && out_addr(entry(m, table, i)) % (pages(level) * 4096) == 0
        })) by {
        assert forall|i: int|
            (forall|i: int| 0 <= i < 512 ==> #[trigger] entry_private(m, table, i, level)) && 0 <= i
                < 512 implies {
            &&& descends(#[trigger] entry(m, table, i), level) ==> private(
                m,
                out_addr(entry(m, table, i)),
                level + 1,
            )
            &&& valid(entry(m, table, i)) && !descends(entry(m, table, i), level) ==> level >= 1
                && out_addr(entry(m, table, i)) % (pages(level) * 4096) == 0
        } by {
            assert(entry_private(m, table, i, level));
        }
    }
}

/// A tree of tables means what it means because of the bytes in its tables:
/// memory that keeps those keeps everything about it.
pub proof fn lemma_frame(m1: Memory, m2: Memory, table: int, level: int)
    requires
        tree(m1, table, level),
        keeps(m1, m2, tables(m1, table, level)),
    ensures
        tree(m2, table, level),
        tables(m2, table, level) == tables(m1, table, level),
        leaves(m2, table, level) == leaves(m1, table, level),
        private(m2, table, level) == private(m1, table, level),
        forall|va: u64| #[trigger] stop(m2, table, va, level) == stop(m1, table, va, level),
    decreases 4 - level, 1int,
{
    lemma_unfold(m1, table, level);
    lemma_unfold(m2, table, level);
    assert(tables(m1, table, level).contains(table));
    lemma_entries_same(m1, m2, table);
    assert forall|i: int| 0 <= i < 512 implies #[trigger] entry_frame(m1, m2, table, i, level) by {
        lemma_frame_entry(m1, m2, table, i, level);
    }
    assert forall|i: int| 0 <= i < 512 implies #[trigger] entry_tree(m2, table, i, level) by {
        assert(entry_frame(m1, m2, table, i, level));
    }
    assert forall|i: int|
        #![trigger entry_tables(m2, table, i, level)]
        #![trigger entry_tables(m1, table, i, level)]
        0 <= i < 512 implies entry_tables(m2, table, i, level) == entry_tables(m1, table, i, level) by {
        assert(entry_frame(m1, m2, table, i, level));
    }
    assert forall|i: int|
        #![trigger entry_leaves(m2, table, i, level)]
        #![trigger entry_leaves(m1, table, i, level)]
        0 <= i < 512 implies entry_leaves(m2, table, i, level) == entry_leaves(m1, table, i, level) by {
        assert(entry_frame(m1, m2, table, i, level));
    }
    assert forall|i: int|
        #![trigger entry_private(m2, table, i, level)]
        #![trigger entry_private(m1, table, i, level)]
        0 <= i < 512 implies entry_private(m2, table, i, level) == entry_private(m1, table, i, level) by {
        assert(entry_frame(m1, m2, table, i, level));
    }
    assert(tables(m2, table, level) =~= tables(m1, table, level));
    assert(leaves(m2, table, level) =~= leaves(m1, table, level));
    assert forall|va: u64| #[trigger] stop(m2, table, va, level) == stop(m1, table, va, level) by {
        lemma_index(va, level);
        let e = entry(m1, table, index(va, level));
        assert(entry_frame(m1, m2, table, index(va, level), level));
        if descends(e, level) {
            assert(stop(m2, out_addr(e), va, level + 1) == stop(m1, out_addr(e), va, level + 1));
        }
    }
}

/// Everything about entry `i` is the same in both memories.
spec fn entry_frame(m1: Memory, m2: Memory, table: int, i: int, level: int) -> bool {
    let e = entry(m1, table, i);
    &&& entry(m2, table, i) == e
    &&& entry_tree(m2, table, i, level)
    &&& entry_tables(m2, table, i, level) == entry_tables(m1, table, i, level)
    &&& entry_leaves(m2, table, i, level) == entry_leaves(m1, table, i, level)
    &&& entry_private(m2, table, i, level) == entry_private(m1, table, i, level)
    &&& descends(e, level) ==> forall|va: u64| #[trigger]
        stop(m2, out_addr(e), va, level + 1) == stop(m1, out_addr(e), va, level + 1)
}

proof fn lemma_frame_entry(m1: Memory, m2: Memory, table: int, i: int, level: int)
    requires
        0 <= i < 512,
        entry(m1, table, i) == entry(m2, table, i),
        entry_tree(m1, table, i, level),
        m1.same_window(&m2),
        keeps(m1, m2, entry_tables(m1, table, i, level)) || keeps(
            m1,
            m2,
            tables(m1, table, level),
        ),
    ensures
        entry_frame(m1, m2, table, i, level),
    decreases 4 - level, 0int,
{
    lemma_unfold(m1, table, level);
    let e = entry(m1, table, i);
    if descends(e, level) {
        assert(keeps(m1, m2, tables(m1, out_addr(e), level + 1))) by {
            assert forall|t: int| #[trigger]
                tables(m1, out_addr(e), level + 1).contains(t) implies m1.agrees(&m2, t, t + 4096) by {
                assert(entry_tables(m1, table, i, level).contains(t));
                if keeps(m1, m2, tables(m1, table, level)) {
                    assert(tables(m1, table, level).contains(t));
                }
            }
        }
        lemma_frame(m1, m2, out_addr(e), level + 1);
    }
}

/// Every table of a tree is a frame of memory.
pub proof fn lemma_tables_proper(m: Memory, table: int, level: int)
    requires
        tree(m, table, level),
    ensures
        forall|t: int| #[trigger]
            tables(m, table, level).contains(t) ==> t % 4096 == 0 && m.has(t, 4096),
    decreases 4 - level,
{
    lemma_unfold(m, table, level);
    assert forall|t: int| #[trigger] tables(m, table, level).contains(t) implies t % 4096 == 0
        && m.has(t, 4096) by {
        if t != table {
            let i = choose|i: int|
                0 <= i < 512 && (#[trigger] entry_tables(m, table, i, level)).contains(t);
            assert(entry_tree(m, table, i, level));
            lemma_tables_proper(m, out_addr(entry(m, table, i)), level + 1);
        }
    }
}

/// A walk that starts at `level` ends between there and the last level.
pub proof fn lemma_stop_level(m: Memory, table: int, va: u64, level: int)
    requires
        level <= 3,
    ensures
        level <= stop(m, table, va, level).0 <= 3,
        !descends(stop(m, table, va, level).1, stop(m, table, va, level).0),
    decreases 4 - level,
{
    let e = entry(m, table, index(va, level));
    if descends(e, level) {
        lemma_stop_level(m, out_addr(e), va, level + 1);
    }
}

/// A table of zeroes maps nothing and leads nowhere.
proof fn lemma_zero_table(m: Memory, table: int, level: int)
    requires
        table % 4096 == 0,
        m.has(table, 4096),
        forall|i: int| 0 <= i < 512 ==> #[trigger] entry(m, table, i) == 0,
    ensures
        tree(m, table, level),
        private(m, table, level),
        tables(m, table, level) == set![table],
        leaves(m, table, level) == Set::<int>::empty(),
        forall|va: u64| #[trigger] stop(m, table, va, level) == (level, 0u64),
{
    lemma_unfold(m, table, level);
    lemma_entry_bits(0);
    assert forall|i: int| 0 <= i < 512 implies #[trigger] entry_tree(m, table, i, level) by {}
    assert forall|i: int| 0 <= i < 512 implies #[trigger] entry_private(m, table, i, level) by {}
    assert forall|i: int| 0 <= i < 512 implies #[trigger] entry_tables(m, table, i, level)
        == Set::<int>::empty() by {}
    assert forall|i: int| 0 <= i < 512 implies #[trigger] entry_leaves(m, table, i, level)
        == Set::<int>::empty() by {}
    assert(tables(m, table, level) =~= set![table]);
    assert(leaves(m, table, level) =~= Set::<int>::empty());
    assert forall|va: u64| #[trigger] stop(m, table, va, level) == (level, 0u64) by {
        lemma_index(va, level);
    }
}

/// Replacing what one entry leads to keeps the tree, and keeps everything
/// about the other entries.
proof fn lemma_rebuild(m1: Memory, m2: Memory, table: int, level: int, k: int)
    requires
        tree(m1, table, level),
        m1.same_window(&m2),
        0 <= k < 512,
        forall|i: int| 0 <= i < 512 && i != k ==> #[trigger] entry(m2, table, i) == entry(
            m1,
            table,
            i,
        ),
        forall|i: int|
            0 <= i < 512 && i != k ==> keeps(m1, m2, #[trigger] entry_tables(m1, table, i, level)),
        entry_tree(m2, table, k, level),
        !entry_tables(m2, table, k, level).contains(table),
        forall|i: int|
            0 <= i < 512 && i != k ==> entry_tables(m2, table, k, level).disjoint(
                #[trigger] entry_tables(m1, table, i, level),
            ),
    ensures
        tree(m2, table, level),
        forall|i: int|
            #![trigger entry_tables(m2, table, i, level)]
            #![trigger entry_tables(m1, table, i, level)]
            0 <= i < 512 && i != k ==> entry_tables(m2, table, i, level) == entry_tables(
                m1,
                table,
                i,
                level,
            ),
        forall|i: int|
            #![trigger entry_leaves(m2, table, i, level)]
            #![trigger entry_leaves(m1, table, i, level)]
            0 <= i < 512 && i != k ==> entry_leaves(m2, table, i, level) == entry_leaves(
                m1,
                table,
                i,
                level,
            ),
        forall|va: u64|
            index(va, level) != k ==> #[trigger] stop(m2, table, va, level) == stop(
                m1,
                table,
                va,
                level,
            ),
        private(m1, table, level) && entry_private(m2, table, k, level) && (forall|i: int|
            0 <= i < 512 && i != k ==> entry_leaves(m2, table, k, level).disjoint(
                #[trigger] entry_leaves(m1, table, i, level),
            )) ==> private(m2, table, level),
{
    lemma_unfold(m1, table, level);
    lemma_unfold(m2, table, level);
    assert forall|i: int| 0 <= i < 512 && i != k implies #[trigger] entry_frame(
        m1,
        m2,
        table,
        i,
        level,
    ) by {
        assert(entry_tree(m1, table, i, level));
        assert(keeps(m1, m2, entry_tables(m1, table, i, level)));
        lemma_frame_entry(m1, m2, table, i, level);
    }
    assert forall|i: int|
        #![trigger entry_tables(m2, table, i, level)]
        #![trigger entry_tables(m1, table, i, level)]
        0 <= i < 512 && i != k implies entry_tables(m2, table, i, level) == entry_tables(
        m1,
        table,
        i,
        level,
    ) by {
        assert(entry_frame(m1, m2, table, i, level));
    }
    assert forall|i: int|
        #![trigger entry_leaves(m2, table, i, level)]
        #![trigger entry_leaves(m1, table, i, level)]
        0 <= i < 512 && i != k implies entry_leaves(m2, table, i, level) == entry_leaves(
        m1,
        table,
        i,
        level,
    ) by {
        assert(entry_frame(m1, m2, table, i, level));
    }
    assert forall|i: int| 0 <= i < 512 implies #[trigger] entry_tree(m2, table, i, level) by {
        if i != k {
            assert(entry_frame(m1, m2, table, i, level));
        }
    }
    assert forall|va: u64| index(va, level) != k implies #[trigger] stop(m2, table, va, level)
        == stop(m1, table, va, level) by {
        lemma_index(va, level);
        let e = entry(m1, table, index(va, level));
        assert(entry_frame(m1, m2, table, index(va, level), level));
        if descends(e, level) {
            assert(stop(m2, out_addr(e), va, level + 1) == stop(m1, out_addr(e), va, level + 1));
        }
    }
    if private(m1, table, level) && entry_private(m2, table, k, level) {
        assert forall|i: int| 0 <= i < 512 implies #[trigger] entry_private(
            m2,
            table,
            i,
            level,
        ) by {
            if i != k {
                assert(entry_frame(m1, m2, table, i, level));
                assert(entry_private(m1, table, i, level));
            }
        }
    }
}

// ---------------------------------------------------------------------------
// Building tables.
// ---------------------------------------------------------------------------

/// The allocator and the memory it hands out: RAM is inside memory, frames are
/// aligned, and every address of RAM fits a descriptor.
pub open spec fn machine(a: &Allocator, m: &Memory) -> bool {
    &&& a.wf()
    &&& m.wf()
    &&& m.has(a.base(), a.length())
    &&& a.base() % 4096 == 0
    &&& a.base() + a.length() <= 0x1_0000_0000_0000
}

/// The same window, with the same bytes outside the frames of `s`.
pub open spec fn changed_within(m1: Memory, m2: Memory, s: Set<int>) -> bool {
    &&& m1.same_window(&m2)
    &&& forall|pa: int|
        m1.has(pa, 1) && !s.contains(frames::round_down(pa)) ==> #[trigger] m2.byte_at(pa)
            == m1.byte_at(pa)
}

/// The level at which the walks for `va` and `vb` part: the first in
/// `level..=leaf` where they use different entries, or `leaf + 1`.
pub open spec fn split(va: u64, vb: u64, level: int, leaf: int) -> int
    decreases leaf - level + 1,
{
    if level > leaf || index(va, level) != index(vb, level) {
        level
    } else {
        split(va, vb, level + 1, leaf)
    }
}

/// Where a walk that used to end at `old` ends once a leaf `desc` has been put
/// in at level `leaf`, if it parts from the walk to that leaf at level `at`.
pub open spec fn remap(old: (int, u64), at: int, leaf: int, desc: u64) -> (int, u64) {
    if at > leaf {
        (leaf, desc)
    } else if old.0 < at {
        (at, 0)
    } else {
        old
    }
}

/// A larger mapping already covers the address.
pub open spec fn blocked(s: (int, u64), leaf: int) -> bool {
    s.0 < leaf && valid(s.1)
}

/// Nothing is mapped at the address, nor anything in the leaf it would get.
pub open spec fn vacant(s: (int, u64), leaf: int) -> bool {
    s.0 <= leaf && !valid(s.1)
}

/// Tables a walk is short of reaching level `leaf`.
pub open spec fn missing(s: (int, u64), leaf: int) -> int {
    if s.0 < leaf {
        leaf - s.0
    } else {
        0
    }
}

/// Index into the table at `level` for virtual address `va`.
fn table_index(va: u64, level: usize) -> (r: usize)
    requires
        level <= 3,
    ensures
        r == index(va, level as int),
        r < 512,
{
    let i: u64 = if level == 0 {
        va / 0x80_0000_0000
    } else if level == 1 {
        va / 0x4000_0000
    } else if level == 2 {
        va / 0x20_0000
    } else {
        va / 0x1000
    };
    (i % 512) as usize
}

fn read_entry(memory: &Memory, table: Frame, index: usize) -> (e: u64)
    requires
        memory.wf(),
        memory.has(table.0 as int, 4096),
        index < 512,
    ensures
        e == entry(*memory, table.0 as int, index as int),
{
    memory.read_u64(table.0 + 8 * index as u64)
}

fn write_entry(memory: &mut Memory, table: Frame, index: usize, value: u64)
    requires
        old(memory).wf(),
        old(memory).has(table.0 as int, 4096),
        index < 512,
    ensures
        final(memory).wf(),
        final(memory).agrees_outside(
            old(memory),
            table.0 + 8 * index,
            table.0 + 8 * index + 8,
        ),
        entry(*final(memory), table.0 as int, index as int) == value,
        forall|i: int|
            0 <= i < 512 && i != index ==> #[trigger] entry(*final(memory), table.0 as int, i)
                == entry(*old(memory), table.0 as int, i),
{
    memory.write_u64(table.0 + 8 * index as u64, value);
    proof {
        let lo = table.0 + 8 * index;
        assert forall|i: int| 0 <= i < 512 && i != index implies #[trigger] entry(
            *memory,
            table.0 as int,
            i,
        ) == entry(*old(memory), table.0 as int, i) by {
            let at = table.0 + 8 * i;
            assert(memory.agrees(old(memory), at, at + 8));
            memory.lemma_agrees_reads(old(memory), at, at + 8);
        }
    }
}

proof fn lemma_zero_entries(m: Memory, table: int)
    requires
        m.has(table, 4096),
        forall|q: int| table <= q < table + 4096 ==> #[trigger] m.byte_at(q) == 0,
    ensures
        forall|i: int| 0 <= i < 512 ==> #[trigger] entry(m, table, i) == 0,
{
    assert forall|i: int| 0 <= i < 512 implies #[trigger] entry(m, table, i) == 0 by {
        let at = table + 8 * i;
        assert(m.byte_at(at) == 0 && m.byte_at(at + 1) == 0 && m.byte_at(at + 2) == 0 && m.byte_at(
            at + 3,
        ) == 0);
        assert(m.byte_at(at + 4) == 0 && m.byte_at(at + 5) == 0 && m.byte_at(at + 6) == 0
            && m.byte_at(at + 7) == 0);
        assert(m.u32_at(at) == 0 && m.u32_at(at + 4) == 0);
    }
}

/// Follow the entry at `index`, allocating a table if there is not one yet.
#[verifier::spinoff_prover]
#[verifier::rlimit(40)]
fn next_table(a: &mut Allocator, memory: &mut Memory, table: Frame, index: usize) -> (r: Frame)
    requires
        machine(old(a), old(memory)),
        old(memory).has(table.0 as int, 4096),
        table.0 % 4096 == 0,
        old(a).taken().contains(table.0 as int),
        index < 512,
        ({
            let e = entry(*old(memory), table.0 as int, index as int);
            if valid(e) {
                is_table(e)
            } else {
                old(a).free_count() > 0
            }
        }),
    ensures
        machine(final(a), final(memory)),
        final(a).same_machine(old(a)),
        final(a).packed(old(a)),
        r.0 % 4096 == 0,
        ({
            let t = table.0 as int;
            let e = entry(*old(memory), t, index as int);
            if valid(e) {
                &&& r.0 == out_addr(e)
                &&& *final(a) == *old(a)
                &&& *final(memory) == *old(memory)
            } else {
                let n = entry(*final(memory), t, index as int);
                &&& !old(a).taken().contains(r.0 as int)
                &&& final(a).taken() == old(a).taken().insert(r.0 as int)
                &&& final(a).free_count() == old(a).free_count() - 1
                &&& final(memory).has(r.0 as int, 4096)
                &&& valid(n)
                &&& is_table(n)
                &&& out_addr(n) == r.0
                &&& forall|i: int| 0 <= i < 512 ==> #[trigger] entry(*final(memory), r.0 as int, i) == 0
                &&& forall|i: int|
                    0 <= i < 512 && i != index ==> #[trigger] entry(*final(memory), t, i) == entry(
                        *old(memory),
                        t,
                        i,
                    )
                &&& changed_within(*old(memory), *final(memory), set![t, r.0 as int])
            }
        }),
{
    let e: u64 = read_entry(memory, table, index);
    if e & VALID != 0 {
        proof {
            lemma_entry_bits(e);
        }
        return Frame::from_addr(e & ADDR_MASK);
    }
    let ghost m0 = *memory;
    proof {
        a.lemma_facts();
    }
    let new = frames::alloc_frame(a, memory).unwrap();
    let ghost m1 = *memory;
    let ghost t = table.0 as int;
    let ghost n = new.0 as int;
    proof {
        a.lemma_facts();
        assert(n % 4096 == 0);
        assert(m1.agrees(&m0, t, t + 4096));
        lemma_entries_same(m1, m0, t);
    }
    // Frames arrive zeroed, so every entry in the new table is already
    // invalid.
    write_entry(memory, table, index, new.addr() | VALID | TABLE_OR_PAGE);
    proof {
        lemma_table_descriptor(new.0);
        let m2 = *memory;
        lemma_zero_entries(m1, n);
        assert(m1.agrees(&m2, n, n + 4096));
        lemma_entries_same(m1, m2, n);
        assert(changed_within(m0, m2, set![t, n])) by {
            assert forall|pa: int|
                m0.has(pa, 1) && !set![t, n].contains(
                    frames::round_down(pa),
                ) implies #[trigger] m2.byte_at(pa) == m0.byte_at(pa) by {
                assert(m2.byte_at(pa) == m1.byte_at(pa));
                assert(m1.byte_at(pa) == m0.byte_at(pa));
            }
        }
    }
    new
}

/// What putting one leaf in does, to the tables and to the frames behind
/// them.
#[verifier::opaque]
pub open spec fn leaf_mapped(
    m1: Memory,
    m2: Memory,
    taken1: Set<int>,
    taken2: Set<int>,
    table: int,
    level: int,
    va: u64,
    leaf: int,
    desc: u64,
) -> bool {
    let s = stop(m1, table, va, level);
    let mapped = frames::run(out_addr(desc), pages(leaf));
    // Still a tree, grown by exactly the frames that were taken.
    &&& tree(m2, table, level)
    &&& taken1.subset_of(taken2)
    &&& forall|t: int| #[trigger]
        tables(m2, table, level).contains(t) ==> tables(m1, table, level).contains(t)
            || taken2.contains(t) && !taken1.contains(t)
    &&& forall|t: int| #[trigger]
        taken2.contains(t) && !taken1.contains(t) ==> tables(m2, table, level).contains(t)
    &&& s.0 <= leaf ==> tables(m1, table, level).subset_of(
        tables(m2, table, level),
    )
    // Nothing outside the tables changed.
    &&& changed_within(m1, m2, tables(m2, table, level))
    // Walks into the leaf find it, and no other walk finds anything new.
    &&& forall|vb: u64| #[trigger]
        stop(m2, table, vb, level) == remap(
            stop(m1, table, vb, level),
            split(va, vb, level, leaf),
            leaf,
            desc,
        )
    // Mapping where nothing was mapped adds the leaf's frames.
    &&& vacant(s, leaf) ==> leaves(m2, table, level) == leaves(m1, table, level).union(mapped)
    &&& vacant(s, leaf) && 1 <= leaf && out_addr(desc) % (pages(leaf) * 4096) == 0 && private(
        m1,
        table,
        level,
    ) && mapped.disjoint(leaves(m1, table, level)) ==> private(m2, table, level)
}

/// The last step: the leaf goes into `table` itself.
#[verifier::spinoff_prover]
#[verifier::rlimit(40)]
proof fn lemma_leaf_here(
    m1: Memory,
    m2: Memory,
    taken: Set<int>,
    table: int,
    level: int,
    va: u64,
    desc: u64,
)
    requires
        0 <= level <= 3,
        tree(m1, table, level),
        valid(desc),
        level < 3 ==> !is_table(desc),
        m2.agrees_outside(&m1, table, table + 4096),
        entry(m2, table, index(va, level)) == desc,
        forall|i: int|
            0 <= i < 512 && i != index(va, level) ==> #[trigger] entry(m2, table, i) == entry(
                m1,
                table,
                i,
            ),
    ensures
        leaf_mapped(m1, m2, taken, taken, table, level, va, level, desc),
{
    reveal(leaf_mapped);
    let k = index(va, level);
    let s = stop(m1, table, va, level);
    lemma_index(va, level);
    lemma_unfold(m1, table, level);
    lemma_unfold(m2, table, level);
    lemma_tables_proper(m1, table, level);
    lemma_stop_level(m1, table, va, level);
    assert forall|i: int| 0 <= i < 512 && i != k implies keeps(
        m1,
        m2,
        #[trigger] entry_tables(m1, table, i, level),
    ) by {
        assert forall|t: int| #[trigger]
            entry_tables(m1, table, i, level).contains(t) implies m1.agrees(&m2, t, t + 4096) by {
            assert(tables(m1, table, level).contains(t));
            assert(t != table);
            assert forall|pa: int| t <= pa < t + 4096 && m1.has(pa, 1) implies #[trigger] m1.byte_at(
                pa,
            ) == m2.byte_at(pa) by {
                assert(m2.byte_at(pa) == m1.byte_at(pa));
            }
        }
    }
    assert(entry_tables(m2, table, k, level) =~= Set::<int>::empty());
    lemma_rebuild(m1, m2, table, level, k);
    assert(changed_within(m1, m2, tables(m2, table, level))) by {
        assert(tables(m2, table, level).contains(table));
        assert forall|pa: int|
            m1.has(pa, 1) && !tables(m2, table, level).contains(
                frames::round_down(pa),
            ) implies #[trigger] m2.byte_at(pa) == m1.byte_at(pa) by {
            assert(frames::round_down(pa) != table);
        }
    }
    assert forall|vb: u64| #[trigger] stop(m2, table, vb, level) == remap(
        stop(m1, table, vb, level),
        split(va, vb, level, level),
        level,
        desc,
    ) by {
        lemma_stop_level(m1, table, vb, level);
        reveal_with_fuel(split, 2);
    }
    if s.0 <= level {
        let e = entry(m1, table, k);
        if descends(e, level) {
            lemma_stop_level(m1, out_addr(e), va, level + 1);
        }
        assert(entry_tables(m1, table, k, level) =~= Set::<int>::empty());
        if !valid(s.1) {
            assert(entry_leaves(m1, table, k, level) =~= Set::<int>::empty());
            let mapped = frames::run(out_addr(desc), pages(level));
            assert(entry_leaves(m2, table, k, level) == mapped);
            assert(leaves(m2, table, level) =~= leaves(m1, table, level).union(mapped));
        }
    }
}

/// One step up: the leaf went in somewhere below entry `k`, whose table
/// `child` was either there already or is new.
#[verifier::spinoff_prover]
#[verifier::rlimit(30)]
proof fn lemma_leaf_below(
    m0: Memory,
    m1: Memory,
    m2: Memory,
    taken0: Set<int>,
    taken1: Set<int>,
    taken2: Set<int>,
    table: int,
    child: int,
    level: int,
    va: u64,
    leaf: int,
    desc: u64,
)
    requires
        0 <= level < leaf <= 3,
        tree(m0, table, level),
        tables(m0, table, level).subset_of(taken0),
        taken0.subset_of(taken1),
        m0.same_window(&m1),
        !blocked(stop(m0, table, va, level), leaf),
        descends(entry(m1, table, index(va, level)), level),
        out_addr(entry(m1, table, index(va, level))) == child,
        leaf_mapped(m1, m2, taken1, taken2, child, level + 1, va, leaf, desc),
        ({
            let e = entry(m0, table, index(va, level));
            if valid(e) {
                m1 == m0 && taken1 == taken0
            } else {
                &&& !taken0.contains(child)
                &&& taken1 == taken0.insert(child)
                &&& m1.has(child, 4096)
                &&& child % 4096 == 0
                &&& forall|i: int| 0 <= i < 512 ==> #[trigger] entry(m1, child, i) == 0
                &&& forall|i: int|
                    0 <= i < 512 && i != index(va, level) ==> #[trigger] entry(m1, table, i)
                        == entry(m0, table, i)
                &&& changed_within(m0, m1, set![table, child])
            }
        }),
    ensures
        leaf_mapped(m0, m2, taken0, taken2, table, level, va, leaf, desc),
{
    reveal(leaf_mapped);
    let k = index(va, level);
    let s = stop(m0, table, va, level);
    let e = entry(m0, table, k);
    let below = level + 1;
    lemma_index(va, level);
    lemma_unfold(m0, table, level);
    lemma_tables_proper(m0, table, level);
    assert(tables(m0, table, level).contains(table));
    if valid(e) {
        assert(descends(e, level));
        assert(entry_tables(m0, table, k, level) == tables(m1, child, below));
        assert forall|t: int| tables(m1, child, below).contains(t) implies tables(
            m0,
            table,
            level,
        ).contains(t) by {
            assert(entry_tables(m0, table, k, level).contains(t));
        }
    } else {
        lemma_zero_table(m1, child, below);
        assert(entry_tables(m0, table, k, level) =~= Set::<int>::empty());
    }
    // The tables below `child` are apart from `table` and from what every
    // other entry leads to.
    assert forall|t: int| #[trigger] tables(m2, child, below).contains(t) implies t != table by {
        if tables(m1, child, below).contains(t) && valid(e) {
            assert(entry_tables(m0, table, k, level).contains(t));
        }
    }
    assert forall|t: int, i: int|
        0 <= i < 512 && i != k && #[trigger] tables(m2, child, below).contains(
            t,
        ) implies !(#[trigger] entry_tables(m0, table, i, level)).contains(t) by {
        if entry_tables(m0, table, i, level).contains(t) {
            assert(tables(m0, table, level).contains(t));
            if valid(e) {
                assert(entry_tables(m0, table, k, level).contains(t));
                assert(entry_tables(m0, table, k, level).disjoint(
                    entry_tables(m0, table, i, level),
                ));
            }
        }
    }
    assert forall|pa: int| table <= pa < table + 4096 && m1.has(pa, 1) implies #[trigger] m1.byte_at(
        pa,
    ) == m2.byte_at(pa) by {
        assert(frames::round_down(pa) == table);
        assert(m2.byte_at(pa) == m1.byte_at(pa));
    }
    assert(m1.agrees(&m2, table, table + 4096));
    lemma_entries_same(m1, m2, table);
    assert forall|i: int| 0 <= i < 512 && i != k implies keeps(
        m0,
        m2,
        #[trigger] entry_tables(m0, table, i, level),
    ) by {
        assert forall|t: int| #[trigger]
            entry_tables(m0, table, i, level).contains(t) implies m0.agrees(&m2, t, t + 4096) by {
            assert(tables(m0, table, level).contains(t));
            assert(t != table);
            assert forall|pa: int| t <= pa < t + 4096 && m0.has(pa, 1) implies #[trigger] m0.byte_at(
                pa,
            ) == m2.byte_at(pa) by {
                assert(frames::round_down(pa) == t);
                assert(!tables(m2, child, below).contains(t));
                assert(m2.byte_at(pa) == m1.byte_at(pa));
                assert(m1.byte_at(pa) == m0.byte_at(pa));
            }
        }
    }
    assert forall|i: int| 0 <= i < 512 && i != k implies #[trigger] entry(m2, table, i) == entry(
        m0,
        table,
        i,
    ) by {
        assert(entry(m1, table, i) == entry(m2, table, i));
    }
    assert(entry(m1, table, k) == entry(m2, table, k));
    assert(entry_tables(m2, table, k, level) == tables(m2, child, below));
    assert forall|i: int| 0 <= i < 512 && i != k implies entry_tables(
        m2,
        table,
        k,
        level,
    ).disjoint(#[trigger] entry_tables(m0, table, i, level)) by {}
    lemma_rebuild(m0, m2, table, level, k);
    lemma_unfold(m2, table, level);

    // The tables.
    assert forall|t: int| #[trigger] tables(m2, table, level).contains(t) implies tables(
        m0,
        table,
        level,
    ).contains(t) || taken2.contains(t) && !taken0.contains(t) by {
        if t != table {
            let i = choose|i: int|
                0 <= i < 512 && (#[trigger] entry_tables(m2, table, i, level)).contains(t);
            if i != k {
                assert(entry_tables(m0, table, i, level).contains(t));
            } else {
                assert(tables(m2, child, below).contains(t));
            }
        }
    }
    assert forall|t: int| #[trigger] taken2.contains(t) && !taken0.contains(t) implies tables(
        m2,
        table,
        level,
    ).contains(t) by {
        assert(tables(m2, child, below).contains(child)) by {
            lemma_unfold(m2, child, below);
        }
        assert(entry_tables(m2, table, k, level).contains(t));
    }
    let reached = stop(m1, child, va, below);
    lemma_stop_level(m1, child, va, below);
    assert(valid(e) ==> s == reached);
    assert(!valid(e) ==> s == (level, e) && reached == (below, 0u64));
    if s.0 <= leaf {
        assert forall|t: int| tables(m0, table, level).contains(t) implies tables(
            m2,
            table,
            level,
        ).contains(t) by {
            if t != table {
                let i = choose|i: int|
                    0 <= i < 512 && (#[trigger] entry_tables(m0, table, i, level)).contains(t);
                assert(entry_tables(m2, table, i, level).contains(t));
            }
        }
    }
    assert(changed_within(m0, m2, tables(m2, table, level))) by {
        assert(tables(m2, child, below).contains(child)) by {
            lemma_unfold(m2, child, below);
        }
        assert(entry_tables(m2, table, k, level).contains(child));
        assert forall|pa: int|
            m0.has(pa, 1) && !tables(m2, table, level).contains(
                frames::round_down(pa),
            ) implies #[trigger] m2.byte_at(pa) == m0.byte_at(pa) by {
            let f = frames::round_down(pa);
            assert(f != table);
            assert(!entry_tables(m2, table, k, level).contains(f));
            assert(m2.byte_at(pa) == m1.byte_at(pa));
            assert(m1.byte_at(pa) == m0.byte_at(pa));
        }
    }

    // The walks.
    assert forall|vb: u64| #[trigger] stop(m2, table, vb, level) == remap(
        stop(m0, table, vb, level),
        split(va, vb, level, leaf),
        leaf,
        desc,
    ) by {
        lemma_stop_level(m0, table, vb, level);
        if index(vb, level) == k {
            assert(split(va, vb, level, leaf) == split(va, vb, below, leaf));
            lemma_split(va, vb, below, leaf);
            assert(stop(m2, table, vb, level) == stop(m2, child, vb, below));
            if valid(e) {
                assert(stop(m0, table, vb, level) == stop(m1, child, vb, below));
            } else {
                assert(stop(m1, child, vb, below) == (below, 0u64));
            }
        }
    }

    // The frames mapped.
    if vacant(s, leaf) {
        let mapped = frames::run(out_addr(desc), pages(leaf));
        lemma_entry_bits(0);
        assert(vacant(reached, leaf));
        assert(leaves(m2, child, below) == leaves(m1, child, below).union(mapped));
        assert(entry_leaves(m2, table, k, level) == leaves(m2, child, below));
        assert(entry_leaves(m0, table, k, level) =~= leaves(m1, child, below));
        assert(leaves(m2, table, level) =~= leaves(m0, table, level).union(mapped)) by {
            assert forall|q: int| leaves(m2, table, level).contains(q) implies leaves(
                m0,
                table,
                level,
            ).union(mapped).contains(q) by {
                let i = choose|i: int|
                    0 <= i < 512 && (#[trigger] entry_leaves(m2, table, i, level)).contains(q);
                if i != k {
                    assert(entry_leaves(m0, table, i, level).contains(q));
                } else if !mapped.contains(q) {
                    assert(entry_leaves(m0, table, k, level).contains(q));
                }
            }
            assert forall|q: int| leaves(m0, table, level).union(mapped).contains(
                q,
            ) implies leaves(m2, table, level).contains(q) by {
                if mapped.contains(q) {
                    assert(entry_leaves(m2, table, k, level).contains(q));
                } else {
                    let i = choose|i: int|
                        0 <= i < 512 && (#[trigger] entry_leaves(m0, table, i, level)).contains(q);
                    assert(entry_leaves(m2, table, i, level).contains(q));
                }
            }
        }
        if out_addr(desc) % (pages(leaf) * 4096) == 0 && private(m0, table, level)
            && mapped.disjoint(leaves(m0, table, level)) {
            assert(entry_private(m0, table, k, level));
            assert(private(m1, child, below));
            assert(mapped.disjoint(leaves(m1, child, below))) by {
                assert forall|q: int| leaves(m1, child, below).contains(q) implies !mapped.contains(
                    q,
                ) by {
                    assert(entry_leaves(m0, table, k, level).contains(q));
                    assert(leaves(m0, table, level).contains(q));
                }
            }
            assert(private(m2, child, below));
            assert(entry_private(m2, table, k, level));
            assert forall|i: int| 0 <= i < 512 && i != k implies entry_leaves(
                m2,
                table,
                k,
                level,
            ).disjoint(#[trigger] entry_leaves(m0, table, i, level)) by {
                assert forall|q: int| entry_leaves(m0, table, i, level).contains(
                    q,
                ) implies !entry_leaves(m2, table, k, level).contains(q) by {
                    assert(leaves(m0, table, level).contains(q));
                    assert(entry_leaves(m0, table, k, level).disjoint(
                        entry_leaves(m0, table, i, level),
                    ));
                }
            }
            assert(private(m2, table, level));
        }
    }
}

proof fn lemma_split(va: u64, vb: u64, level: int, leaf: int)
    requires
        level <= leaf + 1,
    ensures
        level <= split(va, vb, level, leaf) <= leaf + 1,
    decreases leaf - level + 1,
{
    if level <= leaf {
        lemma_split(va, vb, level + 1, leaf);
    }
}

/// Put the leaf descriptor `desc` in at level `leaf` for `va`, building the
/// tables on the way.
fn map_leaf(
    a: &mut Allocator,
    memory: &mut Memory,
    table: Frame,
    level: usize,
    va: u64,
    leaf: usize,
    desc: u64,
)
    requires
        machine(old(a), old(memory)),
        level <= leaf <= 3,
        valid(desc),
        leaf < 3 ==> !is_table(desc),
        tree(*old(memory), table.0 as int, level as int),
        tables(*old(memory), table.0 as int, level as int).subset_of(old(a).taken()),
        !blocked(stop(*old(memory), table.0 as int, va, level as int), leaf as int),
        missing(stop(*old(memory), table.0 as int, va, level as int), leaf as int) <= old(
            a,
        ).free_count(),
    ensures
        machine(final(a), final(memory)),
        final(a).same_machine(old(a)),
        final(a).packed(old(a)),
        final(a).free_count() == old(a).free_count() - missing(
            stop(*old(memory), table.0 as int, va, level as int),
            leaf as int,
        ),
        leaf_mapped(
            *old(memory),
            *final(memory),
            old(a).taken(),
            final(a).taken(),
            table.0 as int,
            level as int,
            va,
            leaf as int,
            desc,
        ),
    decreases leaf - level,
{
    let ghost m0 = *memory;
    let ghost t = table.0 as int;
    let index: usize = table_index(va, level);
    proof {
        lemma_unfold(m0, t, level as int);
        assert(tables(m0, t, level as int).contains(t));
    }
    if level == leaf {
        write_entry(memory, table, index, desc);
        proof {
            lemma_stop_level(m0, t, va, level as int);
            lemma_leaf_here(m0, *memory, a.taken(), t, level as int, va, desc);
        }
        return ;
    }
    let child = next_table(a, memory, table, index);
    let ghost m1 = *memory;
    let ghost a1 = *a;
    let ghost taken1 = a.taken();
    proof {
        let e = entry(m0, t, index as int);
        let c = child.0 as int;
        if valid(e) {
            assert(entry_tree(m0, t, index as int, level as int));
            assert forall|q: int| tables(m1, c, level + 1).contains(q) implies taken1.contains(
                q,
            ) by {
                assert(entry_tables(m0, t, index as int, level as int).contains(q));
            }
        } else {
            lemma_zero_table(m1, c, level + 1);
            lemma_entry_bits(0);
        }
    }
    map_leaf(a, memory, child, level + 1, va, leaf, desc);
    proof {
        a.lemma_packed(&a1, old(a));
        lemma_leaf_below(
            m0,
            m1,
            *memory,
            old(a).taken(),
            taken1,
            a.taken(),
            t,
            child.0 as int,
            level as int,
            va,
            leaf as int,
            desc,
        );
    }
}

/// A leaf descriptor for `pa`: a page at level 3, a block above it.
///
/// A page needs both type bits; with only `VALID` it is not a block, it is
/// reserved. A block is `VALID` alone.
pub open spec fn leaf_desc(pa: u64, attrs: Attributes, leaf: int) -> u64 {
    if leaf >= 3 {
        pa | attrs.0 | VALID | TABLE_OR_PAGE
    } else {
        pa | attrs.0 | VALID
    }
}

/// Map one 4 KiB page.
fn map_page(
    a: &mut Allocator,
    memory: &mut Memory,
    root: Frame,
    va: u64,
    pa: u64,
    attrs: Attributes,
)
    requires
        machine(old(a), old(memory)),
        attrs.clean(),
        pa % 4096 == 0,
        pa < 0x1_0000_0000_0000,
        tree(*old(memory), root.0 as int, 0),
        tables(*old(memory), root.0 as int, 0).subset_of(old(a).taken()),
        !blocked(stop(*old(memory), root.0 as int, va, 0), 3),
        missing(stop(*old(memory), root.0 as int, va, 0), 3) <= old(a).free_count(),
    ensures
        machine(final(a), final(memory)),
        final(a).same_machine(old(a)),
        final(a).packed(old(a)),
        final(a).free_count() == old(a).free_count() - missing(
            stop(*old(memory), root.0 as int, va, 0),
            3,
        ),
        leaf_mapped(
            *old(memory),
            *final(memory),
            old(a).taken(),
            final(a).taken(),
            root.0 as int,
            0,
            va,
            3,
            leaf_desc(pa, attrs, 3),
        ),
{
    proof {
        lemma_descriptor(pa, attrs.0);
    }
    map_leaf(a, memory, root, 0, va, 3, pa | attrs.0 | VALID | TABLE_OR_PAGE);
}

/// Map one 2 MiB block, which stops the walk a level early.
fn map_block(
    a: &mut Allocator,
    memory: &mut Memory,
    root: Frame,
    va: u64,
    pa: u64,
    attrs: Attributes,
)
    requires
        machine(old(a), old(memory)),
        attrs.clean(),
        pa % 0x20_0000 == 0,
        pa < 0x1_0000_0000_0000,
        tree(*old(memory), root.0 as int, 0),
        tables(*old(memory), root.0 as int, 0).subset_of(old(a).taken()),
        !blocked(stop(*old(memory), root.0 as int, va, 0), 2),
        missing(stop(*old(memory), root.0 as int, va, 0), 2) <= old(a).free_count(),
    ensures
        machine(final(a), final(memory)),
        final(a).same_machine(old(a)),
        final(a).packed(old(a)),
        final(a).free_count() == old(a).free_count() - missing(
            stop(*old(memory), root.0 as int, va, 0),
            2,
        ),
        leaf_mapped(
            *old(memory),
            *final(memory),
            old(a).taken(),
            final(a).taken(),
            root.0 as int,
            0,
            va,
            2,
            leaf_desc(pa, attrs, 2),
        ),
{
    proof {
        lemma_descriptor(pa, attrs.0);
    }
    map_leaf(a, memory, root, 0, va, 2, pa | attrs.0 | VALID);
}

/// The address as the tables see it: the 48 bits a walk uses.
pub open spec fn low(va: u64) -> int {
    va as int % 0x1_0000_0000_0000
}

/// Bytes a leaf at level 2 or 3 covers.
pub open spec fn unit(leaf: int) -> int {
    if leaf >= 3 {
        0x1000
    } else {
        0x20_0000
    }
}

/// Two addresses use the same leaf entry exactly when they are in the same
/// unit of the address space.
proof fn lemma_split_unit(x: u64, v: u64, leaf: int)
    requires
        leaf == 2 || leaf == 3,
    ensures
        (split(x, v, 0, leaf) > leaf) == (low(x) / unit(leaf) == low(v) / unit(leaf)),
        0 <= split(x, v, 0, leaf) <= leaf + 1,
{
    reveal_with_fuel(split, 6);
    let (a, b) = (low(x), low(v));
    lemma_low(x);
    lemma_low(v);
}

proof fn lemma_low(x: u64)
    ensures
        ({
            let w = low(x);
            &&& index(x, 0) == w / 0x80_0000_0000
            &&& w / 0x4000_0000 == 512 * index(x, 0) + index(x, 1)
            &&& w / 0x20_0000 == 512 * (w / 0x4000_0000) + index(x, 2)
            &&& w / 0x1000 == 512 * (w / 0x20_0000) + index(x, 3)
        }),
{
    let v = x as int;
    let p3 = v / 0x1000;
    let p2 = v / 0x20_0000;
    let p1 = v / 0x4000_0000;
    let p0 = v / 0x80_0000_0000;
    let h = v / 0x1_0000_0000_0000;
    let (r3, r2, r1, r0) = (p3 % 512, p2 % 512, p1 % 512, p0 % 512);
    lemma_fundamental_div_mod(v, 0x1000);
    lemma_fundamental_div_mod(p3, 512);
    lemma_fundamental_div_mod(p2, 512);
    lemma_fundamental_div_mod(p1, 512);
    lemma_fundamental_div_mod(p0, 512);
    let o = v % 0x1000;
    let o3 = 0x1000 * r3 + o;
    lemma_fundamental_div_mod_converse(v, 0x20_0000, p3 / 512, o3);
    let o2 = 0x20_0000 * r2 + o3;
    lemma_fundamental_div_mod_converse(v, 0x4000_0000, p2 / 512, o2);
    let o1 = 0x4000_0000 * r1 + o2;
    lemma_fundamental_div_mod_converse(v, 0x80_0000_0000, p1 / 512, o1);
    let o0 = 0x80_0000_0000 * r0 + o1;
    lemma_fundamental_div_mod_converse(v, 0x1_0000_0000_0000, p0 / 512, o0);
    lemma_fundamental_div_mod_converse(o0, 0x80_0000_0000, r0, o1);
    lemma_fundamental_div_mod_converse(o0, 0x4000_0000, 512 * r0 + r1, o2);
    lemma_fundamental_div_mod_converse(o0, 0x20_0000, 512 * (512 * r0 + r1) + r2, o3);
    lemma_fundamental_div_mod_converse(o0, 0x1000, 512 * (512 * (512 * r0 + r1) + r2) + r3, o);
}

/// Walks that use the same entries as far as the first of them gets end in the
/// same place.
proof fn lemma_coherent(m: Memory, table: int, x: u64, v: u64, level: int, leaf: int)
    requires
        level <= leaf + 1,
        leaf <= 3,
        stop(m, table, v, level).0 < split(x, v, level, leaf),
    ensures
        stop(m, table, x, level) == stop(m, table, v, level),
    decreases 4 - level,
{
    if level <= 3 {
        lemma_stop_level(m, table, v, level);
    }
    let e = entry(m, table, index(v, level));
    if level <= leaf && index(x, level) == index(v, level) && descends(e, level) {
        lemma_coherent(m, out_addr(e), x, v, level + 1, leaf);
    }
}

/// Every walk through a root, as a function of the address.
pub open spec fn walks(m: Memory, root: int) -> spec_fn(u64) -> (int, u64) {
    |va: u64| stop(m, root, va, 0)
}

/// The level of the leaf that maps what lies `off` bytes into a range: a block
/// where one fits and both addresses are aligned for it, and a page otherwise.
pub open spec fn chunk_leaf(va: int, pa: int, size: int, off: int) -> int {
    if size - off >= 0x20_0000 && (va + off) % 0x20_0000 == 0 && (pa + off) % 0x20_0000 == 0 {
        2
    } else {
        3
    }
}

/// What every walk finds once the leaf for `va` is in.
pub open spec fn with_leaf(
    s: spec_fn(u64) -> (int, u64),
    va: u64,
    leaf: int,
    desc: u64,
) -> spec_fn(u64) -> (int, u64) {
    |vb: u64| remap(s(vb), split(va, vb, 0, leaf), leaf, desc)
}

/// What every walk finds once the range is mapped from `off` on.
pub open spec fn range_after(
    s: spec_fn(u64) -> (int, u64),
    va: int,
    pa: int,
    size: int,
    attrs: Attributes,
    off: int,
) -> spec_fn(u64) -> (int, u64)
    decreases size - off + 0x1000,
{
    if off >= size {
        s
    } else {
        let leaf = chunk_leaf(va, pa, size, off);
        let desc = leaf_desc((pa + off) as u64, attrs, leaf);
        range_after(
            with_leaf(s, (va + off) as u64, leaf, desc),
            va,
            pa,
            size,
            attrs,
            off + unit(leaf),
        )
    }
}

/// Tables it takes to map the range from `off` on.
pub open spec fn range_need(
    s: spec_fn(u64) -> (int, u64),
    va: int,
    pa: int,
    size: int,
    attrs: Attributes,
    off: int,
) -> int
    decreases size - off + 0x1000,
{
    if off >= size {
        0
    } else {
        let leaf = chunk_leaf(va, pa, size, off);
        let desc = leaf_desc((pa + off) as u64, attrs, leaf);
        missing(s((va + off) as u64), leaf) + range_need(
            with_leaf(s, (va + off) as u64, leaf, desc),
            va,
            pa,
            size,
            attrs,
            off + unit(leaf),
        )
    }
}

/// No larger mapping is in the way of the range from `off` on.
pub open spec fn range_clear(
    s: spec_fn(u64) -> (int, u64),
    va: int,
    pa: int,
    size: int,
    attrs: Attributes,
    off: int,
) -> bool
    decreases size - off + 0x1000,
{
    if off >= size {
        true
    } else {
        let leaf = chunk_leaf(va, pa, size, off);
        let desc = leaf_desc((pa + off) as u64, attrs, leaf);
        !blocked(s((va + off) as u64), leaf) && range_clear(
            with_leaf(s, (va + off) as u64, leaf, desc),
            va,
            pa,
            size,
            attrs,
            off + unit(leaf),
        )
    }
}

/// Nothing at all is mapped where the range goes, from `off` on.
pub open spec fn range_vacant(
    s: spec_fn(u64) -> (int, u64),
    va: int,
    pa: int,
    size: int,
    attrs: Attributes,
    off: int,
) -> bool
    decreases size - off + 0x1000,
{
    if off >= size {
        true
    } else {
        let leaf = chunk_leaf(va, pa, size, off);
        let desc = leaf_desc((pa + off) as u64, attrs, leaf);
        vacant(s((va + off) as u64), leaf) && range_vacant(
            with_leaf(s, (va + off) as u64, leaf, desc),
            va,
            pa,
            size,
            attrs,
            off + unit(leaf),
        )
    }
}

/// The range is page aligned, does not wrap, and fits a descriptor.
pub open spec fn range_ok(va: u64, pa: u64, size: u64, attrs: Attributes) -> bool {
    &&& attrs.clean()
    &&& va % 4096 == 0
    &&& pa % 4096 == 0
    &&& low(va) + frames::round_up(size as int) <= 0x1_0000_0000_0000
    &&& pa + frames::round_up(size as int) <= 0x1_0000_0000_0000
}

/// Is `v` in the first `len` bytes from `va`, as the tables see it?
pub open spec fn within(va: u64, len: int, v: u64) -> bool {
    low(va) <= low(v) < low(va) + len
}

/// The level of the leaf that maps address `v` of the range: a block if the
/// whole 2 MiB around it is in the range and the two sides line up.
pub open spec fn range_leaf(va: u64, pa: u64, size: u64, v: u64) -> int {
    let b = low(v) / 0x20_0000 * 0x20_0000;
    if va % 0x20_0000 == pa % 0x20_0000 && low(va) <= b && b + 0x20_0000 <= low(va) + size {
        2
    } else {
        3
    }
}

/// What a walk finds for address `v` of a range that has been mapped.
pub open spec fn range_stop(va: u64, pa: u64, size: u64, attrs: Attributes, v: u64) -> (int, u64) {
    let leaf = range_leaf(va, pa, size, v);
    let b = low(v) / unit(leaf) * unit(leaf);
    (leaf, leaf_desc((pa + (b - low(va))) as u64, attrs, leaf))
}

/// The same leaf, or no leaf either way.
pub open spec fn same_leaf(s: (int, u64), t: (int, u64)) -> bool {
    s == t || !valid(s.1) && !valid(t.1)
}

/// What mapping a range does.
pub open spec fn range_mapped(
    m1: Memory,
    m2: Memory,
    taken1: Set<int>,
    taken2: Set<int>,
    root: int,
    va: u64,
    pa: u64,
    size: u64,
    attrs: Attributes,
) -> bool {
    let len = frames::round_up(size as int);
    let vacant = range_vacant(walks(m1, root), va as int, pa as int, size as int, attrs, 0);
    let mapped = frames::run(pa as int, len / 4096);
    // Every address of the range has its leaf, and no other walk finds
    // anything it did not find before.
    &&& forall|v: u64|
        within(va, len, v) ==> #[trigger] stop(m2, root, v, 0) == range_stop(va, pa, size, attrs, v)
    &&& forall|v: u64|
        !within(va, len, v) ==> same_leaf(#[trigger] stop(m2, root, v, 0), stop(m1, root, v, 0))
    &&& forall|v: u64| #[trigger]
        stop(m2, root, v, 0) == range_after(
            walks(m1, root),
            va as int,
            pa as int,
            size as int,
            attrs,
            0,
        )(v)
    // Still a tree, grown by exactly the frames that were taken.
    &&& tree(m2, root, 0)
    &&& taken1.subset_of(taken2)
    &&& forall|t: int| #[trigger]
        tables(m2, root, 0).contains(t) ==> tables(m1, root, 0).contains(t) || taken2.contains(t)
            && !taken1.contains(t)
    &&& forall|t: int| #[trigger]
        taken2.contains(t) && !taken1.contains(t) ==> tables(m2, root, 0).contains(t) || !vacant
    &&& vacant ==> tables(m1, root, 0).subset_of(
        tables(m2, root, 0),
    )
    // Nothing outside the tables changed.
    &&& changed_within(m1, m2, tables(m1, root, 0).union(taken2.difference(taken1)))
    // Mapping where nothing was mapped adds the range's frames.
    &&& vacant ==> leaves(m2, root, 0) == leaves(m1, root, 0).union(mapped)
    &&& vacant && private(m1, root, 0) && mapped.disjoint(leaves(m1, root, 0)) ==> private(
        m2,
        root,
        0,
    )
}

/// What walks find when the first `off` bytes of a range are done.
#[verifier::opaque]
spec fn range_walks(
    m0: Memory,
    m1: Memory,
    root: int,
    va: u64,
    pa: u64,
    size: u64,
    attrs: Attributes,
    off: int,
) -> bool {
    &&& forall|v: u64|
        within(va, off, v) ==> #[trigger] stop(m1, root, v, 0) == range_stop(va, pa, size, attrs, v)
    &&& forall|v: u64|
        !within(va, off, v) ==> same_leaf(#[trigger] stop(m1, root, v, 0), stop(m0, root, v, 0))
}

/// What has become of the tables and the frames by then.
#[verifier::opaque]
spec fn range_frames(
    m0: Memory,
    m1: Memory,
    taken0: Set<int>,
    taken1: Set<int>,
    root: int,
    va: u64,
    pa: u64,
    size: u64,
    attrs: Attributes,
    off: int,
) -> bool {
    let s0 = walks(m0, root);
    let s1 = walks(m1, root);
    let vacant = range_vacant(s0, va as int, pa as int, size as int, attrs, 0);
    let whole = frames::run(pa as int, frames::round_up(size as int) / 4096);
    &&& tree(m1, root, 0)
    &&& taken0.subset_of(taken1)
    &&& forall|t: int| #[trigger]
        tables(m1, root, 0).contains(t) ==> tables(m0, root, 0).contains(t) || taken1.contains(t)
            && !taken0.contains(t)
    &&& vacant ==> range_vacant(s1, va as int, pa as int, size as int, attrs, off)
    &&& vacant ==> forall|t: int| #[trigger]
        taken1.contains(t) && !taken0.contains(t) ==> tables(m1, root, 0).contains(t)
    &&& vacant ==> tables(m0, root, 0).subset_of(tables(m1, root, 0))
    &&& changed_within(m0, m1, tables(m0, root, 0).union(taken1.difference(taken0)))
    &&& vacant ==> leaves(m1, root, 0) == leaves(m0, root, 0).union(frames::run(pa as int, off / 4096))
    &&& vacant && private(m0, root, 0) && whole.disjoint(leaves(m0, root, 0)) ==> private(
        m1,
        root,
        0,
    )
}

/// The next chunk of a range goes in: the walks.
#[verifier::spinoff_prover]
#[verifier::rlimit(30)]
proof fn lemma_step_walks(
    m0: Memory,
    m1: Memory,
    m2: Memory,
    taken1: Set<int>,
    taken2: Set<int>,
    root: int,
    va: u64,
    pa: u64,
    size: u64,
    attrs: Attributes,
    off: int,
)
    requires
        range_ok(va, pa, size, attrs),
        0 <= off < size,
        off % 4096 == 0,
        range_walks(m0, m1, root, va, pa, size, attrs, off),
        ({
            let leaf = chunk_leaf(va as int, pa as int, size as int, off);
            let x = (va + off) as u64;
            &&& leaf == range_leaf(va, pa, size, x)
            &&& !blocked(stop(m1, root, x, 0), leaf)
            &&& leaf_mapped(
                m1,
                m2,
                taken1,
                taken2,
                root,
                0,
                x,
                leaf,
                leaf_desc((pa + off) as u64, attrs, leaf),
            )
        }),
    ensures
        range_walks(
            m0,
            m2,
            root,
            va,
            pa,
            size,
            attrs,
            off + unit(chunk_leaf(va as int, pa as int, size as int, off)),
        ),
        ({
            let leaf = chunk_leaf(va as int, pa as int, size as int, off);
            let desc = leaf_desc((pa + off) as u64, attrs, leaf);
            walks(m2, root) == with_leaf(walks(m1, root), (va + off) as u64, leaf, desc)
        }),
{
    reveal(leaf_mapped);
    reveal(range_walks);
    let leaf = chunk_leaf(va as int, pa as int, size as int, off);
    let x = (va + off) as u64;
    let next = off + unit(leaf);
    assert(walks(m2, root) =~= with_leaf(
        walks(m1, root),
        x,
        leaf,
        leaf_desc((pa + off) as u64, attrs, leaf),
    ));
    lemma_low_add(va, off);
    assert(low(x) % unit(leaf) == 0);
    assert(next <= frames::round_up(size as int));
    assert forall|v: u64| within(va, next, v) implies #[trigger] stop(m2, root, v, 0) == range_stop(
        va,
        pa,
        size,
        attrs,
        v,
    ) by {
        lemma_range_walk(m1, root, x, v, leaf, va, off);
        if !within(va, off, v) {
            lemma_range_leaf(va, pa, size, x, v);
            assert(low(v) / unit(leaf) * unit(leaf) == low(x));
        } else {
            assert(stop(m1, root, v, 0) == range_stop(va, pa, size, attrs, v));
            lemma_range_stop(va, pa, size, attrs, v);
        }
    }
    assert forall|v: u64| !within(va, next, v) implies same_leaf(
        #[trigger] stop(m2, root, v, 0),
        stop(m0, root, v, 0),
    ) by {
        lemma_range_walk(m1, root, x, v, leaf, va, off);
        assert(same_leaf(stop(m1, root, v, 0), stop(m0, root, v, 0)));
        lemma_entry_bits(0);
    }
}

/// The next chunk of a range goes in: the tables and the frames.
#[verifier::spinoff_prover]
#[verifier::rlimit(30)]
proof fn lemma_step_frames(
    m0: Memory,
    m1: Memory,
    m2: Memory,
    taken0: Set<int>,
    taken1: Set<int>,
    taken2: Set<int>,
    root: int,
    va: u64,
    pa: u64,
    size: u64,
    attrs: Attributes,
    off: int,
)
    requires
        range_ok(va, pa, size, attrs),
        0 <= off < size,
        off % 4096 == 0,
        range_frames(m0, m1, taken0, taken1, root, va, pa, size, attrs, off),
        ({
            let leaf = chunk_leaf(va as int, pa as int, size as int, off);
            leaf_mapped(
                m1,
                m2,
                taken1,
                taken2,
                root,
                0,
                (va + off) as u64,
                leaf,
                leaf_desc((pa + off) as u64, attrs, leaf),
            )
        }),
    ensures
        range_frames(
            m0,
            m2,
            taken0,
            taken2,
            root,
            va,
            pa,
            size,
            attrs,
            off + unit(chunk_leaf(va as int, pa as int, size as int, off)),
        ),
{
    reveal(leaf_mapped);
    reveal(range_frames);
    let leaf = chunk_leaf(va as int, pa as int, size as int, off);
    let x = (va + off) as u64;
    let desc = leaf_desc((pa + off) as u64, attrs, leaf);
    let next = off + unit(leaf);
    let t0 = tables(m0, root, 0);
    let t1 = tables(m1, root, 0);
    let t2 = tables(m2, root, 0);
    assert forall|t: int| #[trigger] t2.contains(t) implies t0.contains(t) || taken2.contains(t)
        && !taken0.contains(t) by {
        if t1.contains(t) {
            assert(t0.contains(t) || taken1.contains(t));
        }
    }
    assert(changed_within(m0, m2, t0.union(taken2.difference(taken0)))) by {
        assert forall|q: int|
            m0.has(q, 1) && !t0.union(taken2.difference(taken0)).contains(
                frames::round_down(q),
            ) implies #[trigger] m2.byte_at(q) == m0.byte_at(q) by {
            let f = frames::round_down(q);
            assert(!t2.contains(f));
            assert(m2.byte_at(q) == m1.byte_at(q));
            assert(!t0.union(taken1.difference(taken0)).contains(f));
            assert(m1.byte_at(q) == m0.byte_at(q));
        }
    }
    if range_vacant(walks(m0, root), va as int, pa as int, size as int, attrs, 0) {
        lemma_step_leaves(
            m0,
            m1,
            m2,
            taken1,
            taken2,
            root,
            va,
            pa,
            size,
            attrs,
            off,
        );
        assert(t1.subset_of(t2));
    }
}

/// The next chunk of a range goes in where nothing was mapped: the leaves.
#[verifier::spinoff_prover]
proof fn lemma_step_leaves(
    m0: Memory,
    m1: Memory,
    m2: Memory,
    taken1: Set<int>,
    taken2: Set<int>,
    root: int,
    va: u64,
    pa: u64,
    size: u64,
    attrs: Attributes,
    off: int,
)
    requires
        range_ok(va, pa, size, attrs),
        0 <= off < size,
        off % 4096 == 0,
        range_vacant(walks(m1, root), va as int, pa as int, size as int, attrs, off),
        leaves(m1, root, 0) == leaves(m0, root, 0).union(frames::run(pa as int, off / 4096)),
        ({
            let leaf = chunk_leaf(va as int, pa as int, size as int, off);
            leaf_mapped(
                m1,
                m2,
                taken1,
                taken2,
                root,
                0,
                (va + off) as u64,
                leaf,
                leaf_desc((pa + off) as u64, attrs, leaf),
            )
        }),
    ensures
        ({
            let leaf = chunk_leaf(va as int, pa as int, size as int, off);
            let next = off + unit(leaf);
            let whole = frames::run(pa as int, frames::round_up(size as int) / 4096);
            &&& vacant(stop(m1, root, (va + off) as u64, 0), leaf)
            &&& range_vacant(walks(m2, root), va as int, pa as int, size as int, attrs, next)
            &&& leaves(m2, root, 0) == leaves(m0, root, 0).union(frames::run(pa as int, next / 4096))
            &&& private(m1, root, 0) && whole.disjoint(leaves(m0, root, 0)) ==> private(m2, root, 0)
        }),
{
    reveal(leaf_mapped);
    let leaf = chunk_leaf(va as int, pa as int, size as int, off);
    let x = (va + off) as u64;
    let desc = leaf_desc((pa + off) as u64, attrs, leaf);
    let next = off + unit(leaf);
    let s1 = walks(m1, root);
    let mapped = frames::run(pa + off, pages(leaf));
    let l0 = leaves(m0, root, 0);
    let l1 = leaves(m1, root, 0);
    let l2 = leaves(m2, root, 0);
    assert(vacant(s1(x), leaf));
    assert(walks(m2, root) =~= with_leaf(s1, x, leaf, desc));
    assert(out_addr(desc) == pa + off) by {
        assert((pa + off) % 4096 == 0);
        lemma_descriptor((pa + off) as u64, attrs.0);
    }
    lemma_run_split(pa as int, off, leaf, size as int);
    assert(l2 == l1.union(mapped));
    assert(l2 =~= l0.union(frames::run(pa as int, next / 4096)));
    let whole = frames::run(pa as int, frames::round_up(size as int) / 4096);
    if private(m1, root, 0) && whole.disjoint(l0) {
        assert(next <= frames::round_up(size as int));
        assert(mapped.disjoint(l1));
        assert((pa + off) % 4096 == 0);
        assert(out_addr(desc) % (pages(leaf) * 4096) == 0);
    }
}

proof fn lemma_run_split(pa: int, off: int, leaf: int, size: int)
    requires
        leaf == 2 || leaf == 3,
        0 <= off,
        off % 4096 == 0,
    ensures
        frames::run(pa, off / 4096).union(frames::run(pa + off, pages(leaf))) == frames::run(
            pa,
            (off + unit(leaf)) / 4096,
        ),
        frames::run(pa, off / 4096).disjoint(frames::run(pa + off, pages(leaf))),
        off + unit(leaf) <= frames::round_up(size) ==> frames::run(pa + off, pages(leaf)).subset_of(
            frames::run(pa, frames::round_up(size) / 4096),
        ),
{
    let next = off + unit(leaf);
    assert(off / 4096 * 4096 == off && next / 4096 * 4096 == next);
    assert(frames::run(pa, off / 4096).union(frames::run(pa + off, pages(leaf))) =~= frames::run(pa, next / 4096));
}

/// What putting the leaf for `x` in does to the walk for `v`.
proof fn lemma_range_walk(m: Memory, root: int, x: u64, v: u64, leaf: int, va: u64, off: int)
    requires
        leaf == 2 || leaf == 3,
        0 <= off,
        low(x) == low(va) + off,
        low(x) % unit(leaf) == 0,
        !blocked(stop(m, root, x, 0), leaf),
    ensures
        (split(x, v, 0, leaf) > leaf) == (low(x) / unit(leaf) == low(v) / unit(leaf)),
        split(x, v, 0, leaf) <= leaf && stop(m, root, v, 0).0 < split(x, v, 0, leaf) ==> !valid(
            stop(m, root, v, 0).1,
        ),
        within(va, off, v) ==> low(x) / unit(leaf) != low(v) / unit(leaf),
        within(va, off + unit(leaf), v) && !within(va, off, v) ==> low(x) / unit(leaf) == low(v)
            / unit(leaf),
{
    lemma_split_unit(x, v, leaf);
    if stop(m, root, v, 0).0 < split(x, v, 0, leaf) {
        lemma_coherent(m, root, x, v, 0, leaf);
    }
}

/// Addresses in one leaf of a range have that leaf in common.
proof fn lemma_range_leaf(va: u64, pa: u64, size: u64, x: u64, v: u64)
    requires
        va % 4096 == 0,
        low(x) / unit(range_leaf(va, pa, size, x)) == low(v) / unit(range_leaf(va, pa, size, x)),
    ensures
        range_leaf(va, pa, size, v) == range_leaf(va, pa, size, x),
{
}

/// A range's leaves are valid.
#[verifier::spinoff_prover]
proof fn lemma_range_stop(va: u64, pa: u64, size: u64, attrs: Attributes, v: u64)
    requires
        range_ok(va, pa, size, attrs),
        within(va, frames::round_up(size as int), v),
    ensures
        valid(range_stop(va, pa, size, attrs, v).1),
{
    let leaf = range_leaf(va, pa, size, v);
    let b = low(v) / unit(leaf) * unit(leaf);
    assert(low(va) <= b);
    assert((pa + (b - low(va))) % 4096 == 0);
    lemma_descriptor((pa + (b - low(va))) as u64, attrs.0);
}

/// Is `off` bytes into a range a place where a leaf starts?
spec fn at_leaf(va: u64, pa: u64, size: u64, off: int) -> bool {
    let x = (va + off) as u64;
    off < size && range_leaf(va, pa, size, x) == 2 ==> low(x) % 0x20_0000 == 0
}

/// Taking the chunks in order visits every leaf of the range at its start.
#[verifier::spinoff_prover]
proof fn lemma_chunk(va: u64, pa: u64, size: u64, attrs: Attributes, off: int)
    requires
        range_ok(va, pa, size, attrs),
        0 <= off < size,
        off % 4096 == 0,
        at_leaf(va, pa, size, off),
    ensures
        chunk_leaf(va as int, pa as int, size as int, off) == range_leaf(
            va,
            pa,
            size,
            (va + off) as u64,
        ),
        at_leaf(
            va,
            pa,
            size,
            off + unit(chunk_leaf(va as int, pa as int, size as int, off)),
        ),
        off + unit(chunk_leaf(va as int, pa as int, size as int, off)) <= frames::round_up(
            size as int,
        ),
        (off + unit(chunk_leaf(va as int, pa as int, size as int, off))) % 4096 == 0,
{
    let x = (va + off) as u64;
    let leaf = chunk_leaf(va as int, pa as int, size as int, off);
    let next = off + unit(leaf);
    assert(next <= frames::round_up(size as int) && next % 4096 == 0);
    lemma_low_add(va, 0);
    lemma_low_add(va, off);
    lemma_chunk_block(low(va), pa as int, size as int, off);
    assert(leaf == range_leaf(va, pa, size, x)) by {
        if low(x) % 0x20_0000 != 0 {
            assert(range_leaf(va, pa, size, x) != 2);
        }
    }
    if next < size {
        let y = (va + next) as u64;
        lemma_low_add(va, next);
        if leaf == 3 && low(y) % 0x20_0000 != 0 {
            assert(low(y) / 0x20_0000 == low(x) / 0x20_0000);
        }
    }
}

proof fn lemma_low_add(va: u64, k: int)
    requires
        0 <= k,
        low(va) + k < 0x1_0000_0000_0000,
    ensures
        0 <= va + k <= u64::MAX,
        low((va + k) as u64) == low(va) + k,
        (va + k) % 0x20_0000 == (low(va) + k) % 0x20_0000,
{
    let h = va as int / 0x1_0000_0000_0000;
    let w = low(va) + k;
    lemma_fundamental_div_mod(va as int, 0x1_0000_0000_0000);
    lemma_fundamental_div_mod_converse(va + k, 0x1_0000_0000_0000, h, w);
    lemma_fundamental_div_mod(w, 0x20_0000);
    let q = 0x800_0000 * h + w / 0x20_0000;
    lemma_fundamental_div_mod_converse(va + k, 0x20_0000, q, w % 0x20_0000);
}

/// A block fits `off` bytes into a range, and starts there, exactly when the
/// 2 MiB around that place is in the range and the two sides line up.
proof fn lemma_chunk_block(va: int, pa: int, size: int, off: int)
    requires
        0 <= va,
        0 <= off,
    ensures
        ({
            let w = va + off;
            let b = w / 0x20_0000 * 0x20_0000;
            w % 0x20_0000 == 0 ==> (size - off >= 0x20_0000 && (pa + off) % 0x20_0000 == 0) == (va
                % 0x20_0000 == pa % 0x20_0000 && va <= b && b + 0x20_0000 <= va + size)
        }),
{
    let w = va + off;
    if w % 0x20_0000 == 0 {
        assert(w / 0x20_0000 * 0x20_0000 == w);
        assert(pa + off == (pa - va) + w);
        assert(((pa + off) % 0x20_0000 == 0) == ((pa - va) % 0x20_0000 == 0));
        assert(((pa - va) % 0x20_0000 == 0) == (va % 0x20_0000 == pa % 0x20_0000));
    }
}

/// Map `size` bytes, using 2 MiB blocks wherever alignment allows.
#[verifier::spinoff_prover]
#[verifier::rlimit(40)]
pub fn map_range(
    a: &mut Allocator,
    memory: &mut Memory,
    root: Frame,
    va: u64,
    pa: u64,
    size: u64,
    attrs: Attributes,
)
    requires
        machine(old(a), old(memory)),
        tree(*old(memory), root.0 as int, 0),
        tables(*old(memory), root.0 as int, 0).subset_of(old(a).taken()),
        range_ok(va, pa, size, attrs),
        range_clear(
            walks(*old(memory), root.0 as int),
            va as int,
            pa as int,
            size as int,
            attrs,
            0,
        ),
        range_need(
            walks(*old(memory), root.0 as int),
            va as int,
            pa as int,
            size as int,
            attrs,
            0,
        ) <= old(a).free_count(),
    ensures
        machine(final(a), final(memory)),
        final(a).same_machine(old(a)),
        final(a).packed(old(a)),
        final(a).free_count() == old(a).free_count() - range_need(
            walks(*old(memory), root.0 as int),
            va as int,
            pa as int,
            size as int,
            attrs,
            0,
        ),
        range_mapped(
            *old(memory),
            *final(memory),
            old(a).taken(),
            final(a).taken(),
            root.0 as int,
            va,
            pa,
            size,
            attrs,
        ),
{
    let ghost m0 = *memory;
    let ghost taken0 = a.taken();
    let ghost free0 = a.free_count();
    let ghost r = root.0 as int;
    let ghost (gva, gpa, gsize) = (va as int, pa as int, size as int);
    let ghost need0 = range_need(walks(m0, r), gva, gpa, gsize, attrs, 0);
    let mut offset: u64 = 0;
    proof {
        reveal(range_walks);
        reveal(range_frames);
        assert(leaves(m0, r, 0).union(frames::run(gpa, 0)) =~= leaves(m0, r, 0));
        assert(at_leaf(va, pa, size, 0));
    }
    while offset < size
        invariant
            machine(a, memory),
            a.same_machine(old(a)),
            a.packed(old(a)),
            r == root.0,
            gva == va,
            gpa == pa,
            gsize == size,
            offset <= frames::round_up(gsize),
            offset % 4096 == 0,
            range_ok(va, pa, size, attrs),
            at_leaf(va, pa, size, offset as int),
            tables(m0, r, 0).subset_of(taken0),
            range_walks(m0, *memory, r, va, pa, size, attrs, offset as int),
            range_frames(m0, *memory, taken0, a.taken(), r, va, pa, size, attrs, offset as int),
            range_after(walks(m0, r), gva, gpa, gsize, attrs, 0) == range_after(
                walks(*memory, r),
                gva,
                gpa,
                gsize,
                attrs,
                offset as int,
            ),
            range_clear(walks(*memory, r), gva, gpa, gsize, attrs, offset as int),
            range_need(walks(*memory, r), gva, gpa, gsize, attrs, offset as int)
                <= a.free_count(),
            a.free_count() - range_need(
                walks(*memory, r),
                gva,
                gpa,
                gsize,
                attrs,
                offset as int,
            ) == free0 - need0,
        decreases size - offset + 0x1000,
    {
        let remaining: u64 = size - offset;
        let at_va: u64 = va + offset;
        let at_pa: u64 = pa + offset;
        let ghost m1 = *memory;
        let ghost a1 = *a;
        let ghost taken1 = a.taken();
        let ghost off = offset as int;
        let ghost leaf = chunk_leaf(gva, gpa, gsize, off);
        let ghost desc = leaf_desc(at_pa, attrs, leaf);
        proof {
            lemma_chunk(va, pa, size, attrs, off);
            assert(walks(m1, r)(at_va) == stop(m1, r, at_va, 0));
            lemma_need(
                with_leaf(walks(m1, r), at_va, leaf, desc),
                gva,
                gpa,
                gsize,
                attrs,
                off + unit(leaf),
            );
            lemma_range_tables(m0, m1, taken0, taken1, r, va, pa, size, attrs, off);
        }
        if remaining >= BLOCK_2MIB && at_va % BLOCK_2MIB == 0 && at_pa % BLOCK_2MIB == 0 {
            map_block(a, memory, root, at_va, at_pa, attrs);
            offset += BLOCK_2MIB;
        } else {
            map_page(a, memory, root, at_va, at_pa, attrs);
            offset += PAGE_SIZE;
        }
        proof {
            a.lemma_packed(&a1, old(a));
            lemma_step_walks(
                m0,
                m1,
                *memory,
                taken1,
                a.taken(),
                r,
                va,
                pa,
                size,
                attrs,
                off,
            );
            lemma_step_frames(
                m0,
                m1,
                *memory,
                taken0,
                taken1,
                a.taken(),
                r,
                va,
                pa,
                size,
                attrs,
                off,
            );
        }
    }
    proof {
        reveal(range_walks);
        reveal(range_frames);
        assert(offset == frames::round_up(gsize));
        assert forall|v: u64| #[trigger] stop(*memory, r, v, 0) == range_after(
            walks(m0, r),
            gva,
            gpa,
            gsize,
            attrs,
            0,
        )(v) by {
            assert(walks(*memory, r)(v) == stop(*memory, r, v, 0));
        }
    }
}

/// Part way through a range, the tables are a tree of taken frames.
proof fn lemma_range_tables(
    m0: Memory,
    m1: Memory,
    taken0: Set<int>,
    taken1: Set<int>,
    root: int,
    va: u64,
    pa: u64,
    size: u64,
    attrs: Attributes,
    off: int,
)
    requires
        tables(m0, root, 0).subset_of(taken0),
        range_frames(m0, m1, taken0, taken1, root, va, pa, size, attrs, off),
    ensures
        tree(m1, root, 0),
        tables(m1, root, 0).subset_of(taken1),
{
    reveal(range_frames);
}

/// Mapping a range never needs a negative number of tables.
proof fn lemma_need(
    s: spec_fn(u64) -> (int, u64),
    va: int,
    pa: int,
    size: int,
    attrs: Attributes,
    off: int,
)
    ensures
        range_need(s, va, pa, size, attrs, off) >= 0,
    decreases size - off + 0x1000,
{
    if off < size {
        let leaf = chunk_leaf(va, pa, size, off);
        let desc = leaf_desc((pa + off) as u64, attrs, leaf);
        lemma_need(
            with_leaf(s, (va + off) as u64, leaf, desc),
            va,
            pa,
            size,
            attrs,
            off + unit(leaf),
        );
    }
}

// ---------------------------------------------------------------------------
// Reading tables.
// ---------------------------------------------------------------------------

/// Any address at all can be walked through this root.
pub open spec fn sound(m: Memory, root: int) -> bool {
    forall|va: u64| #[trigger] walkable(m, root, va, 0)
}

proof fn lemma_walkable(m: Memory, table: int, va: u64, level: int)
    requires
        tree(m, table, level),
    ensures
        walkable(m, table, va, level),
    decreases 4 - level,
{
    let e = entry(m, table, index(va, level));
    lemma_index(va, level);
    if descends(e, level) {
        lemma_walkable(m, out_addr(e), va, level + 1);
    }
}

/// A tree of tables can be walked for any address.
pub proof fn lemma_sound(m: Memory, root: int)
    requires
        tree(m, root, 0),
    ensures
        sound(m, root),
{
    assert forall|va: u64| #[trigger] walkable(m, root, va, 0) by {
        lemma_walkable(m, root, va, 0);
    }
}

/// The leaf a walk found, if it found one.
pub open spec fn found(s: (int, u64)) -> Option<u64> {
    if valid(s.1) {
        Some(s.1)
    } else {
        None
    }
}

/// The physical address `va` stands for, if a walk for it ended at `s`.
///
/// The offset is taken within whatever the leaf covers. A level 0 descriptor
/// cannot be a leaf.
pub open spec fn translation(s: (int, u64), va: u64) -> Option<int> {
    if !valid(s.1) || s.0 <= 0 {
        None
    } else if s.0 == 1 {
        Some(out_addr(s.1) / 0x4000_0000 * 0x4000_0000 + va as int % 0x4000_0000)
    } else if s.0 == 2 {
        Some(out_addr(s.1) / 0x20_0000 * 0x20_0000 + va as int % 0x20_0000)
    } else {
        Some(out_addr(s.1) + va as int % 0x1000)
    }
}

/// Does the leaf let EL0 read, or write, what it maps?
pub open spec fn permits(s: (int, u64), write: bool) -> bool {
    valid(s.1) && (access(s.1) == AP_RW_ALL || !write && access(s.1) == AP_RO_ALL)
}

/// Could EL0 read, or write, every one of `len` bytes from `va`?
pub open spec fn user_may(m: Memory, root: int, va: u64, len: u64, write: bool) -> bool {
    len == 0 || va + len <= LOW_HALF_END && forall|v: u64|
        va <= v < va + len ==> permits(#[trigger] stop(m, root, v, 0), write)
}

/// Addresses in one page are walked alike.
pub proof fn lemma_same_page(m: Memory, root: int, x: u64, v: u64)
    requires
        x / 4096 == v / 4096,
    ensures
        stop(m, root, x, 0) == stop(m, root, v, 0),
        match translation(stop(m, root, x, 0), x) {
            Some(pa) => translation(stop(m, root, v, 0), v) == Some(pa + v - x),
            None => translation(stop(m, root, v, 0), v) is None,
        },
{
    lemma_page_parts(x);
    lemma_page_parts(v);
    lemma_split_unit(x, v, 3);
    lemma_stop_level(m, root, v, 0);
    lemma_coherent(m, root, x, v, 0, 3);
}

/// Everything about an address but its offset in its page depends on the page
/// alone.
proof fn lemma_page_parts(x: u64)
    ensures
        low(x) / 0x1000 == x as int / 0x1000 % 0x10_0000_0000,
        x as int % 0x20_0000 == x as int / 0x1000 % 0x200 * 0x1000 + x as int % 0x1000,
        x as int % 0x4000_0000 == x as int / 0x1000 % 0x4_0000 * 0x1000 + x as int % 0x1000,
        x as int == x as int / 0x1000 * 0x1000 + x as int % 0x1000,
{
    let v = x as int;
    let p = v / 0x1000;
    let r = v % 0x1000;
    lemma_fundamental_div_mod(v, 0x1000);
    lemma_fundamental_div_mod(p, 0x200);
    lemma_fundamental_div_mod(p, 0x4_0000);
    lemma_fundamental_div_mod(p, 0x10_0000_0000);
    lemma_fundamental_div_mod_converse(v, 0x20_0000, p / 0x200, p % 0x200 * 0x1000 + r);
    lemma_fundamental_div_mod_converse(v, 0x4000_0000, p / 0x4_0000, p % 0x4_0000 * 0x1000 + r);
    let w = p % 0x10_0000_0000 * 0x1000 + r;
    lemma_fundamental_div_mod_converse(v, 0x1_0000_0000_0000, p / 0x10_0000_0000, w);
    lemma_fundamental_div_mod_converse(w, 0x1000, p % 0x10_0000_0000, r);
}

/// Walk `root` for `va` and return the leaf descriptor, if the address maps to
/// anything at all.
///
/// Stops early on a block descriptor, which is a leaf rather than a pointer to
/// another table.
pub fn lookup(memory: &Memory, root: Frame, va: u64) -> (r: Option<u64>)
    requires
        memory.wf(),
        walkable(*memory, root.0 as int, va, 0),
    ensures
        r == found(stop(*memory, root.0 as int, va, 0)),
{
    let mut table = root;
    let mut level: usize = 0;
    while level < 3
        invariant
            level <= 3,
            memory.wf(),
            walkable(*memory, table.0 as int, va, level as int),
            stop(*memory, root.0 as int, va, 0) == stop(*memory, table.0 as int, va, level as int),
        decreases 3 - level,
    {
        let entry: u64 = read_entry(memory, table, table_index(va, level));
        if entry & VALID == 0 {
            return None;
        }
        if entry & TABLE_OR_PAGE == 0 {
            return Some(entry);
        }
        proof {
            lemma_entry_bits(entry);
        }
        table = Frame::from_addr(entry & ADDR_MASK);
        level += 1;
    }
    let entry: u64 = read_entry(memory, table, table_index(va, 3));
    if entry & VALID != 0 {
        Some(entry)
    } else {
        None
    }
}

proof fn lemma_offset_bits(e: u64, va: u64)
    by (bit_vector)
    ensures
        (e & 0x0000_ffff_ffff_f000 & !0x3fff_ffffu64) | (va & 0x3fff_ffff) == (e
            & 0x0000_ffff_ffff_f000) / 0x4000_0000 * 0x4000_0000 + va % 0x4000_0000,
        (e & 0x0000_ffff_ffff_f000 & !0x1f_ffffu64) | (va & 0x1f_ffff) == (e
            & 0x0000_ffff_ffff_f000) / 0x20_0000 * 0x20_0000 + va % 0x20_0000,
        (e & 0x0000_ffff_ffff_f000) | (va & 0xfff) == (e & 0x0000_ffff_ffff_f000) + va % 0x1000,
{
}

/// Virtual to physical through `root`, or `None` if nothing is mapped.
///
/// Tracks the level it stopped at rather than reusing `lookup`, because a
/// block's address field is aligned to the block rather than to a page.
pub fn translate(memory: &Memory, root: Frame, va: u64) -> (r: Option<u64>)
    requires
        memory.wf(),
        walkable(*memory, root.0 as int, va, 0),
    ensures
        match r {
            Some(pa) => translation(stop(*memory, root.0 as int, va, 0), va) == Some(pa as int),
            None => translation(stop(*memory, root.0 as int, va, 0), va) is None,
        },
{
    let mut table = root;
    let mut level: usize = 0;
    while level < 3
        invariant
            level <= 3,
            memory.wf(),
            walkable(*memory, table.0 as int, va, level as int),
            stop(*memory, root.0 as int, va, 0) == stop(*memory, table.0 as int, va, level as int),
        decreases 3 - level,
    {
        let entry: u64 = read_entry(memory, table, table_index(va, level));
        proof {
            lemma_entry_bits(entry);
            lemma_offset_bits(entry, va);
        }
        if entry & VALID == 0 {
            return None;
        }
        if entry & TABLE_OR_PAGE == 0 {
            // Only levels 1 and 2 may hold blocks with a 4 KiB granule, at
            // 1 GiB and 2 MiB respectively.
            if level == 1 {
                return Some((entry & ADDR_MASK & !0x3fff_ffffu64) | (va & 0x3fff_ffff));
            }
            if level == 2 {
                return Some((entry & ADDR_MASK & !0x1f_ffffu64) | (va & 0x1f_ffff));
            }
            return None;
        }
        table = Frame::from_addr(entry & ADDR_MASK);
        level += 1;
    }
    let entry: u64 = read_entry(memory, table, table_index(va, 3));
    proof {
        lemma_offset_bits(entry, va);
    }
    if entry & VALID != 0 {
        Some((entry & ADDR_MASK) | (va & 0xfff))
    } else {
        None
    }
}

/// Shared walk behind the two permission checks.
fn user_range(memory: &Memory, root: Frame, va: u64, len: u64, write: bool) -> (r: bool)
    requires
        memory.wf(),
        sound(*memory, root.0 as int),
    ensures
        r == user_may(*memory, root.0 as int, va, len, write),
{
    if len == 0 {
        return true;
    }
    // Reject what would reach past the low half before doing arithmetic that
    // could wrap.
    let end: u64 = match va.checked_add(len) {
        Some(end) => end,
        None => {
            return false;
        },
    };
    if end > LOW_HALF_END {
        return false;
    }
    let ghost m = *memory;
    let ghost r = root.0 as int;
    let mut page: u64 = va - va % PAGE_SIZE;
    while page < end
        invariant
            m == *memory,
            r == root.0,
            memory.wf(),
            sound(m, r),
            len > 0,
            end == va + len <= LOW_HALF_END,
            page % 4096 == 0,
            page < end + 4096,
            va / 4096 * 4096 <= page,
            forall|v: u64|
                va <= v < page && v < end ==> permits(#[trigger] stop(m, r, v, 0), write),
        decreases end + 4096 - page,
    {
        // The byte of this page that the range is about.
        let ghost b = if page < va {
            va
        } else {
            page
        };
        proof {
            lemma_same_page(m, r, page, b);
            assert(walkable(m, r, page, 0));
        }
        let entry: u64 = match lookup(memory, root, page) {
            Some(entry) => entry,
            None => {
                assert(!permits(stop(m, r, b, 0), write));
                return false;
            },
        };
        let ap: u64 = (entry >> AP_SHIFT) & 0b11;
        if !(ap == AP_RW_ALL || (!write && ap == AP_RO_ALL)) {
            assert(!permits(stop(m, r, b, 0), write));
            return false;
        }
        proof {
            assert forall|v: u64| va <= v < page + 4096 && v < end implies permits(
                #[trigger] stop(m, r, v, 0),
                write,
            ) by {
                if v >= page {
                    lemma_same_page(m, r, page, v);
                }
            }
        }
        page += PAGE_SIZE;
    }
    true
}

/// Could EL0 read every byte of `va..va + len` through `root`?
///
/// Not the same question as whether the kernel can: the answer comes from the
/// access permission bits in the task's own tables.
pub fn user_readable(memory: &Memory, root: Frame, va: u64, len: u64) -> (r: bool)
    requires
        memory.wf(),
        sound(*memory, root.0 as int),
    ensures
        r == user_may(*memory, root.0 as int, va, len, false),
{
    user_range(memory, root, va, len, false)
}

/// Could EL0 write every byte of `va..va + len` through `root`?
///
/// Read-only user memory is refused here even though it passes the read
/// check.
pub fn user_writable(memory: &Memory, root: Frame, va: u64, len: u64) -> (r: bool)
    requires
        memory.wf(),
        sound(*memory, root.0 as int),
    ensures
        r == user_may(*memory, root.0 as int, va, len, true),
{
    user_range(memory, root, va, len, true)
}

// ---------------------------------------------------------------------------
// Copying between address spaces.
// ---------------------------------------------------------------------------

/// Physical address of the byte `k` past `va`, through `root`.
pub open spec fn byte_of(m: Memory, root: int, va: u64, k: int) -> Option<int> {
    let v = (va + k) as u64;
    translation(stop(m, root, v, 0), v)
}

/// Both sides of a copy are mapped for the first `n` bytes.
pub open spec fn both_mapped(
    m: Memory,
    src_root: int,
    src_va: u64,
    dst_root: int,
    dst_va: u64,
    n: int,
) -> bool {
    forall|k: int|
        #![trigger byte_of(m, src_root, src_va, k)]
        #![trigger byte_of(m, dst_root, dst_va, k)]
        0 <= k < n ==> byte_of(m, src_root, src_va, k) is Some && byte_of(
            m,
            dst_root,
            dst_va,
            k,
        ) is Some
}

/// The two sides of a copy are apart: what is written is neither read, nor a
/// translation table of either side, nor written twice.
pub open spec fn copy_apart(
    m: Memory,
    src_root: int,
    src_va: u64,
    dst_root: int,
    dst_va: u64,
    len: int,
) -> bool {
    &&& forall|k: int|
        #![trigger byte_of(m, src_root, src_va, k)]
        0 <= k < len ==> match byte_of(m, src_root, src_va, k) {
            Some(pa) => m.has(pa, 1),
            None => true,
        }
    &&& forall|k: int|
        #![trigger byte_of(m, dst_root, dst_va, k)]
        0 <= k < len ==> match byte_of(m, dst_root, dst_va, k) {
            Some(pa) => {
                &&& m.has(pa, 1)
                &&& !tables(m, src_root, 0).contains(frames::round_down(pa))
                &&& !tables(m, dst_root, 0).contains(frames::round_down(pa))
            },
            None => true,
        }
    &&& forall|j: int, k: int|
        0 <= j < len && 0 <= k < len ==> match (
            #[trigger] byte_of(m, src_root, src_va, j),
            #[trigger] byte_of(m, dst_root, dst_va, k),
        ) {
            (Some(from), Some(to)) => from != to,
            _ => true,
        }
    &&& forall|j: int, k: int|
        0 <= j < k < len ==> match (
            #[trigger] byte_of(m, dst_root, dst_va, j),
            #[trigger] byte_of(m, dst_root, dst_va, k),
        ) {
            (Some(one), Some(two)) => one != two,
            _ => true,
        }
}

/// The first `n` bytes have been copied, and nothing else has changed.
pub open spec fn copied(
    m1: Memory,
    m2: Memory,
    src_root: int,
    src_va: u64,
    dst_root: int,
    dst_va: u64,
    n: int,
) -> bool {
    &&& m1.same_window(&m2)
    &&& forall|k: int|
        0 <= k < n ==> m2.byte_at((#[trigger] byte_of(m1, dst_root, dst_va, k))->0) == m1.byte_at(
            byte_of(m1, src_root, src_va, k)->0,
        )
    &&& forall|pa: int|
        m1.has(pa, 1) && (forall|k: int|
            0 <= k < n ==> #[trigger] byte_of(m1, dst_root, dst_va, k) != Some(pa))
            ==> #[trigger] m2.byte_at(pa) == m1.byte_at(pa)
}

/// Copy `len` bytes from one address space into another.
///
/// Walks both spaces per chunk, so the two sides need not sit at the same
/// offset in their pages. Stops and returns false at the first byte that is
/// unmapped on either side.
#[verifier::spinoff_prover]
#[verifier::rlimit(40)]
pub fn copy_across(
    memory: &mut Memory,
    src_root: Frame,
    src_va: u64,
    dst_root: Frame,
    dst_va: u64,
    len: u64,
) -> (r: bool)
    requires
        old(memory).wf(),
        tree(*old(memory), src_root.0 as int, 0),
        tree(*old(memory), dst_root.0 as int, 0),
        src_va + len <= u64::MAX,
        dst_va + len <= u64::MAX,
        copy_apart(
            *old(memory),
            src_root.0 as int,
            src_va,
            dst_root.0 as int,
            dst_va,
            len as int,
        ),
    ensures
        final(memory).wf(),
        r == both_mapped(
            *old(memory),
            src_root.0 as int,
            src_va,
            dst_root.0 as int,
            dst_va,
            len as int,
        ),
        exists|n: int|
            {
                &&& 0 <= n <= len
                &&& #[trigger] both_mapped(
                    *old(memory),
                    src_root.0 as int,
                    src_va,
                    dst_root.0 as int,
                    dst_va,
                    n,
                )
                &&& n < len ==> !both_mapped(
                    *old(memory),
                    src_root.0 as int,
                    src_va,
                    dst_root.0 as int,
                    dst_va,
                    n + 1,
                )
                &&& copied(
                    *old(memory),
                    *final(memory),
                    src_root.0 as int,
                    src_va,
                    dst_root.0 as int,
                    dst_va,
                    n,
                )
            },
{
    let ghost m0 = *memory;
    let ghost s = src_root.0 as int;
    let ghost d = dst_root.0 as int;
    let mut done: u64 = 0;
    while done < len
        invariant
            done <= len,
            s == src_root.0,
            d == dst_root.0,
            memory.wf(),
            m0 == *old(memory),
            tree(m0, s, 0),
            tree(m0, d, 0),
            src_va + len <= u64::MAX,
            dst_va + len <= u64::MAX,
            copy_apart(m0, s, src_va, d, dst_va, len as int),
            both_mapped(m0, s, src_va, d, dst_va, done as int),
            copied(m0, *memory, s, src_va, d, dst_va, done as int),
        decreases len - done,
    {
        let src: u64 = src_va + done;
        let dst: u64 = dst_va + done;
        let ghost m1 = *memory;
        proof {
            lemma_copy_walks(m0, m1, s, src_va, d, dst_va, done as int, len as int);
            assert(byte_of(m0, s, src_va, done as int) == translation(stop(m0, s, src, 0), src));
            assert(byte_of(m0, d, dst_va, done as int) == translation(stop(m0, d, dst, 0), dst));
        }
        let src_pa: u64 = match translate(memory, src_root, src) {
            Some(pa) => pa,
            None => {
                assert(!both_mapped(m0, s, src_va, d, dst_va, done + 1));
                return false;
            },
        };
        let dst_pa: u64 = match translate(memory, dst_root, dst) {
            Some(pa) => pa,
            None => {
                assert(!both_mapped(m0, s, src_va, d, dst_va, done + 1));
                return false;
            },
        };
        // Stop at whichever page boundary comes first. The two buffers can sit
        // at different offsets within their pages, so neither side's boundary
        // can be assumed to be the limit.
        let src_left: u64 = PAGE_SIZE - src % PAGE_SIZE;
        let dst_left: u64 = PAGE_SIZE - dst % PAGE_SIZE;
        let mut chunk: u64 = len - done;
        if src_left < chunk {
            chunk = src_left;
        }
        if dst_left < chunk {
            chunk = dst_left;
        }
        proof {
            lemma_copy_chunk(
                m0,
                s,
                src_va,
                d,
                dst_va,
                len as int,
                done as int,
                chunk as int,
                src_pa as int,
                dst_pa as int,
            );
        }
        memory.copy(src_pa, dst_pa, chunk as usize);
        proof {
            lemma_copy_step(
                m0,
                m1,
                *memory,
                s,
                src_va,
                d,
                dst_va,
                len as int,
                done as int,
                chunk as int,
                src_pa as int,
                dst_pa as int,
            );
        }
        done += chunk;
    }
    true
}

/// Part way through a copy, both sides are still mapped as they were.
proof fn lemma_copy_walks(
    m0: Memory,
    m1: Memory,
    s: int,
    src_va: u64,
    d: int,
    dst_va: u64,
    n: int,
    len: int,
)
    requires
        0 <= n <= len,
        tree(m0, s, 0),
        tree(m0, d, 0),
        copy_apart(m0, s, src_va, d, dst_va, len),
        copied(m0, m1, s, src_va, d, dst_va, n),
    ensures
        forall|v: u64| #[trigger] stop(m1, s, v, 0) == stop(m0, s, v, 0),
        forall|v: u64| #[trigger] stop(m1, d, v, 0) == stop(m0, d, v, 0),
        sound(m1, s),
        sound(m1, d),
{
    assert forall|t: int| tables(m0, s, 0).contains(t) || tables(m0, d, 0).contains(
        t,
    ) implies #[trigger] m0.agrees(&m1, t, t + 4096) by {
        lemma_tables_proper(m0, s, 0);
        lemma_tables_proper(m0, d, 0);
        assert forall|pa: int| t <= pa < t + 4096 && m0.has(pa, 1) implies #[trigger] m0.byte_at(pa)
            == m1.byte_at(pa) by {
            assert(frames::round_down(pa) == t);
            assert forall|k: int| 0 <= k < n implies #[trigger] byte_of(m0, d, dst_va, k) != Some(
                pa,
            ) by {}
            assert(m1.byte_at(pa) == m0.byte_at(pa));
        }
    }
    lemma_frame(m0, m1, s, 0);
    lemma_frame(m0, m1, d, 0);
    lemma_sound(m1, s);
    lemma_sound(m1, d);
}

/// Within a chunk both sides run on from where they start.
proof fn lemma_copy_chunk(
    m: Memory,
    s: int,
    src_va: u64,
    d: int,
    dst_va: u64,
    len: int,
    done: int,
    chunk: int,
    src_pa: int,
    dst_pa: int,
)
    requires
        0 <= done,
        0 < chunk,
        done + chunk <= len,
        src_va + len <= u64::MAX,
        dst_va + len <= u64::MAX,
        (src_va + done) % 4096 + chunk <= 4096,
        (dst_va + done) % 4096 + chunk <= 4096,
        copy_apart(m, s, src_va, d, dst_va, len),
        byte_of(m, s, src_va, done) == Some(src_pa),
        byte_of(m, d, dst_va, done) == Some(dst_pa),
    ensures
        forall|k: int|
            done <= k < done + chunk ==> #[trigger] byte_of(m, s, src_va, k) == Some(
                src_pa + (k - done),
            ),
        forall|k: int|
            done <= k < done + chunk ==> #[trigger] byte_of(m, d, dst_va, k) == Some(
                dst_pa + (k - done),
            ),
        m.has(src_pa, chunk),
        m.has(dst_pa, chunk),
        src_pa + chunk <= dst_pa || dst_pa + chunk <= src_pa,
{
    assert forall|k: int| done <= k < done + chunk implies #[trigger] byte_of(m, s, src_va, k)
        == Some(src_pa + (k - done)) by {
        lemma_same_page(m, s, (src_va + done) as u64, (src_va + k) as u64);
    }
    assert forall|k: int| done <= k < done + chunk implies #[trigger] byte_of(m, d, dst_va, k)
        == Some(dst_pa + (k - done)) by {
        lemma_same_page(m, d, (dst_va + done) as u64, (dst_va + k) as u64);
    }
    let last = done + chunk - 1;
    assert(byte_of(m, s, src_va, last) == Some(src_pa + (last - done)));
    assert(byte_of(m, d, dst_va, last) == Some(dst_pa + (last - done)));
    if src_pa <= dst_pa < src_pa + chunk {
        let j = done + (dst_pa - src_pa);
        assert(byte_of(m, s, src_va, j) == Some(src_pa + (j - done)));
        assert(byte_of(m, d, dst_va, done) == Some(dst_pa));
    }
    if dst_pa <= src_pa < dst_pa + chunk {
        let j = done + (src_pa - dst_pa);
        assert(byte_of(m, d, dst_va, j) == Some(dst_pa + (j - done)));
        assert(byte_of(m, s, src_va, done) == Some(src_pa));
    }
}

/// One more chunk has been copied.
#[verifier::spinoff_prover]
proof fn lemma_copy_step(
    m0: Memory,
    m1: Memory,
    m2: Memory,
    s: int,
    src_va: u64,
    d: int,
    dst_va: u64,
    len: int,
    done: int,
    chunk: int,
    src_pa: int,
    dst_pa: int,
)
    requires
        0 <= done,
        0 < chunk,
        done + chunk <= len,
        copy_apart(m0, s, src_va, d, dst_va, len),
        both_mapped(m0, s, src_va, d, dst_va, done),
        copied(m0, m1, s, src_va, d, dst_va, done),
        forall|k: int|
            done <= k < done + chunk ==> #[trigger] byte_of(m0, s, src_va, k) == Some(
                src_pa + (k - done),
            ),
        forall|k: int|
            done <= k < done + chunk ==> #[trigger] byte_of(m0, d, dst_va, k) == Some(
                dst_pa + (k - done),
            ),
        m2.agrees_outside(&m1, dst_pa, dst_pa + chunk),
        forall|q: int|
            dst_pa <= q < dst_pa + chunk ==> #[trigger] m2.byte_at(q) == m1.byte_at(
                q - dst_pa + src_pa,
            ),
        m0.has(dst_pa, chunk),
        m0.has(src_pa, chunk),
    ensures
        both_mapped(m0, s, src_va, d, dst_va, done + chunk),
        copied(m0, m2, s, src_va, d, dst_va, done + chunk),
{
    assert forall|k: int| 0 <= k < done + chunk implies m2.byte_at(
        (#[trigger] byte_of(m0, d, dst_va, k))->0,
    ) == m0.byte_at(byte_of(m0, s, src_va, k)->0) by {
        let to = byte_of(m0, d, dst_va, k)->0;
        let from = byte_of(m0, s, src_va, k)->0;
        if k < done {
            assert(byte_of(m0, d, dst_va, k) is Some);
            assert(m0.has(to, 1));
            if dst_pa <= to < dst_pa + chunk {
                let j = done + (to - dst_pa);
                assert(byte_of(m0, d, dst_va, j) == Some(dst_pa + (j - done)));
            }
            assert(m2.byte_at(to) == m1.byte_at(to));
        } else {
            assert(byte_of(m0, s, src_va, k) == Some(src_pa + (k - done)));
            assert(m2.byte_at(to) == m1.byte_at(from));
            assert forall|j: int| 0 <= j < done implies #[trigger] byte_of(m0, d, dst_va, j)
                != Some(from) by {
                assert(byte_of(m0, d, dst_va, j) is Some);
            }
            assert(m1.byte_at(from) == m0.byte_at(from));
        }
    }
    assert forall|pa: int|
        m0.has(pa, 1) && (forall|k: int|
            0 <= k < done + chunk ==> #[trigger] byte_of(m0, d, dst_va, k) != Some(
                pa,
            )) implies #[trigger] m2.byte_at(pa) == m0.byte_at(pa) by {
        if dst_pa <= pa < dst_pa + chunk {
            let j = done + (pa - dst_pa);
            assert(byte_of(m0, d, dst_va, j) == Some(dst_pa + (j - done)));
        }
        assert(m2.byte_at(pa) == m1.byte_at(pa));
    }
}

// ---------------------------------------------------------------------------
// Address spaces.
// ---------------------------------------------------------------------------

/// A low half address space, the thing `TTBR0_EL1` points at.
///
/// One per task. Switching tasks swaps this and leaves `TTBR1_EL1` alone.
#[derive(Debug)]
pub struct AddressSpace {
    pub root: Frame,
}

/// Every frame a root owns: its tables, and the memory its leaves map.
pub open spec fn owned(m: Memory, root: int) -> Set<int> {
    tables(m, root, 0).union(leaves(m, root, 0))
}

/// A root owns what it maps: the tables form a tree, no frame is mapped twice,
/// no table is mapped, and every frame of it is taken.
pub open spec fn owns(m: Memory, root: int, taken: Set<int>) -> bool {
    &&& tree(m, root, 0)
    &&& private(m, root, 0)
    &&& tables(m, root, 0).disjoint(leaves(m, root, 0))
    &&& owned(m, root).subset_of(taken)
}

impl AddressSpace {
    /// An address space with nothing in it. Every low address faults.
    pub fn new(a: &mut Allocator, memory: &mut Memory) -> (space: AddressSpace)
        requires
            machine(old(a), old(memory)),
            old(a).free_count() > 0,
        ensures
            machine(final(a), final(memory)),
            final(a).same_machine(old(a)),
            final(a).packed(old(a)),
            final(a).free_count() == old(a).free_count() - 1,
            !old(a).taken().contains(space.root.0 as int),
            final(a).taken() == old(a).taken().insert(space.root.0 as int),
            changed_within(*old(memory), *final(memory), set![space.root.0 as int]),
            owns(*final(memory), space.root.0 as int, final(a).taken()),
            tables(*final(memory), space.root.0 as int, 0) == set![space.root.0 as int],
            leaves(*final(memory), space.root.0 as int, 0) == Set::<int>::empty(),
            forall|va: u64| #[trigger]
                stop(*final(memory), space.root.0 as int, va, 0) == (0int, 0u64),
            forall|f: Frame|
                frames::run(old(a).base(), old(a).count()).contains(f.0 as int) && f.0
                    < space.root.0 ==> #[trigger] old(a).taken().contains(f.0 as int),
    {
        proof {
            a.lemma_facts();
        }
        let root = frames::alloc_frame(a, memory).unwrap();
        proof {
            lemma_zero_entries(*memory, root.0 as int);
            lemma_zero_table(*memory, root.0 as int, 0);
        }
        AddressSpace { root }
    }

    /// Map `size` bytes of the low half.
    pub fn map(
        &self,
        a: &mut Allocator,
        memory: &mut Memory,
        va: u64,
        pa: u64,
        size: u64,
        attrs: Attributes,
    )
        requires
            va < KERNEL_BASE,
            machine(old(a), old(memory)),
            tree(*old(memory), self.root.0 as int, 0),
            tables(*old(memory), self.root.0 as int, 0).subset_of(old(a).taken()),
            range_ok(va, pa, size, attrs),
            range_clear(
                walks(*old(memory), self.root.0 as int),
                va as int,
                pa as int,
                size as int,
                attrs,
                0,
            ),
            range_need(
                walks(*old(memory), self.root.0 as int),
                va as int,
                pa as int,
                size as int,
                attrs,
                0,
            ) <= old(a).free_count(),
        ensures
            machine(final(a), final(memory)),
            final(a).same_machine(old(a)),
            final(a).packed(old(a)),
            final(a).free_count() == old(a).free_count() - range_need(
                walks(*old(memory), self.root.0 as int),
                va as int,
                pa as int,
                size as int,
                attrs,
                0,
            ),
            range_mapped(
                *old(memory),
                *final(memory),
                old(a).taken(),
                final(a).taken(),
                self.root.0 as int,
                va,
                pa,
                size,
                attrs,
            ),
    {
        map_range(a, memory, self.root, va, pa, size, attrs);
    }

    /// The root table's frame.
    pub fn root(&self) -> (r: Frame)
        ensures
            r == self.root,
    {
        self.root
    }

    /// Free every frame this address space owns: the tables themselves and the
    /// memory they map.
    ///
    /// Takes `self` by value because an address space cannot be used again
    /// afterwards.
    pub fn destroy(self, a: &mut Allocator, memory: &Memory)
        requires
            old(a).wf(),
            memory.wf(),
            owns(*memory, self.root.0 as int, old(a).taken()),
        ensures
            final(a).wf(),
            final(a).same_machine(old(a)),
            final(a).taken() == old(a).taken().difference(owned(*memory, self.root.0 as int)),
            final(a).free_count() == old(a).free_count() + owned(
                *memory,
                self.root.0 as int,
            ).len(),
    {
        free_table(a, memory, self.root, 0);
        proof {
            let gone = owned(*memory, self.root.0 as int);
            a.lemma_facts();
            old(a).lemma_facts();
            vstd::set_lib::lemma_set_subset_finite(old(a).taken(), gone);
            lemma_difference_len(old(a).taken(), gone);
        }
    }
}

proof fn lemma_difference_len(s: Set<int>, gone: Set<int>)
    requires
        s.finite(),
        gone.finite(),
        gone.subset_of(s),
    ensures
        s.difference(gone).len() == s.len() - gone.len(),
{
    assert(s =~= s.difference(gone).union(gone));
    vstd::set_lib::lemma_set_disjoint_lens(s.difference(gone), gone);
}

/// The frames behind the first `n` entries of a table.
spec fn behind(m: Memory, table: int, level: int, n: int) -> Set<int> {
    Set::new(
        |q: int|
            exists|i: int| 0 <= i < n && (#[trigger] entry_owned(m, table, i, level)).contains(q),
    )
}

/// The frames behind entry `i`.
spec fn entry_owned(m: Memory, table: int, i: int, level: int) -> Set<int> {
    entry_tables(m, table, i, level).union(entry_leaves(m, table, i, level))
}

/// Free a table, the tables below it and the memory they map.
#[verifier::spinoff_prover]
#[verifier::rlimit(40)]
fn free_table(a: &mut Allocator, memory: &Memory, table: Frame, level: usize)
    requires
        level <= 3,
        old(a).wf(),
        memory.wf(),
        tree(*memory, table.0 as int, level as int),
        private(*memory, table.0 as int, level as int),
        tables(*memory, table.0 as int, level as int).disjoint(
            leaves(*memory, table.0 as int, level as int),
        ),
        tables(*memory, table.0 as int, level as int).subset_of(old(a).taken()),
        leaves(*memory, table.0 as int, level as int).subset_of(old(a).taken()),
    ensures
        final(a).wf(),
        final(a).same_machine(old(a)),
        final(a).taken() == old(a).taken().difference(
            tables(*memory, table.0 as int, level as int).union(
                leaves(*memory, table.0 as int, level as int),
            ),
        ),
    decreases 3 - level,
{
    let ghost m = *memory;
    let ghost t = table.0 as int;
    let ghost l = level as int;
    let ghost taken0 = a.taken();
    proof {
        lemma_unfold(m, t, l);
        assert(taken0.difference(behind(m, t, l, 0)) =~= taken0);
        assert(tables(m, t, l).contains(t));
    }
    let mut index: usize = 0;
    while index < ENTRIES
        invariant
            index <= 512,
            level <= 3,
            l == level,
            t == table.0,
            m == *memory,
            memory.wf(),
            a.wf(),
            a.same_machine(old(a)),
            tree(m, t, l),
            private(m, t, l),
            tables(m, t, l).disjoint(leaves(m, t, l)),
            tables(m, t, l).subset_of(taken0),
            leaves(m, t, l).subset_of(taken0),
            a.taken() == taken0.difference(behind(m, t, l, index as int)),
        decreases 512 - index,
    {
        let entry: u64 = read_entry(memory, table, index);
        let ghost i = index as int;
        proof {
            lemma_free_entry(m, t, l, i, taken0);
            lemma_entry_bits(entry);
        }
        index += 1;
        if entry & VALID == 0 {
            continue ;
        }
        let target = Frame::from_addr(entry & ADDR_MASK);
        if level < 3 && entry & TABLE_OR_PAGE != 0 {
            free_table(a, memory, target, level + 1);
            assert(a.taken() =~= taken0.difference(behind(m, t, l, i + 1)));
            continue ;
        }
        // A leaf. At level 3 that is one frame; at levels 1 and 2 it is a
        // block covering many.

        let frames_covered: usize = if level == 1 {
            ENTRIES * ENTRIES
        } else if level == 2 {
            ENTRIES
        } else {
            1
        };
        frames::free_contiguous(a, target, frames_covered);
        assert(a.taken() =~= taken0.difference(behind(m, t, l, i + 1)));
    }
    proof {
        lemma_unfold(m, t, l);
        assert(!behind(m, t, l, 512).contains(t)) by {
            assert forall|i: int| 0 <= i < 512 implies !(#[trigger] entry_owned(
                m,
                t,
                i,
                l,
            )).contains(t) by {
                assert(tables(m, t, l).contains(t));
                if entry_leaves(m, t, i, l).contains(t) {
                    assert(leaves(m, t, l).contains(t));
                }
            }
        }
        assert(tables(m, t, l).contains(t));
    }
    frames::free(a, table);
    proof {
        let all = tables(m, t, l).union(leaves(m, t, l));
        assert forall|q: int| all.contains(q) == (q == t || behind(m, t, l, 512).contains(q)) by {
            if leaves(m, t, l).contains(q) {
                let i = choose|i: int|
                    0 <= i < 512 && (#[trigger] entry_leaves(m, t, i, l)).contains(q);
                assert(entry_owned(m, t, i, l).contains(q));
                assert(behind(m, t, l, 512).contains(q));
            }
            if tables(m, t, l).contains(q) && q != t {
                let i = choose|i: int|
                    0 <= i < 512 && (#[trigger] entry_tables(m, t, i, l)).contains(q);
                assert(entry_owned(m, t, i, l).contains(q));
                assert(behind(m, t, l, 512).contains(q));
            }
        }
        assert(a.taken() =~= taken0.difference(all));
    }
}

/// What entry `i` leads to is still all there when the entries before it have
/// been freed.
proof fn lemma_free_entry(m: Memory, table: int, level: int, i: int, taken: Set<int>)
    requires
        0 <= i < 512,
        0 <= level <= 3,
        tree(m, table, level),
        private(m, table, level),
        tables(m, table, level).disjoint(leaves(m, table, level)),
        tables(m, table, level).subset_of(taken),
        leaves(m, table, level).subset_of(taken),
    ensures
        m.has(table, 4096),
        entry_tree(m, table, i, level),
        entry_private(m, table, i, level),
        entry_tables(m, table, i, level).disjoint(entry_leaves(m, table, i, level)),
        entry_tables(m, table, i, level).subset_of(
            taken.difference(behind(m, table, level, i)),
        ),
        entry_leaves(m, table, i, level).subset_of(
            taken.difference(behind(m, table, level, i)),
        ),
        behind(m, table, level, i + 1) == behind(m, table, level, i).union(
            entry_tables(m, table, i, level),
        ).union(entry_leaves(m, table, i, level)),
{
    lemma_unfold(m, table, level);
    let et = entry_tables(m, table, i, level);
    let el = entry_leaves(m, table, i, level);
    assert forall|q: int| et.contains(q) implies !behind(m, table, level, i).contains(q)
        && taken.contains(q) && !el.contains(q) by {
        assert(tables(m, table, level).contains(q));
        if el.contains(q) {
            assert(leaves(m, table, level).contains(q));
        }
        if behind(m, table, level, i).contains(q) {
            let j = choose|j: int|
                0 <= j < i && (#[trigger] entry_owned(m, table, j, level)).contains(q);
            if entry_leaves(m, table, j, level).contains(q) {
                assert(leaves(m, table, level).contains(q));
            }
        }
    }
    assert forall|q: int| el.contains(q) implies !behind(m, table, level, i).contains(q)
        && taken.contains(q) by {
        assert(leaves(m, table, level).contains(q));
        if behind(m, table, level, i).contains(q) {
            let j = choose|j: int|
                0 <= j < i && (#[trigger] entry_owned(m, table, j, level)).contains(q);
            if entry_tables(m, table, j, level).contains(q) {
                assert(tables(m, table, level).contains(q));
            } else {
                assert(entry_leaves(m, table, j, level).disjoint(el));
            }
        }
    }
    let more = behind(m, table, level, i).union(et).union(el);
    assert forall|q: int| behind(m, table, level, i + 1).contains(q) == more.contains(q) by {
        if behind(m, table, level, i + 1).contains(q) {
            let j = choose|j: int|
                0 <= j < i + 1 && (#[trigger] entry_owned(m, table, j, level)).contains(q);
            if j != i {
                assert(behind(m, table, level, i).contains(q));
            }
        }
        if et.contains(q) || el.contains(q) {
            assert(entry_owned(m, table, i, level).contains(q));
        }
        if behind(m, table, level, i).contains(q) {
            let j = choose|j: int|
                0 <= j < i && (#[trigger] entry_owned(m, table, j, level)).contains(q);
            assert(behind(m, table, level, i + 1).contains(q));
        }
    }
    assert(behind(m, table, level, i + 1) =~= more);
}

/// The frame an address translates into is one of the leaves' frames.
pub proof fn lemma_leaf_frame(m: Memory, table: int, va: u64, level: int)
    requires
        0 <= level <= 3,
        private(m, table, level),
    ensures
        match translation(stop(m, table, va, level), va) {
            Some(pa) => leaves(m, table, level).contains(frames::round_down(pa)),
            None => !valid(stop(m, table, va, level).1),
        },
    decreases 4 - level,
{
    let i = index(va, level);
    let e = entry(m, table, i);
    lemma_index(va, level);
    lemma_unfold(m, table, level);
    assert(entry_private(m, table, i, level));
    if descends(e, level) {
        lemma_leaf_frame(m, out_addr(e), va, level + 1);
        match translation(stop(m, table, va, level), va) {
            Some(pa) => {
                assert(entry_leaves(m, table, i, level).contains(frames::round_down(pa)));
            },
            None => {},
        }
    } else if valid(e) {
        lemma_leaf_part(e, va, level);
        let pa = translation((level, e), va)->0;
        assert(entry_leaves(m, table, i, level).contains(frames::round_down(pa)));
    }
}

/// Where in a leaf's frames an address lands.
proof fn lemma_leaf_part(e: u64, va: u64, level: int)
    requires
        1 <= level <= 3,
        valid(e),
        out_addr(e) % (pages(level) * 4096) == 0,
    ensures
        ({
            let part = va as int / 0x1000 % pages(level);
            &&& translation((level, e), va) is Some
            &&& frames::round_down(translation((level, e), va)->0) == out_addr(e) + part * 4096
            &&& frames::run(out_addr(e), pages(level)).contains(out_addr(e) + part * 4096)
        }),
{
    lemma_page_parts(va);
    lemma_entry_bits(e);
    let part = va as int / 0x1000 % pages(level);
    let off = va as int % 0x1000;
    let o = out_addr(e);
    assert(o % 4096 == 0);
    if level == 1 {
        lemma_fundamental_div_mod(o, 0x4000_0000);
        assert(o / 0x4000_0000 * 0x4000_0000 == o);
    } else if level == 2 {
        lemma_fundamental_div_mod(o, 0x20_0000);
        assert(o / 0x20_0000 * 0x20_0000 == o);
    }
    let pa = translation((level, e), va)->0;
    assert(pa == o + part * 0x1000 + off);
    lemma_fundamental_div_mod(o, 0x1000);
    lemma_fundamental_div_mod_converse(pa, 0x1000, o / 0x1000 + part, off);
}

/// Addresses in different pages translate into different frames.
pub proof fn lemma_leaf_distinct(m: Memory, table: int, va: u64, vb: u64, level: int)
    requires
        0 <= level <= 3,
        private(m, table, level),
        split(va, vb, level, 3) <= 3,
        translation(stop(m, table, va, level), va) is Some,
        translation(stop(m, table, vb, level), vb) is Some,
    ensures
        frames::round_down(translation(stop(m, table, va, level), va)->0) != frames::round_down(
            translation(stop(m, table, vb, level), vb)->0,
        ),
    decreases 4 - level,
{
    let (i, j) = (index(va, level), index(vb, level));
    let (e, f) = (entry(m, table, i), entry(m, table, j));
    lemma_index(va, level);
    lemma_index(vb, level);
    lemma_unfold(m, table, level);
    assert(entry_private(m, table, i, level));
    assert(entry_private(m, table, j, level));
    if i == j {
        if descends(e, level) {
            lemma_leaf_distinct(m, out_addr(e), va, vb, level + 1);
        } else {
            lemma_leaf_part(e, va, level);
            lemma_leaf_part(e, vb, level);
            lemma_parts_differ(va, vb, level);
        }
    } else {
        let one = frames::round_down(translation(stop(m, table, va, level), va)->0);
        let two = frames::round_down(translation(stop(m, table, vb, level), vb)->0);
        if descends(e, level) {
            lemma_leaf_frame(m, out_addr(e), va, level + 1);
        } else {
            lemma_leaf_part(e, va, level);
        }
        if descends(f, level) {
            lemma_leaf_frame(m, out_addr(f), vb, level + 1);
        } else {
            lemma_leaf_part(f, vb, level);
        }
        assert(entry_leaves(m, table, i, level).contains(one));
        assert(entry_leaves(m, table, j, level).contains(two));
        assert(entry_leaves(m, table, i, level).disjoint(entry_leaves(m, table, j, level)));
    }
}

/// Addresses that part below a leaf land in different frames of it.
proof fn lemma_parts_differ(va: u64, vb: u64, level: int)
    requires
        1 <= level <= 3,
        index(va, level) == index(vb, level),
        split(va, vb, level, 3) <= 3,
    ensures
        va as int / 0x1000 % pages(level) != vb as int / 0x1000 % pages(level),
{
    reveal_with_fuel(split, 5);
    lemma_part_index(va);
    lemma_part_index(vb);
}

proof fn lemma_part_index(x: u64)
    ensures
        x as int / 0x1000 % 0x200 == index(x, 3),
        x as int / 0x1000 % 0x4_0000 == index(x, 2) * 0x200 + index(x, 3),
{
    let p = x as int / 0x1000;
    let q = x as int / 0x20_0000;
    lemma_fundamental_div_mod(p, 0x200);
    lemma_page_parts(x);
    lemma_fundamental_div_mod(x as int, 0x1000);
    lemma_fundamental_div_mod_converse(x as int, 0x20_0000, p / 0x200, x as int % 0x20_0000);
    lemma_fundamental_div_mod(q, 0x200);
    lemma_fundamental_div_mod_converse(
        p,
        0x4_0000,
        q / 0x200,
        index(x, 2) * 0x200 + index(x, 3),
    );
}

// ---------------------------------------------------------------------------
// The kernel's own mappings.
// ---------------------------------------------------------------------------

/// Device MMIO the kernel touches at boot: the interrupt controller and the
/// UART.
pub const DEVICE_BASE: u64 = 0x0800_0000;

/// How much of it there is.
pub const DEVICE_SIZE: u64 = 32 * 1024 * 1024;

/// One range to map.
#[derive(Clone, Copy, Debug)]
pub struct Range {
    pub va: u64,
    pub pa: u64,
    pub size: u64,
    pub attrs: Attributes,
}

impl Range {
    /// The range can be mapped.
    pub open spec fn ok(self) -> bool {
        range_ok(self.va, self.pa, self.size, self.attrs)
    }

    /// Is `v` in the range?
    pub open spec fn covers(self, v: u64) -> bool {
        within(self.va, frames::round_up(self.size as int), v)
    }

    /// The two ranges have no address in common.
    pub open spec fn apart(self, other: Range) -> bool {
        forall|v: u64| !(#[trigger] self.covers(v) && other.covers(v))
    }
}

/// What every walk finds once the ranges from `i` on are mapped.
pub open spec fn all_after(
    s: spec_fn(u64) -> (int, u64),
    ranges: Seq<Range>,
    i: int,
) -> spec_fn(u64) -> (int, u64)
    decreases ranges.len() - i,
{
    if i >= ranges.len() {
        s
    } else {
        let r = ranges[i];
        all_after(
            range_after(s, r.va as int, r.pa as int, r.size as int, r.attrs, 0),
            ranges,
            i + 1,
        )
    }
}

/// Tables it takes to map the ranges from `i` on.
pub open spec fn all_need(s: spec_fn(u64) -> (int, u64), ranges: Seq<Range>, i: int) -> int
    decreases ranges.len() - i,
{
    if i >= ranges.len() {
        0
    } else {
        let r = ranges[i];
        range_need(s, r.va as int, r.pa as int, r.size as int, r.attrs, 0) + all_need(
            range_after(s, r.va as int, r.pa as int, r.size as int, r.attrs, 0),
            ranges,
            i + 1,
        )
    }
}

/// Walks through a root that maps nothing.
pub open spec fn fresh() -> spec_fn(u64) -> (int, u64) {
    |va: u64| (0int, 0u64)
}

/// A range over addresses where nothing is mapped has nothing in its way.
proof fn lemma_clear(
    s: spec_fn(u64) -> (int, u64),
    va: u64,
    pa: u64,
    size: u64,
    attrs: Attributes,
    off: int,
)
    requires
        range_ok(va, pa, size, attrs),
        0 <= off,
        off % 4096 == 0,
        at_leaf(va, pa, size, off),
        forall|v: u64|
            within(va, frames::round_up(size as int), v) && !within(va, off, v) ==> !valid(
                (#[trigger] s(v)).1,
            ),
    ensures
        range_clear(s, va as int, pa as int, size as int, attrs, off),
    decreases size - off + 0x1000,
{
    if off < size {
        lemma_chunk(va, pa, size, attrs, off);
        lemma_low_add(va, off);
        let x = (va + off) as u64;
        let leaf = chunk_leaf(va as int, pa as int, size as int, off);
        let desc = leaf_desc((pa + off) as u64, attrs, leaf);
        let next = off + unit(leaf);
        let after = with_leaf(s, x, leaf, desc);
        assert(within(va, frames::round_up(size as int), x) && !within(va, off, x));
        assert(!valid(s(x).1));
        assert forall|v: u64|
            within(va, frames::round_up(size as int), v) && !within(va, next, v) implies !valid(
            (#[trigger] after(v)).1,
        ) by {
            assert(!valid(s(v).1));
            lemma_split_unit(x, v, leaf);
            lemma_entry_bits(0);
            assert(low(x) % unit(leaf) == 0);
            assert(low(v) / unit(leaf) != low(x) / unit(leaf));
        }
        lemma_clear(after, va, pa, size, attrs, next);
    }
}

/// Map each range in turn.
#[verifier::spinoff_prover]
#[verifier::rlimit(40)]
pub fn map_ranges(a: &mut Allocator, memory: &mut Memory, root: Frame, ranges: &Vec<Range>)
    requires
        machine(old(a), old(memory)),
        tree(*old(memory), root.0 as int, 0),
        tables(*old(memory), root.0 as int, 0).subset_of(old(a).taken()),
        forall|i: int| 0 <= i < ranges@.len() ==> (#[trigger] ranges@[i]).ok(),
        forall|i: int, j: int|
            0 <= i < ranges@.len() && 0 <= j < ranges@.len() && i != j ==> (
            #[trigger] ranges@[i]).apart(#[trigger] ranges@[j]),
        forall|i: int, v: u64|
            0 <= i < ranges@.len() && (#[trigger] ranges@[i]).covers(v) ==> !valid(
                (#[trigger] stop(*old(memory), root.0 as int, v, 0)).1,
            ),
        all_need(walks(*old(memory), root.0 as int), ranges@, 0) <= old(a).free_count(),
    ensures
        machine(final(a), final(memory)),
        final(a).same_machine(old(a)),
        final(a).packed(old(a)),
        final(a).free_count() == old(a).free_count() - all_need(
            walks(*old(memory), root.0 as int),
            ranges@,
            0,
        ),
        old(a).taken().subset_of(final(a).taken()),
        tree(*final(memory), root.0 as int, 0),
        tables(*final(memory), root.0 as int, 0).subset_of(
            tables(*old(memory), root.0 as int, 0).union(
                final(a).taken().difference(old(a).taken()),
            ),
        ),
        changed_within(
            *old(memory),
            *final(memory),
            tables(*old(memory), root.0 as int, 0).union(
                final(a).taken().difference(old(a).taken()),
            ),
        ),
        forall|i: int, v: u64|
            0 <= i < ranges@.len() && (#[trigger] ranges@[i]).covers(v) ==> #[trigger] stop(
                *final(memory),
                root.0 as int,
                v,
                0,
            ) == range_stop(ranges@[i].va, ranges@[i].pa, ranges@[i].size, ranges@[i].attrs, v),
        forall|v: u64|
            (forall|i: int| 0 <= i < ranges@.len() ==> !(#[trigger] ranges@[i]).covers(v))
                ==> same_leaf(
                #[trigger] stop(*final(memory), root.0 as int, v, 0),
                stop(*old(memory), root.0 as int, v, 0),
            ),
{
    let ghost m0 = *memory;
    let ghost taken0 = a.taken();
    let ghost r = root.0 as int;
    let ghost all = ranges@;
    let mut i: usize = 0;
    assert(changed_within(m0, *memory, tables(m0, r, 0).union(a.taken().difference(taken0))));
    while i < ranges.len()
        invariant
            i <= ranges@.len(),
            all == ranges@,
            r == root.0,
            m0 == *old(memory),
            taken0 == old(a).taken(),
            machine(a, memory),
            a.same_machine(old(a)),
            a.packed(old(a)),
            tables(m0, r, 0).subset_of(taken0),
            taken0.subset_of(a.taken()),
            tree(*memory, r, 0),
            forall|t: int| #[trigger]
                tables(*memory, r, 0).contains(t) ==> tables(m0, r, 0).contains(t)
                    || a.taken().contains(t) && !taken0.contains(t),
            changed_within(m0, *memory, tables(m0, r, 0).union(a.taken().difference(taken0))),
            forall|j: int| 0 <= j < all.len() ==> (#[trigger] all[j]).ok(),
            forall|j: int, k: int|
                0 <= j < all.len() && 0 <= k < all.len() && j != k ==> (#[trigger] all[j]).apart(
                    #[trigger] all[k],
                ),
            forall|j: int, v: u64|
                0 <= j < all.len() && (#[trigger] all[j]).covers(v) ==> !valid(
                    (#[trigger] stop(m0, r, v, 0)).1,
                ),
            all_need(walks(*memory, r), all, i as int) <= a.free_count(),
            a.free_count() - all_need(walks(*memory, r), all, i as int) == old(a).free_count()
                - all_need(walks(m0, r), all, 0),
            forall|j: int, v: u64|
                0 <= j < i && (#[trigger] all[j]).covers(v) ==> #[trigger] stop(*memory, r, v, 0)
                    == range_stop(all[j].va, all[j].pa, all[j].size, all[j].attrs, v),
            forall|v: u64|
                (forall|j: int| 0 <= j < i ==> !(#[trigger] all[j]).covers(v)) ==> same_leaf(
                    #[trigger] stop(*memory, r, v, 0),
                    stop(m0, r, v, 0),
                ),
        decreases ranges@.len() - i,
    {
        let one = ranges[i];
        let ghost m1 = *memory;
        let ghost taken1 = a.taken();
        let ghost a1 = *a;
        let ghost s1 = walks(m1, r);
        proof {
            assert(one == all[i as int]);
            assert(all[i as int].ok());
            assert(at_leaf(one.va, one.pa, one.size, 0));
            assert forall|v: u64|
                within(one.va, frames::round_up(one.size as int), v) && !within(
                    one.va,
                    0,
                    v,
                ) implies !valid((#[trigger] s1(v)).1) by {
                assert(all[i as int].covers(v));
                assert forall|j: int| 0 <= j < i implies !(#[trigger] all[j]).covers(v) by {
                    assert(all[j].apart(all[i as int]));
                }
                assert(same_leaf(stop(m1, r, v, 0), stop(m0, r, v, 0)));
                assert(!valid(stop(m0, r, v, 0).1));
            }
            lemma_clear(s1, one.va, one.pa, one.size, one.attrs, 0);
            lemma_all_need(
                range_after(s1, one.va as int, one.pa as int, one.size as int, one.attrs, 0),
                all,
                i + 1,
            );
        }
        map_range(a, memory, root, one.va, one.pa, one.size, one.attrs);
        proof {
            let m2 = *memory;
            a.lemma_packed(&a1, old(a));
            assert(walks(m2, r) =~= range_after(
                s1,
                one.va as int,
                one.pa as int,
                one.size as int,
                one.attrs,
                0,
            ));
            assert forall|j: int, v: u64|
                0 <= j < i + 1 && (#[trigger] all[j]).covers(v) implies #[trigger] stop(m2, r, v, 0)
                == range_stop(all[j].va, all[j].pa, all[j].size, all[j].attrs, v) by {
                if j < i {
                    assert(all[j].apart(all[i as int]));
                    assert(!one.covers(v));
                    assert(same_leaf(stop(m2, r, v, 0), stop(m1, r, v, 0)));
                    assert(all[j].ok());
                    lemma_range_stop(all[j].va, all[j].pa, all[j].size, all[j].attrs, v);
                }
            }
            assert forall|v: u64|
                (forall|j: int| 0 <= j < i + 1 ==> !(#[trigger] all[j]).covers(v)) implies same_leaf(
                #[trigger] stop(m2, r, v, 0),
                stop(m0, r, v, 0),
            ) by {
                assert(!all[i as int].covers(v));
                assert(same_leaf(stop(m2, r, v, 0), stop(m1, r, v, 0)));
                assert(same_leaf(stop(m1, r, v, 0), stop(m0, r, v, 0)));
            }
            assert(changed_within(m0, m2, tables(m0, r, 0).union(a.taken().difference(taken0)))) by {
                assert forall|q: int|
                    m0.has(q, 1) && !tables(m0, r, 0).union(
                        a.taken().difference(taken0),
                    ).contains(frames::round_down(q)) implies #[trigger] m2.byte_at(q)
                    == m0.byte_at(q) by {
                    let f = frames::round_down(q);
                    assert(!tables(m1, r, 0).contains(f));
                    assert(m2.byte_at(q) == m1.byte_at(q));
                    assert(m1.byte_at(q) == m0.byte_at(q));
                }
            }
        }
        i += 1;
    }
}

proof fn lemma_all_need(s: spec_fn(u64) -> (int, u64), ranges: Seq<Range>, i: int)
    requires
        0 <= i,
    ensures
        all_need(s, ranges, i) >= 0,
    decreases ranges.len() - i,
{
    if i < ranges.len() {
        let r = ranges[i];
        lemma_need(s, r.va as int, r.pa as int, r.size as int, r.attrs, 0);
        lemma_all_need(
            range_after(s, r.va as int, r.pa as int, r.size as int, r.attrs, 0),
            ranges,
            i + 1,
        );
    }
}

/// Where the linker put the parts of the kernel image.
#[derive(Clone, Copy, Debug)]
pub struct Layout {
    pub text_start: u64,
    pub text_end: u64,
    pub rodata_start: u64,
    pub rodata_end: u64,
    pub data_start: u64,
    pub kernel_end: u64,
}

impl Layout {
    /// The parts follow one another inside RAM, each starts on a page, and RAM
    /// is clear of the devices.
    pub open spec fn ok(self, base: int, len: int) -> bool {
        &&& DEVICE_BASE + DEVICE_SIZE <= base <= self.text_start <= self.text_end
            <= self.rodata_start <= self.rodata_end <= self.data_start <= self.kernel_end < base
            + len <= 0x1_0000_0000_0000
        &&& base % 4096 == 0
        &&& len % 4096 == 0
        &&& self.text_start % 4096 == 0
        &&& self.rodata_start % 4096 == 0
        &&& self.data_start % 4096 == 0
        &&& self.kernel_end % 4096 == 0
    }

    /// The whole kernel address space, `offset` past its physical addresses:
    /// what lies below the image, code, constants, data with the boot stack,
    /// the rest of RAM, and the devices.
    pub open spec fn ranges(self, base: int, len: int, offset: u64) -> Seq<Range> {
        seq![
            Range {
                va: (base + offset) as u64,
                pa: base as u64,
                size: (self.text_start - base) as u64,
                attrs: Attributes(KERNEL_DATA),
            },
            Range {
                va: (self.text_start + offset) as u64,
                pa: self.text_start,
                size: (self.text_end - self.text_start) as u64,
                attrs: Attributes(KERNEL_TEXT),
            },
            Range {
                va: (self.rodata_start + offset) as u64,
                pa: self.rodata_start,
                size: (self.rodata_end - self.rodata_start) as u64,
                attrs: Attributes(KERNEL_RODATA),
            },
            Range {
                va: (self.data_start + offset) as u64,
                pa: self.data_start,
                size: (self.kernel_end - self.data_start) as u64,
                attrs: Attributes(KERNEL_DATA),
            },
            Range {
                va: (self.kernel_end + offset) as u64,
                pa: self.kernel_end,
                size: (base + len - self.kernel_end) as u64,
                attrs: Attributes(KERNEL_DATA),
            },
            Range {
                va: (DEVICE_BASE + offset) as u64,
                pa: DEVICE_BASE,
                size: DEVICE_SIZE,
                attrs: Attributes(DEVICE),
            },
        ]
    }
}

/// A kernel range can be mapped, and the tables see it at its physical
/// address.
proof fn lemma_kernel_range(r: Range, offset: u64)
    requires
        offset == 0 || offset == KERNEL_BASE,
        r.va == r.pa + offset,
        r.pa % 4096 == 0,
        r.pa + frames::round_up(r.size as int) <= 0x1_0000_0000_0000,
        r.pa < 0x1_0000_0000_0000,
        r.attrs.clean(),
    ensures
        r.ok(),
        low(r.va) == r.pa,
{
    let h = if offset == 0 {
        0int
    } else {
        0xffff
    };
    lemma_fundamental_div_mod_converse(r.va as int, 0x1_0000_0000_0000, h, r.pa as int);
}

/// Ranges that follow one another have no address in common.
proof fn lemma_apart(one: Range, two: Range)
    requires
        low(one.va) + frames::round_up(one.size as int) <= low(two.va),
    ensures
        one.apart(two),
        two.apart(one),
{
}

/// The kernel's ranges can be mapped, and have no address in common.
#[verifier::spinoff_prover]
proof fn lemma_layout(layout: Layout, base: int, len: int, offset: u64)
    requires
        layout.ok(base, len),
        offset == 0 || offset == KERNEL_BASE,
    ensures
        ({
            let all = layout.ranges(base, len, offset);
            &&& forall|i: int| 0 <= i < 6 ==> (#[trigger] all[i]).ok()
            &&& forall|i: int| 0 <= i < 6 ==> low((#[trigger] all[i]).va) == all[i].pa
            &&& forall|i: int, j: int|
                0 <= i < 6 && 0 <= j < 6 && i != j ==> (#[trigger] all[i]).apart(#[trigger] all[j])
        }),
{
    let all = layout.ranges(base, len, offset);
    lemma_attributes();
    assert(frames::round_up(layout.text_start - base) == layout.text_start - base);
    assert(frames::round_up(layout.text_end - layout.text_start) <= layout.rodata_start
        - layout.text_start);
    assert(frames::round_up(layout.rodata_end - layout.rodata_start) <= layout.data_start
        - layout.rodata_start);
    assert(frames::round_up(layout.kernel_end - layout.data_start) == layout.kernel_end
        - layout.data_start);
    assert(frames::round_up(base + len - layout.kernel_end) == base + len - layout.kernel_end);
    lemma_kernel_range(all[0], offset);
    lemma_kernel_range(all[1], offset);
    lemma_kernel_range(all[2], offset);
    lemma_kernel_range(all[3], offset);
    lemma_kernel_range(all[4], offset);
    lemma_kernel_range(all[5], offset);
    assert forall|i: int, j: int| 0 <= i < j < 5 implies (#[trigger] all[i]).apart(
        #[trigger] all[j],
    ) && all[j].apart(all[i]) by {
        lemma_apart(all[i], all[j]);
    }
    assert forall|i: int| 0 <= i < 5 implies (#[trigger] all[i]).apart(all[5]) && all[5].apart(
        all[i],
    ) by {
        lemma_apart(all[5], all[i]);
    }
}

/// Fill in one root with the whole kernel address space.
///
/// `offset` is added to every virtual address, so the same routine builds both
/// the identity map and the high half map. Building both from one description
/// is the point: a permission that differs between them would be a bug that
/// only appears after the jump.
fn build(a: &mut Allocator, memory: &mut Memory, root: Frame, layout: Layout, offset: u64)
    requires
        machine(old(a), old(memory)),
        layout.ok(old(a).base(), old(a).length()),
        offset == 0 || offset == KERNEL_BASE,
        tree(*old(memory), root.0 as int, 0),
        tables(*old(memory), root.0 as int, 0).subset_of(old(a).taken()),
        walks(*old(memory), root.0 as int) == fresh(),
        all_need(fresh(), layout.ranges(old(a).base(), old(a).length(), offset), 0) <= old(
            a,
        ).free_count(),
    ensures
        machine(final(a), final(memory)),
        final(a).same_machine(old(a)),
        final(a).packed(old(a)),
        final(a).free_count() == old(a).free_count() - all_need(
            fresh(),
            layout.ranges(old(a).base(), old(a).length(), offset),
            0,
        ),
        old(a).taken().subset_of(final(a).taken()),
        tree(*final(memory), root.0 as int, 0),
        tables(*final(memory), root.0 as int, 0).subset_of(
            tables(*old(memory), root.0 as int, 0).union(
                final(a).taken().difference(old(a).taken()),
            ),
        ),
        changed_within(
            *old(memory),
            *final(memory),
            tables(*old(memory), root.0 as int, 0).union(
                final(a).taken().difference(old(a).taken()),
            ),
        ),
        kernel_mapped(*final(memory), root.0 as int, layout, old(a).base(), old(a).length()),
{
    let base: u64 = frames::ram_base(a);
    let size: u64 = frames::ram_size(a);
    let ghost m0 = *memory;
    let ghost r = root.0 as int;
    let ghost all = layout.ranges(a.base(), a.length(), offset);
    let mut ranges: Vec<Range> = Vec::new();
    // Everything below the kernel image: the device tree blob, and the gap
    // left before the load address.
    ranges.push(
        Range {
            va: base + offset,
            pa: base,
            size: layout.text_start - base,
            attrs: Attributes::kernel_data(),
        },
    );
    ranges.push(
        Range {
            va: layout.text_start + offset,
            pa: layout.text_start,
            size: layout.text_end - layout.text_start,
            attrs: Attributes::kernel_text(),
        },
    );
    ranges.push(
        Range {
            va: layout.rodata_start + offset,
            pa: layout.rodata_start,
            size: layout.rodata_end - layout.rodata_start,
            attrs: Attributes::kernel_rodata(),
        },
    );
    // Data, BSS, and the boot stack.
    ranges.push(
        Range {
            va: layout.data_start + offset,
            pa: layout.data_start,
            size: layout.kernel_end - layout.data_start,
            attrs: Attributes::kernel_data(),
        },
    );
    // The rest of RAM, which the frame allocator hands out.
    ranges.push(
        Range {
            va: layout.kernel_end + offset,
            pa: layout.kernel_end,
            size: base + size - layout.kernel_end,
            attrs: Attributes::kernel_data(),
        },
    );
    ranges.push(
        Range {
            va: DEVICE_BASE + offset,
            pa: DEVICE_BASE,
            size: DEVICE_SIZE,
            attrs: Attributes::device(),
        },
    );
    proof {
        assert(ranges@ =~= all);
        lemma_layout(layout, a.base(), a.length(), offset);
        lemma_entry_bits(0);
        assert forall|v: u64| #[trigger] stop(m0, r, v, 0) == (0int, 0u64) by {
            assert(walks(m0, r)(v) == fresh()(v));
        }
    }
    map_ranges(a, memory, root, &ranges);
    proof {
        let m1 = *memory;
        let plain = layout.ranges(a.base(), a.length(), 0);
        lemma_layout(layout, a.base(), a.length(), 0);
        assert forall|i: int, v: u64| 0 <= i < 6 implies (#[trigger] plain[i]).covers(v)
            == all[i].covers(v) && #[trigger] range_stop(
            plain[i].va,
            plain[i].pa,
            plain[i].size,
            plain[i].attrs,
            v,
        ) == range_stop(all[i].va, all[i].pa, all[i].size, all[i].attrs, v) by {
            lemma_same_range(plain[i], all[i], v);
        }
        assert forall|i: int, v: u64|
            0 <= i < 6 && (#[trigger] plain[i]).covers(v) implies #[trigger] stop(m1, r, v, 0)
            == range_stop(plain[i].va, plain[i].pa, plain[i].size, plain[i].attrs, v) by {
            lemma_same_range(plain[i], all[i], v);
        }
        assert forall|v: u64|
            (forall|i: int| 0 <= i < 6 ==> !(#[trigger] plain[i]).covers(v)) implies !valid(
            (#[trigger] stop(m1, r, v, 0)).1,
        ) by {
            assert forall|i: int| 0 <= i < ranges@.len() implies !(#[trigger] ranges@[i]).covers(
                v,
            ) by {
                lemma_same_range(plain[i], all[i], v);
                assert(!plain[i].covers(v));
            }
            assert(same_leaf(stop(m1, r, v, 0), stop(m0, r, v, 0)));
        }
    }
}

/// The tables see two ranges that differ only above bit 47 alike.
proof fn lemma_same_range(one: Range, two: Range, v: u64)
    requires
        low(one.va) == low(two.va),
        one.pa == two.pa,
        one.size == two.size,
        one.attrs == two.attrs,
    ensures
        one.covers(v) == two.covers(v),
        range_stop(one.va, one.pa, one.size, one.attrs, v) == range_stop(
            two.va,
            two.pa,
            two.size,
            two.attrs,
            v,
        ),
{
    lemma_block_part(one.va);
    lemma_block_part(two.va);
}

proof fn lemma_block_part(va: u64)
    ensures
        va as int % 0x20_0000 == low(va) % 0x20_0000,
{
    let w = low(va);
    let h = va as int / 0x1_0000_0000_0000;
    lemma_fundamental_div_mod(va as int, 0x1_0000_0000_0000);
    lemma_fundamental_div_mod(w, 0x20_0000);
    let q = 0x800_0000 * h + w / 0x20_0000;
    lemma_fundamental_div_mod_converse(va as int, 0x20_0000, q, w % 0x20_0000);
}

/// The root maps exactly the kernel's ranges, each with its permissions.
///
/// The ranges are named by their physical addresses. A walk uses 48 bits of an
/// address, so this says the same of the identity map and of the high half.
pub open spec fn kernel_mapped(m: Memory, root: int, layout: Layout, base: int, len: int) -> bool {
    let all = layout.ranges(base, len, 0);
    &&& forall|i: int, v: u64|
        0 <= i < 6 && (#[trigger] all[i]).covers(v) ==> #[trigger] stop(m, root, v, 0)
            == range_stop(all[i].va, all[i].pa, all[i].size, all[i].attrs, v)
    &&& forall|v: u64|
        (forall|i: int| 0 <= i < 6 ==> !(#[trigger] all[i]).covers(v)) ==> !valid(
            (#[trigger] stop(m, root, v, 0)).1,
        )
}

/// Build both roots and return them as `(ttbr0, ttbr1)`: the identity map, so
/// the program counter stays valid across the moment the MMU turns on, and the
/// permanent kernel mapping.
#[verifier::spinoff_prover]
pub fn build_tables(a: &mut Allocator, memory: &mut Memory, layout: Layout) -> (r: (Frame, Frame))
    requires
        machine(old(a), old(memory)),
        layout.ok(old(a).base(), old(a).length()),
        2 + all_need(fresh(), layout.ranges(old(a).base(), old(a).length(), 0), 0) + all_need(
            fresh(),
            layout.ranges(old(a).base(), old(a).length(), KERNEL_BASE),
            0,
        ) <= old(a).free_count(),
    ensures
        machine(final(a), final(memory)),
        final(a).same_machine(old(a)),
        final(a).packed(old(a)),
        final(a).free_count() == old(a).free_count() - 2 - all_need(
            fresh(),
            layout.ranges(old(a).base(), old(a).length(), 0),
            0,
        ) - all_need(fresh(), layout.ranges(old(a).base(), old(a).length(), KERNEL_BASE), 0),
        r.0 != r.1,
        !old(a).taken().contains(r.0.0 as int),
        !old(a).taken().contains(r.1.0 as int),
        old(a).taken().subset_of(final(a).taken()),
        tree(*final(memory), r.0.0 as int, 0),
        tree(*final(memory), r.1.0 as int, 0),
        tables(*final(memory), r.0.0 as int, 0).subset_of(
            final(a).taken().difference(old(a).taken()),
        ),
        tables(*final(memory), r.1.0 as int, 0).subset_of(
            final(a).taken().difference(old(a).taken()),
        ),
        changed_within(
            *old(memory),
            *final(memory),
            final(a).taken().difference(old(a).taken()),
        ),
        kernel_mapped(*final(memory), r.0.0 as int, layout, old(a).base(), old(a).length()),
        kernel_mapped(*final(memory), r.1.0 as int, layout, old(a).base(), old(a).length()),
{
    let ghost m0 = *memory;
    let ghost taken0 = a.taken();
    let ghost all = layout.ranges(a.base(), a.length(), 0);
    proof {
        lemma_all_need(fresh(), all, 0);
        lemma_all_need(fresh(), layout.ranges(a.base(), a.length(), KERNEL_BASE), 0);
    }
    let low = AddressSpace::new(a, memory);
    let ghost m1 = *memory;
    let ghost a1 = *a;
    let high = AddressSpace::new(a, memory);
    let ghost m2 = *memory;
    let ghost a2 = *a;
    let ghost taken2 = a.taken();
    let ghost (l, h) = (low.root.0 as int, high.root.0 as int);
    proof {
        lemma_untouched(m1, m2, l, set![h]);
        assert(walks(m2, l) =~= fresh()) by {
            assert forall|v: u64| #[trigger] walks(m2, l)(v) == fresh()(v) by {
                assert(stop(m2, l, v, 0) == stop(m1, l, v, 0));
            }
        }
    }
    build(a, memory, low.root, layout, 0);
    let ghost m3 = *memory;
    let ghost a3 = *a;
    let ghost taken3 = a.taken();
    proof {
        lemma_untouched(m2, m3, h, tables(m2, l, 0).union(taken3.difference(taken2)));
        assert(walks(m3, h) =~= fresh()) by {
            assert forall|v: u64| #[trigger] walks(m3, h)(v) == fresh()(v) by {
                assert(stop(m3, h, v, 0) == stop(m2, h, v, 0));
            }
        }
    }
    build(a, memory, high.root, layout, KERNEL_BASE);
    proof {
        let m4 = *memory;
        let taken4 = a.taken();
        a2.lemma_packed(&a1, old(a));
        a3.lemma_packed(&a2, old(a));
        a.lemma_packed(&a3, old(a));
        lemma_untouched(m3, m4, l, tables(m3, h, 0).union(taken4.difference(taken3)));
        assert forall|v: u64| #[trigger] stop(m4, l, v, 0) == stop(m3, l, v, 0) by {}
        assert(changed_within(m0, m4, taken4.difference(taken0))) by {
            assert forall|q: int|
                m0.has(q, 1) && !taken4.difference(taken0).contains(
                    frames::round_down(q),
                ) implies #[trigger] m4.byte_at(q) == m0.byte_at(q) by {
                let f = frames::round_down(q);
                assert(f != l && f != h);
                assert(m1.byte_at(q) == m0.byte_at(q));
                assert(m2.byte_at(q) == m1.byte_at(q));
                assert(m3.byte_at(q) == m2.byte_at(q));
                assert(m4.byte_at(q) == m3.byte_at(q));
            }
        }
    }
    (low.root, high.root)
}

/// Changes elsewhere leave a tree of tables as it was.
pub proof fn lemma_untouched(m1: Memory, m2: Memory, root: int, s: Set<int>)
    requires
        tree(m1, root, 0),
        changed_within(m1, m2, s),
        s.disjoint(tables(m1, root, 0)),
    ensures
        tree(m2, root, 0),
        tables(m2, root, 0) == tables(m1, root, 0),
        leaves(m2, root, 0) == leaves(m1, root, 0),
        private(m2, root, 0) == private(m1, root, 0),
        forall|va: u64| #[trigger] stop(m2, root, va, 0) == stop(m1, root, va, 0),
{
    lemma_tables_proper(m1, root, 0);
    assert(keeps(m1, m2, tables(m1, root, 0))) by {
        assert forall|t: int| #[trigger] tables(m1, root, 0).contains(t) implies m1.agrees(
            &m2,
            t,
            t + 4096,
        ) by {
            assert forall|pa: int| t <= pa < t + 4096 && m1.has(pa, 1) implies #[trigger] m1.byte_at(
                pa,
            ) == m2.byte_at(pa) by {
                assert(frames::round_down(pa) == t);
                assert(m2.byte_at(pa) == m1.byte_at(pa));
            }
        }
    }
    lemma_frame(m1, m2, root, 0);
}

// ---------------------------------------------------------------------------
// What the mappings guarantee.
// ---------------------------------------------------------------------------

proof fn lemma_leaf_permissions(pa: u64, attrs: u64)
    by (bit_vector)
    requires
        pa < 0x1_0000_0000_0000,
        attrs & 0x0000_ffff_ffff_f003 == 0,
    ensures
        (pa | attrs | 1 | 2) & 0x60_0000_0000_0000 == attrs & 0x60_0000_0000_0000,
        (pa | attrs | 1) & 0x60_0000_0000_0000 == attrs & 0x60_0000_0000_0000,
        (pa | attrs | 1 | 2) & 0x20_0000_0000_0000 == attrs & 0x20_0000_0000_0000,
        (pa | attrs | 1) & 0x20_0000_0000_0000 == attrs & 0x20_0000_0000_0000,
        (pa | attrs | 1 | 2) & 0x40_0000_0000_0000 == attrs & 0x40_0000_0000_0000,
        (pa | attrs | 1) & 0x40_0000_0000_0000 == attrs & 0x40_0000_0000_0000,
{
}

/// Every address of a mapped range translates to its own offset into the
/// physical range, whether a page or a block maps it, and has the range's
/// permissions.
pub proof fn lemma_range_translates(va: u64, pa: u64, size: u64, attrs: Attributes, v: u64)
    requires
        range_ok(va, pa, size, attrs),
        within(va, frames::round_up(size as int), v),
    ensures
        ({
            let s = range_stop(va, pa, size, attrs, v);
            &&& valid(s.1)
            &&& translation(s, v) == Some(pa + (low(v) - low(va)))
            &&& access(s.1) == access(attrs.0)
            &&& s.1 & PXN == attrs.0 & PXN
            &&& s.1 & UXN == attrs.0 & UXN
        }),
{
    let leaf = range_leaf(va, pa, size, v);
    let u = unit(leaf);
    let b = low(v) / u * u;
    let at = pa + (b - low(va));
    lemma_block_part(v);
    lemma_block_part(va);
    lemma_page_parts(v);
    lemma_fundamental_div_mod(low(v), 0x1000);
    lemma_fundamental_div_mod(low(v), 0x20_0000);
    lemma_fundamental_div_mod(low(va), 0x1000);
    lemma_fundamental_div_mod(low(va), 0x20_0000);
    lemma_fundamental_div_mod(pa as int, 0x20_0000);
    assert(low(v) % 0x1000 == v as int % 0x1000);
    assert(low(va) <= b);
    assert(at % 4096 == 0);
    assert(at < 0x1_0000_0000_0000);
    if leaf == 2 {
        lemma_fundamental_div_mod_converse(
            at,
            0x20_0000,
            pa as int / 0x20_0000 + low(v) / 0x20_0000 - low(va) / 0x20_0000,
            0,
        );
    }
    lemma_descriptor(at as u64, attrs.0);
    lemma_leaf_permissions(at as u64, attrs.0);
}

/// Nothing the kernel maps is both writable and executable, and none of it is
/// reachable from EL0 at all.
pub proof fn lemma_kernel_permissions(
    m: Memory,
    root: int,
    layout: Layout,
    base: int,
    len: int,
    v: u64,
)
    requires
        layout.ok(base, len),
        kernel_mapped(m, root, layout, base, len),
        valid(stop(m, root, v, 0).1),
    ensures
        ({
            let d = stop(m, root, v, 0).1;
            &&& access(d) == AP_RW_EL1 || access(d) == AP_RO_EL1
            &&& access(d) == AP_RW_EL1 ==> d & PXN != 0
            &&& d & UXN != 0
            &&& translation(stop(m, root, v, 0), v) == Some(low(v))
        }),
{
    let all = layout.ranges(base, len, 0);
    lemma_layout(layout, base, len, 0);
    lemma_attributes();
    if forall|i: int| 0 <= i < 6 ==> !(#[trigger] all[i]).covers(v) {
        assert(false);
    }
    let i = choose|i: int| 0 <= i < 6 && (#[trigger] all[i]).covers(v);
    let r = all[i];
    assert(r.ok());
    lemma_range_translates(r.va, r.pa, r.size, r.attrs, v);
}

/// The identity map and the high half map agree on every address: same
/// translation, same permissions.
pub proof fn lemma_both_halves(
    m: Memory,
    ttbr0: int,
    ttbr1: int,
    layout: Layout,
    base: int,
    len: int,
    v: u64,
)
    requires
        kernel_mapped(m, ttbr0, layout, base, len),
        kernel_mapped(m, ttbr1, layout, base, len),
    ensures
        found(stop(m, ttbr0, v, 0)) == found(stop(m, ttbr1, v, 0)),
        translation(stop(m, ttbr0, v, 0), v) == translation(stop(m, ttbr1, v, 0), v),
{
    let all = layout.ranges(base, len, 0);
    if exists|i: int| 0 <= i < 6 && (#[trigger] all[i]).covers(v) {
        let i = choose|i: int| 0 <= i < 6 && (#[trigger] all[i]).covers(v);
        assert(all[i].covers(v));
    } else {
        assert forall|i: int| 0 <= i < 6 implies !(#[trigger] all[i]).covers(v) by {}
    }
}

// ---------------------------------------------------------------------------
// The translation registers.
// ---------------------------------------------------------------------------

/// Slot 0 is Device-nGnRnE, which encodes as zero; slot 1 is Normal write-back.
pub const MAIR_VALUE: u64 = 0xff00;

/// `TCR_EL1.EPD0`: do not consult `TTBR0_EL1` at all.
pub const EPD0: u64 = 0x80;

/// Virtual address aliasing physical address `pa`, `offset` being zero while
/// the MMU is off and `KERNEL_BASE` in the high half.
pub fn phys_to_virt(offset: u64, pa: u64) -> (va: u64)
    requires
        offset + pa <= u64::MAX,
    ensures
        va == pa + offset,
{
    pa + offset
}

/// Largest physical address the CPU supports, encoded for `TCR_EL1.IPS`, from
/// `ID_AA64MMFR0_EL1`. Capped at 48 bits.
pub fn parange(mmfr0: u64) -> (r: u64)
    ensures
        r == if mmfr0 % 16 < 5 {
            mmfr0 % 16
        } else {
            5
        },
{
    let range: u64 = mmfr0 % 16;
    if range < 5 {
        range
    } else {
        5
    }
}

proof fn lemma_tcr_bits(ips: u64)
    by (bit_vector)
    requires
        ips <= 5,
    ensures
        (0xb510_3510u64 | (ips << 32)) & 0x3f == 16,
        ((0xb510_3510u64 | (ips << 32)) >> 16) & 0x3f == 16,
        ((0xb510_3510u64 | (ips << 32)) >> 8) & 3 == 1,
        ((0xb510_3510u64 | (ips << 32)) >> 10) & 3 == 1,
        ((0xb510_3510u64 | (ips << 32)) >> 12) & 3 == 3,
        ((0xb510_3510u64 | (ips << 32)) >> 14) & 3 == 0,
        ((0xb510_3510u64 | (ips << 32)) >> 24) & 3 == 1,
        ((0xb510_3510u64 | (ips << 32)) >> 26) & 3 == 1,
        ((0xb510_3510u64 | (ips << 32)) >> 28) & 3 == 3,
        ((0xb510_3510u64 | (ips << 32)) >> 30) & 3 == 2,
        ((0xb510_3510u64 | (ips << 32)) >> 32) & 7 == ips,
        (0xb510_3510u64 | (ips << 32)) >> 35 == 0,
        ((0xb510_3510u64 | (ips << 32)) >> 6) & 3 == 0,
        ((0xb510_3510u64 | (ips << 32)) >> 22) & 3 == 0,
        (0xb510_3510u64 | (ips << 32)) & 0x80 == 0,
{
}

/// The value of `TCR_EL1` that turns both halves on: 48 bit addresses, 4 KiB
/// granules, write-back inner shareable table walks.
///
/// The two granule fields encode the same size differently: 4 KiB is 0 for the
/// low half and 2 for the high one.
pub fn tcr_value(mmfr0: u64) -> (tcr: u64)
    ensures
        tcr & 0x3f == 16,
        (tcr >> 16) & 0x3f == 16,
        (tcr >> 8) & 3 == 1 && (tcr >> 10) & 3 == 1 && (tcr >> 12) & 3 == 3,
        (tcr >> 24) & 3 == 1 && (tcr >> 26) & 3 == 1 && (tcr >> 28) & 3 == 3,
        (tcr >> 14) & 3 == 0,
        (tcr >> 30) & 3 == 2,
        (tcr >> 6) & 3 == 0 && (tcr >> 22) & 3 == 0,
        (tcr >> 32) & 7 == if mmfr0 % 16 < 5 {
            mmfr0 % 16
        } else {
            5
        },
        tcr >> 35 == 0,
        tcr & EPD0 == 0,
{
    let ips: u64 = parange(mmfr0);
    proof {
        lemma_tcr_bits(ips);
    }
    0xb510_3510 | (ips << 32)
}

proof fn lemma_epd0(tcr: u64)
    by (bit_vector)
    ensures
        (tcr | 0x80) & 0x80 != 0,
        (tcr & !0x80u64) & 0x80 == 0,
        (tcr | 0x80) & !0x80u64 == tcr & !0x80u64,
        tcr & 0x80 == 0 ==> (tcr | 0x80) & !0x80u64 == tcr,
{
}

/// `TCR_EL1` with the identity map retired: low addresses take a translation
/// fault instead of being walked.
pub fn finish_high_half(tcr: u64) -> (r: u64)
    ensures
        r & EPD0 != 0,
        r & !EPD0 == tcr & !EPD0,
{
    proof {
        lemma_epd0(tcr);
    }
    tcr | EPD0
}

/// `TCR_EL1` with low addresses walked again, now that address spaces exist.
pub fn enable_user_translation(tcr: u64) -> (r: u64)
    ensures
        r & EPD0 == 0,
        r == tcr & !EPD0,
{
    proof {
        lemma_epd0(tcr);
    }
    tcr & !EPD0
}

/// The translation configuration, as the registers report it.
#[derive(Clone, Copy, PartialEq, Eq, Debug, Structural)]
pub struct Config {
    pub mmu: bool,
    pub data_cache: bool,
    pub instruction_cache: bool,
    pub low_walks: bool,
}

/// Decode `SCTLR_EL1` and `TCR_EL1` for a report.
pub fn config(sctlr: u64, tcr: u64) -> (c: Config)
    ensures
        c.mmu == (sctlr & 1 != 0),
        c.data_cache == (sctlr & 4 != 0),
        c.instruction_cache == (sctlr & 0x1000 != 0),
        c.low_walks == (tcr & EPD0 == 0),
{
    Config {
        mmu: sctlr & 1 != 0,
        data_cache: sctlr & 4 != 0,
        instruction_cache: sctlr & 0x1000 != 0,
        low_walks: tcr & EPD0 == 0,
    }
}

/// Copy `len` bytes out of an address space. EL0 must be able to read them.
pub fn read_user(memory: &Memory, root: Frame, va: u64, len: usize) -> (v: Vec<u8>)
    requires
        memory.wf(),
        tree(*memory, root.0 as int, 0),
        va + len <= u64::MAX,
        forall|k: int|
            0 <= k < len ==> match #[trigger] byte_of(*memory, root.0 as int, va, k) {
                Some(pa) => memory.has(pa, 1),
                None => false,
            },
    ensures
        v@.len() == len,
        forall|k: int|
            0 <= k < len ==> #[trigger] v@[k] == memory.byte_at(
                byte_of(*memory, root.0 as int, va, k)->0,
            ),
{
    let mut out: Vec<u8> = Vec::new();
    let mut i: usize = 0;
    proof {
        lemma_sound(*memory, root.0 as int);
    }
    while i < len
        invariant
            i <= len,
            out@.len() == i,
            memory.wf(),
            sound(*memory, root.0 as int),
            va + len <= u64::MAX,
            forall|k: int|
                0 <= k < len ==> match #[trigger] byte_of(*memory, root.0 as int, va, k) {
                    Some(pa) => memory.has(pa, 1),
                    None => false,
                },
            forall|k: int|
                0 <= k < i ==> #[trigger] out@[k] == memory.byte_at(
                    byte_of(*memory, root.0 as int, va, k)->0,
                ),
        decreases len - i,
    {
        let at: u64 = va + i as u64;
        assert(byte_of(*memory, root.0 as int, va, i as int) is Some);
        assert(walkable(*memory, root.0 as int, at, 0));
        let pa: u64 = translate(memory, root, at).unwrap();
        out.push(memory.read_u8(pa));
        i += 1;
    }
    out
}

/// Different bytes of an address space are different bytes of memory.
pub proof fn lemma_bytes_distinct(m: Memory, root: int, va: u64, j: int, k: int)
    requires
        private(m, root, 0),
        0 <= j < k,
        k - j < 0x100_0000_0000,
        va + k <= u64::MAX,
        byte_of(m, root, va, j) is Some,
        byte_of(m, root, va, k) is Some,
    ensures
        byte_of(m, root, va, j)->0 != byte_of(m, root, va, k)->0,
{
    let x = (va + j) as u64;
    let y = (va + k) as u64;
    if x / 4096 == y / 4096 {
        lemma_same_page(m, root, x, y);
    } else {
        lemma_page_parts(x);
        lemma_page_parts(y);
        let (p, q) = (x as int / 0x1000, y as int / 0x1000);
        assert(0 < q - p <= 0x1000_0000);
        lemma_fundamental_div_mod(p, 0x10_0000_0000);
        lemma_fundamental_div_mod(q, 0x10_0000_0000);
        if p % 0x10_0000_0000 == q % 0x10_0000_0000 {
            assert(q - p == 0x10_0000_0000 * (q / 0x10_0000_0000 - p / 0x10_0000_0000));
        }
        assert(low(x) / 4096 != low(y) / 4096);
        lemma_split_unit(x, y, 3);
        lemma_leaf_distinct(m, root, x, y, 0);
    }
}

/// A translation keeps the offset in the page.
pub proof fn lemma_offset_in_page(s: (int, u64), va: u64)
    requires
        translation(s, va) is Some,
    ensures
        translation(s, va)->0 % 4096 == va as int % 4096,
{
    let e = s.1;
    lemma_entry_bits(e);
    lemma_page_parts(va);
    let o = out_addr(e);
    let pa = translation(s, va)->0;
    let off = va as int % 0x1000;
    lemma_fundamental_div_mod(o, 0x1000);
    if s.0 == 1 {
        let q = o / 0x4000_0000 * 0x4_0000 + va as int / 0x1000 % 0x4_0000;
        lemma_fundamental_div_mod_converse(pa, 0x1000, q, off);
    } else if s.0 == 2 {
        let q = o / 0x20_0000 * 0x200 + va as int / 0x1000 % 0x200;
        lemma_fundamental_div_mod_converse(pa, 0x1000, q, off);
    } else {
        lemma_fundamental_div_mod_converse(pa, 0x1000, o / 0x1000, off);
    }
}

// ---------------------------------------------------------------------------
// Laws.
// ---------------------------------------------------------------------------

proof fn lemma_low_in_range(va: u64, len: int, v: u64)
    requires
        0 <= len,
        low(va) + len <= 0x1_0000_0000_0000,
        va <= v < va + len,
    ensures
        low(v) - low(va) == v - va,
        within(va, len, v),
{
    lemma_fundamental_div_mod(va as int, 0x1_0000_0000_0000);
    lemma_fundamental_div_mod_converse(
        v as int,
        0x1_0000_0000_0000,
        va as int / 0x1_0000_0000_0000,
        low(va) + (v - va),
    );
}

/// An address of a range that has been mapped leads to the same place in the
/// physical range, and is in no case anybody's who may not have it: EL0 reads
/// and writes it exactly as the attributes say.
pub proof fn lemma_mapped_address_translates(
    a: &mut Allocator,
    m: &mut Memory,
    root: Frame,
    va: u64,
    pa: u64,
    size: u64,
    attrs: Attributes,
    v: u64,
    to: Option<u64>,
    leaf: Option<u64>,
)
    requires
        range_ok(va, pa, size, attrs),
        call_ensures(map_range, (a, m, root, va, pa, size, attrs), ()),
        va <= v < va + size,
        call_ensures(translate, (&*final(m), root, v), to),
        call_ensures(lookup, (&*final(m), root, v), leaf),
    ensures
        to == Some((pa + (v - va)) as u64),
        leaf is Some,
        access(leaf->0) == access(attrs.0),
        leaf->0 & PXN == attrs.0 & PXN,
        leaf->0 & UXN == attrs.0 & UXN,
{
    let len = frames::round_up(size as int);
    lemma_low_in_range(va, len, v);
    lemma_range_translates(va, pa, size, attrs, v);
}

/// An address outside the pages of the range leads where it led before.
pub proof fn lemma_other_addresses_are_kept(
    a: &mut Allocator,
    m: &mut Memory,
    root: Frame,
    va: u64,
    pa: u64,
    size: u64,
    attrs: Attributes,
    v: u64,
    before: Option<u64>,
    after: Option<u64>,
)
    requires
        range_ok(va, pa, size, attrs),
        call_ensures(map_range, (a, m, root, va, pa, size, attrs), ()),
        va < 0x1_0000_0000_0000,
        v < 0x1_0000_0000_0000,
        v < va || v >= va + frames::round_up(size as int),
        call_ensures(translate, (&*old(m), root, v), before),
        call_ensures(translate, (&*final(m), root, v), after),
    ensures
        after == before,
{
    assert(low(va) == va);
    assert(low(v) == v);
    let (s, t) = (stop(*final(m), root.0 as int, v, 0), stop(*old(m), root.0 as int, v, 0));
    assert(same_leaf(s, t));
}

/// What is mapped for a user task is the user's: data to read and write, code
/// to read and execute, and neither for the kernel to execute. What is mapped
/// for the kernel is not.
pub proof fn lemma_what_attributes_grant(
    text: Attributes,
    rodata: Attributes,
    data: Attributes,
    device: Attributes,
    user_data: Attributes,
    user_text: Attributes,
)
    requires
        call_ensures(Attributes::kernel_text, (), text),
        call_ensures(Attributes::kernel_rodata, (), rodata),
        call_ensures(Attributes::kernel_data, (), data),
        call_ensures(Attributes::device, (), device),
        call_ensures(Attributes::user_data, (), user_data),
        call_ensures(Attributes::user_text, (), user_text),
    ensures
        access(user_data.0) == 1,
        access(user_text.0) == 3,
        access(text.0) == 2 && access(rodata.0) == 2,
        access(data.0) == 0 && access(device.0) == 0,
        text.0 & 0x20_0000_0000_0000 == 0,
        rodata.0 & 0x20_0000_0000_0000 != 0 && data.0 & 0x20_0000_0000_0000 != 0,
        device.0 & 0x20_0000_0000_0000 != 0 && user_data.0 & 0x20_0000_0000_0000 != 0,
        user_text.0 & 0x20_0000_0000_0000 != 0,
        user_text.0 & 0x40_0000_0000_0000 == 0,
        text.0 & 0x40_0000_0000_0000 != 0 && rodata.0 & 0x40_0000_0000_0000 != 0,
        data.0 & 0x40_0000_0000_0000 != 0 && device.0 & 0x40_0000_0000_0000 != 0,
        user_data.0 & 0x40_0000_0000_0000 != 0,
        (device.0 >> 2) & 7 == 0,
        (text.0 >> 2) & 7 == 1 && (data.0 >> 2) & 7 == 1 && (user_data.0 >> 2) & 7 == 1,
{
}

/// EL0 may read, or write, a range exactly if the range ends where addresses
/// end and every address in it is mapped for EL0 to read, or to write.
pub proof fn lemma_user_access_is_by_the_byte(
    m: Memory,
    root: Frame,
    va: u64,
    len: u64,
    readable: bool,
    writable: bool,
    v: u64,
    leaf: Option<u64>,
)
    requires
        len > 0,
        call_ensures(user_readable, (&m, root, va, len), readable),
        call_ensures(user_writable, (&m, root, va, len), writable),
        va <= v < va + len,
        call_ensures(lookup, (&m, root, v), leaf),
    ensures
        readable ==> va + len <= 0x1_0000_0000_0000 && leaf is Some && (access(leaf->0) == 1
            || access(leaf->0) == 3),
        writable ==> readable && leaf is Some && access(leaf->0) == 1,
        leaf is None || access(leaf->0) == 0 || access(leaf->0) == 2 ==> !readable && !writable,
        leaf is Some && access(leaf->0) == 3 ==> !writable,
        va + len > 0x1_0000_0000_0000 ==> !readable && !writable,
{
    let s = stop(m, root.0 as int, v, 0);
    if writable {
        assert forall|w: u64| va <= w < va + len implies permits(
            #[trigger] stop(m, root.0 as int, w, 0),
            false,
        ) by {
            assert(permits(stop(m, root.0 as int, w, 0), true));
        }
    }
    if readable {
        assert(permits(s, false));
    }
    if writable {
        assert(permits(s, true));
    }
}

/// A byte may be read exactly if it is in the low half and has a leaf that lets
/// EL0 read, and written exactly if the leaf lets it write.
pub proof fn lemma_one_byte_goes_by_its_leaf(
    m: Memory,
    root: Frame,
    va: u64,
    readable: bool,
    writable: bool,
    leaf: Option<u64>,
)
    requires
        call_ensures(user_readable, (&m, root, va, 1u64), readable),
        call_ensures(user_writable, (&m, root, va, 1u64), writable),
        call_ensures(lookup, (&m, root, va), leaf),
    ensures
        readable <==> va < 0x1_0000_0000_0000 && leaf is Some && access(leaf->0) % 2 == 1,
        writable <==> va < 0x1_0000_0000_0000 && leaf is Some && access(leaf->0) == 1,
{
    let s = stop(m, root.0 as int, va, 0);
    let e = s.1;
    assert((e >> 6u64) & 3u64 < 4) by (bit_vector);
    assert(readable ==> permits(s, false));
    assert(writable ==> permits(s, true));
}

/// A range may be used exactly if both parts of it may, wherever it is cut; and
/// nothing at all may always be.
pub proof fn lemma_user_access_adds_up(
    m: Memory,
    root: Frame,
    va: u64,
    one: u64,
    two: u64,
    whole: bool,
    first: bool,
    second: bool,
    none: bool,
    write: bool,
)
    requires
        va + one + two <= u64::MAX,
        one > 0,
        two > 0,
        write ==> {
            &&& call_ensures(user_writable, (&m, root, va, (one + two) as u64), whole)
            &&& call_ensures(user_writable, (&m, root, va, one), first)
            &&& call_ensures(user_writable, (&m, root, (va + one) as u64, two), second)
            &&& call_ensures(user_writable, (&m, root, va, 0u64), none)
        },
        !write ==> {
            &&& call_ensures(user_readable, (&m, root, va, (one + two) as u64), whole)
            &&& call_ensures(user_readable, (&m, root, va, one), first)
            &&& call_ensures(user_readable, (&m, root, (va + one) as u64, two), second)
            &&& call_ensures(user_readable, (&m, root, va, 0u64), none)
        },
    ensures
        whole <==> first && second,
        none,
{
    let r = root.0 as int;
    if whole {
        assert forall|v: u64| va <= v < va + one + two implies permits(
            #[trigger] stop(m, r, v, 0),
            write,
        ) by {}
    }
}

/// Everything that is mapped, and nothing else, has a leaf; a translation keeps
/// the place in the page.
pub proof fn lemma_translation_keeps_the_page_offset(
    m: Memory,
    root: Frame,
    v: u64,
    to: Option<u64>,
    leaf: Option<u64>,
)
    requires
        call_ensures(translate, (&m, root, v), to),
        call_ensures(lookup, (&m, root, v), leaf),
    ensures
        to is Some ==> leaf is Some && to->0 % 4096 == v % 4096,
        leaf is None ==> to is None,
        leaf is Some ==> leaf->0 & 1 != 0,
{
    let s = stop(m, root.0 as int, v, 0);
    lemma_entry_bits(s.1);
    if to is Some {
        lemma_offset_kept(s, v);
    }
}

#[verifier::spinoff_prover]
proof fn lemma_offset_kept(s: (int, u64), v: u64)
    requires
        translation(s, v) is Some,
        out_addr(s.1) % 4096 == 0,
    ensures
        translation(s, v)->0 % 4096 == v as int % 4096,
{
    let o = out_addr(s.1);
    let w = v as int;
    assert((o / 0x4000_0000 * 0x4000_0000 + w % 0x4000_0000) % 4096 == w % 4096);
    assert((o / 0x20_0000 * 0x20_0000 + w % 0x20_0000) % 4096 == w % 4096);
    assert((o + w % 0x1000) % 4096 == w % 4096);
}

/// A new address space has nothing in it: no address leads anywhere, and EL0
/// may touch none of it.
pub proof fn lemma_new_space_is_empty(
    a: &mut Allocator,
    m: &mut Memory,
    space: AddressSpace,
    v: u64,
    to: Option<u64>,
    readable: bool,
)
    requires
        call_ensures(AddressSpace::new, (a, m), space),
        call_ensures(translate, (&*final(m), space.root, v), to),
        call_ensures(user_readable, (&*final(m), space.root, v, 1u64), readable),
    ensures
        to is None,
        !readable,
        !old(a).taken().contains(space.root.0 as int),
        final(a).taken().contains(space.root.0 as int),
        final(a).free_count() == old(a).free_count() - 1,
{
    assert(0u64 & 1 == 0) by (bit_vector);
    assert(stop(*final(m), space.root.0 as int, v, 0) == (0int, 0u64));
    if readable {
        assert(permits(stop(*final(m), space.root.0 as int, v, 0), false));
    }
}

/// What is mapped into an address space is found there.
pub proof fn lemma_space_maps_what_it_is_told(
    space: AddressSpace,
    a: &mut Allocator,
    m: &mut Memory,
    va: u64,
    pa: u64,
    size: u64,
    attrs: Attributes,
    v: u64,
    to: Option<u64>,
    leaf: Option<u64>,
)
    requires
        range_ok(va, pa, size, attrs),
        call_ensures(AddressSpace::map, (&space, a, m, va, pa, size, attrs), ()),
        va <= v < va + size,
        call_ensures(translate, (&*final(m), space.root, v), to),
        call_ensures(lookup, (&*final(m), space.root, v), leaf),
    ensures
        to == Some((pa + (v - va)) as u64),
        leaf is Some && access(leaf->0) == access(attrs.0),
{
    let len = frames::round_up(size as int);
    lemma_low_in_range(va, len, v);
    lemma_range_translates(va, pa, size, attrs, v);
}

/// Destroying an address space gives back everything it had: the root, every
/// table, and the frame of every address that led anywhere. Nobody else's
/// frames are.
pub proof fn lemma_destroyed_space_gives_all_back(
    space: AddressSpace,
    a: &mut Allocator,
    m: Memory,
    v: u64,
    to: Option<u64>,
    f: int,
)
    requires
        old(a).wf(),
        owns(m, space.root.0 as int, old(a).taken()),
        call_ensures(AddressSpace::destroy, (space, a, &m), ()),
        call_ensures(translate, (&m, space.root, v), to),
    ensures
        !final(a).taken().contains(space.root.0 as int),
        to is Some ==> old(a).taken().contains(frames::round_down(to->0 as int))
            && !final(a).taken().contains(frames::round_down(to->0 as int)),
        old(a).taken().contains(f) && !owned(m, space.root.0 as int).contains(f)
            ==> final(a).taken().contains(f),
        final(a).taken().contains(f) ==> old(a).taken().contains(f),
        final(a).free_count() - old(a).free_count() == owned(m, space.root.0 as int).len(),
{
    let root = space.root.0 as int;
    assert(tables(m, root, 0).contains(root));
    assert(owned(m, root).contains(root));
    if to is Some {
        lemma_leaf_frame(m, root, v, 0);
        assert(leaves(m, root, 0).contains(frames::round_down(to->0 as int)));
        assert(owned(m, root).contains(frames::round_down(to->0 as int)));
    }
}

/// A copy that works has copied: what is read at the destination afterwards is
/// what was read at the source before.
pub proof fn lemma_copied_is_read_back(
    m: &mut Memory,
    src_root: Frame,
    src_va: u64,
    dst_root: Frame,
    dst_va: u64,
    len: u64,
    before: Vec<u8>,
    k: int,
    to: Option<u64>,
)
    requires
        old(m).wf(),
        src_va + len <= u64::MAX,
        dst_va + len <= u64::MAX,
        len <= usize::MAX,
        call_ensures(copy_across, (m, src_root, src_va, dst_root, dst_va, len), true),
        call_ensures(read_user, (&*old(m), src_root, src_va, len as usize), before),
        0 <= k < len,
        call_ensures(translate, (&*old(m), dst_root, (dst_va + k) as u64), to),
    ensures
        to is Some,
        final(m).byte_at(to->0 as int) == before@[k],
        before@.len() == len,
{
    let (s, d) = (src_root.0 as int, dst_root.0 as int);
    let n = choose|n: int|
        {
            &&& 0 <= n <= len
            &&& #[trigger] both_mapped(*old(m), s, src_va, d, dst_va, n)
            &&& n < len ==> !both_mapped(*old(m), s, src_va, d, dst_va, n + 1)
            &&& copied(*old(m), *final(m), s, src_va, d, dst_va, n)
        };
    if n < len {
        assert(both_mapped(*old(m), s, src_va, d, dst_va, n + 1));
    }
    assert(byte_of(*old(m), d, dst_va, k) is Some);
}

/// What is read through an address space is, byte for byte, what lies where its
/// addresses lead.
pub proof fn lemma_user_bytes_are_translated(
    m: Memory,
    root: Frame,
    va: u64,
    len: usize,
    r: Vec<u8>,
    k: int,
    to: Option<u64>,
)
    requires
        va + len <= u64::MAX,
        call_ensures(read_user, (&m, root, va, len), r),
        0 <= k < len,
        call_ensures(translate, (&m, root, (va + k) as u64), to),
        to is Some,
    ensures
        r@.len() == len,
        r@[k] == m.byte_at(to->0 as int),
{
}

/// The kernel's own map is the identity, from either half, for everything it
/// maps: its code can be executed and not written, its constants neither, its
/// data and the rest of RAM written and not executed, the devices likewise and
/// as devices; and EL0 may touch none of it. Nothing else is mapped.
pub proof fn lemma_kernel_map_is_the_identity(
    a: &mut Allocator,
    m: &mut Memory,
    layout: Layout,
    r: (Frame, Frame),
    high: bool,
    v: u64,
    to: Option<u64>,
    leaf: Option<u64>,
)
    requires
        layout.ok(old(a).base(), old(a).length()),
        call_ensures(build_tables, (a, m, layout), r),
        v < 0x1_0000_0000_0000,
        ({
            let root = if high {
                r.1
            } else {
                r.0
            };
            &&& call_ensures(translate, (&*final(m), root, v), to)
            &&& call_ensures(lookup, (&*final(m), root, v), leaf)
        }),
    ensures
        to is Some ==> to->0 == v && leaf is Some && (access(leaf->0) == 0 || access(leaf->0) == 2)
            && leaf->0 & 0x40_0000_0000_0000 != 0,
        layout.text_start <= v < layout.text_end ==> to is Some && access(leaf->0) == 2 && leaf->0
            & 0x20_0000_0000_0000 == 0,
        layout.rodata_start <= v < layout.rodata_end ==> to is Some && access(leaf->0) == 2
            && leaf->0 & 0x20_0000_0000_0000 != 0,
        layout.data_start <= v < old(a).base() + old(a).length() ==> to is Some && access(leaf->0)
            == 0 && leaf->0 & 0x20_0000_0000_0000 != 0,
        DEVICE_BASE <= v < DEVICE_BASE + DEVICE_SIZE ==> to is Some && access(leaf->0) == 0
            && leaf->0 & 0x20_0000_0000_0000 != 0,
        v >= old(a).base() + old(a).length() || v < DEVICE_BASE || DEVICE_BASE + DEVICE_SIZE <= v
            < old(a).base() ==> to is None && leaf is None,
{
    let root = if high {
        (r.1).0 as int
    } else {
        (r.0).0 as int
    };
    let (base, len) = (old(a).base(), old(a).length());
    let all = layout.ranges(base, len, 0);
    lemma_layout(layout, base, len, 0);
    lemma_attributes();
    assert(low(v) == v);
    let s = stop(*final(m), root, v, 0);
    if valid(s.1) {
        lemma_kernel_permissions(*final(m), root, layout, base, len, v);
    }
    if exists|i: int| 0 <= i < 6 && (#[trigger] all[i]).covers(v) {
        let i = choose|i: int| 0 <= i < 6 && (#[trigger] all[i]).covers(v);
        lemma_range_translates(all[i].va, all[i].pa, all[i].size, all[i].attrs, v);
    }
    lemma_kernel_cover(layout, base, len, v);
}

/// Which of the kernel's ranges an address is in.
#[verifier::spinoff_prover]
#[verifier::rlimit(40)]
proof fn lemma_kernel_cover(layout: Layout, base: int, len: int, v: u64)
    requires
        layout.ok(base, len),
        v < 0x1_0000_0000_0000,
    ensures
        ({
            let all = layout.ranges(base, len, 0);
            &&& layout.text_start <= v < layout.text_end ==> all[1].covers(v)
            &&& layout.rodata_start <= v < layout.rodata_end ==> all[2].covers(v)
            &&& layout.data_start <= v < layout.kernel_end ==> all[3].covers(v)
            &&& layout.kernel_end <= v < base + len ==> all[4].covers(v)
            &&& DEVICE_BASE <= v < DEVICE_BASE + DEVICE_SIZE ==> all[5].covers(v)
            &&& v >= base + len || v < DEVICE_BASE || DEVICE_BASE + DEVICE_SIZE <= v < base
                ==> forall|i: int| 0 <= i < 6 ==> !(#[trigger] all[i]).covers(v)
        }),
{
    let all = layout.ranges(base, len, 0);
    lemma_layout(layout, base, len, 0);
    assert(low(v) == v);
    assert(frames::round_up(DEVICE_SIZE as int) == DEVICE_SIZE);
    assert(forall|i: int| 0 <= i < 6 ==> low((#[trigger] all[i]).va) == all[i].pa);
}

/// Switching the low half's walks off and on again touches that one bit, and
/// is what the configuration reports; nothing else of it depends on which half
/// is walked.
pub proof fn lemma_low_walks_are_switched(
    sctlr: u64,
    tcr: u64,
    off: u64,
    on: u64,
    before: Config,
    while_off: Config,
    after: Config,
)
    requires
        call_ensures(finish_high_half, (tcr,), off),
        call_ensures(enable_user_translation, (off,), on),
        call_ensures(config, (sctlr, tcr), before),
        call_ensures(config, (sctlr, off), while_off),
        call_ensures(config, (sctlr, on), after),
    ensures
        !while_off.low_walks,
        after.low_walks,
        before.low_walks ==> on == tcr,
        before.low_walks <==> tcr / 128 % 2 == 0,
        before.mmu <==> sctlr % 2 == 1,
        before.data_cache <==> sctlr / 4 % 2 == 1,
        before.instruction_cache <==> sctlr / 0x1000 % 2 == 1,
        before.mmu == after.mmu && before.data_cache == after.data_cache
            && before.instruction_cache == after.instruction_cache,
{
    assert(off & 0x80 != 0 && off & !0x80u64 == tcr & !0x80u64 && on == off & !0x80u64
        ==> (tcr & 0x80 == 0 ==> on == tcr)) by (bit_vector);
    assert((tcr & 0x80 == 0) == (tcr / 128 % 2 == 0) && (sctlr & 1 != 0) == (sctlr % 2 == 1) && (
    sctlr & 4 != 0) == (sctlr / 4 % 2 == 1) && (sctlr & 0x1000 != 0) == (sctlr / 0x1000 % 2 == 1))
        by (bit_vector);
}

/// Both halves are walked alike, by pages of 4 KiB from 48 bits of address, and
/// as much physical address is asked for as the machine says it has, up to 48
/// bits.
pub proof fn lemma_both_halves_are_walked(mmfr0: u64, range: u64, tcr: u64)
    requires
        call_ensures(parange, (mmfr0,), range),
        call_ensures(tcr_value, (mmfr0,), tcr),
    ensures
        range <= 5,
        mmfr0 % 16 <= 5 ==> range == mmfr0 % 16,
        mmfr0 % 16 > 5 ==> range == 5,
        tcr / 0x1_0000_0000 == range,
        tcr % 64 == 16 && tcr / 0x1_0000 % 64 == 16,
        tcr / 0x4000 % 4 == 0 && tcr / 0x4000_0000 % 4 == 2,
        tcr / 0x100 % 64 == tcr / 0x100_0000 % 64,
        tcr / 128 % 2 == 0,
{
    let r = if mmfr0 % 16 < 5 {
        mmfr0 % 16
    } else {
        5
    };
    assert(tcr & 0x3f == 16 && (tcr >> 16) & 0x3f == 16 && (tcr >> 8) & 3 == 1 && (tcr >> 10) & 3
        == 1 && (tcr >> 12) & 3 == 3 && (tcr >> 24) & 3 == 1 && (tcr >> 26) & 3 == 1 && (tcr >> 28)
        & 3 == 3 && (tcr >> 14) & 3 == 0 && (tcr >> 30) & 3 == 2 && (tcr >> 6) & 3 == 0 && (tcr
        >> 32) & 7 == r && tcr >> 35 == 0 ==> tcr / 0x1_0000_0000 == r && tcr % 64 == 16 && tcr
        / 0x1_0000 % 64 == 16 && tcr / 0x4000 % 4 == 0 && tcr / 0x4000_0000 % 4 == 2 && tcr / 0x100
        % 64 == tcr / 0x100_0000 % 64 && tcr / 128 % 2 == 0) by (bit_vector);
}

/// A copy touches nothing but the bytes it copies to: what no address of the
/// destination leads to is as it was.
pub proof fn lemma_copy_touches_nothing_else(
    m: &mut Memory,
    src_root: Frame,
    src_va: u64,
    dst_root: Frame,
    dst_va: u64,
    len: u64,
    r: bool,
    pa: int,
)
    requires
        call_ensures(copy_across, (m, src_root, src_va, dst_root, dst_va, len), r),
        old(m).has(pa, 1),
        forall|k: int|
            0 <= k < len ==> #[trigger] byte_of(*old(m), dst_root.0 as int, dst_va, k) != Some(pa),
    ensures
        final(m).byte_at(pa) == old(m).byte_at(pa),
        final(m).base == old(m).base,
        final(m).bytes@.len() == old(m).bytes@.len(),
{
}

} // verus!
