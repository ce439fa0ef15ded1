//! The GICv2 interrupt controller: what to write to it, and when.
//!
//! The distributor is global and decides which interrupts are enabled, what
//! priority each has, and which core gets it. The CPU interface is per core,
//! and is where a core claims an interrupt and says which priorities it does
//! not want to be bothered with. Both must be enabled or nothing happens.

use vstd::arithmetic::power2::{lemma2_to64, lemma_pow2_strictly_increases, pow2};
use vstd::prelude::*;

verus! {

/// Distributor base on the QEMU `virt` machine.
pub const GICD_BASE: u64 = 0x0800_0000;

/// CPU interface base on the QEMU `virt` machine.
pub const GICC_BASE: u64 = 0x0801_0000;

/// Distributor control.
pub const GICD_CTLR: u64 = 0x000;

/// Controller type, which tells how many lines there are.
pub const GICD_TYPER: u64 = 0x004;

/// Group, 1 bit per interrupt.
pub const GICD_IGROUPR: u64 = 0x080;

/// Set enable, 1 bit per interrupt.
pub const GICD_ISENABLER: u64 = 0x100;

/// Clear enable, 1 bit per interrupt.
pub const GICD_ICENABLER: u64 = 0x180;

/// Clear pending, 1 bit per interrupt.
pub const GICD_ICPENDR: u64 = 0x280;

/// Priority, 1 byte per interrupt.
pub const GICD_IPRIORITYR: u64 = 0x400;

/// Target core, 1 byte per interrupt.
pub const GICD_ITARGETSR: u64 = 0x800;

/// CPU interface control.
pub const GICC_CTLR: u64 = 0x00;

/// Priority mask.
pub const GICC_PMR: u64 = 0x04;

/// Binary point, preemption grouping.
pub const GICC_BPR: u64 = 0x08;

/// Acknowledge. Reading it claims the interrupt.
pub const GICC_IAR: u64 = 0x0c;

/// End of interrupt.
pub const GICC_EOIR: u64 = 0x10;

/// What claiming an interrupt returns when there was nothing to claim after
/// all. Must not be released.
pub const SPURIOUS_INTID: u32 = 1023;

/// Priority given to everything. Mid range, so there is room either side of
/// it. Lower values are higher priority.
pub const DEFAULT_PRIORITY: u8 = 0xa0;

/// One write to the controller.
#[derive(Clone, Copy, PartialEq, Eq, Debug, Structural)]
pub enum Write {
    Word { address: u64, value: u32 },
    Byte { address: u64, byte: u8 },
}

/// How many interrupt IDs a distributor implements, from its type register:
/// the low five bits count lines in units of 32, minus one.
pub fn num_interrupts(typer: u32) -> (r: u32)
    ensures
        r == 32 * (typer % 32 + 1),
        32 <= r <= 1024,
        r % 32 == 0,
{
    assert(typer & 0x1f == typer % 32) by (bit_vector);
    32 * ((typer & 0x1f) + 1)
}

/// The `i`th write of clearing the state of every line: three per 32 lines.
pub open spec fn clear_write(i: int) -> Write {
    let offset = GICD_BASE + i / 3 * 4;
    if i % 3 == 0 {
        Write::Word { address: (offset + GICD_ICENABLER) as u64, value: 0xffff_ffff }
    } else if i % 3 == 1 {
        Write::Word { address: (offset + GICD_ICPENDR) as u64, value: 0xffff_ffff }
    } else {
        Write::Word { address: (offset + GICD_IGROUPR) as u64, value: 0 }
    }
}

/// Give line `i` the default priority.
pub open spec fn priority_write(i: int) -> Write {
    Write::Byte { address: (GICD_BASE + GICD_IPRIORITYR + i) as u64, byte: DEFAULT_PRIORITY }
}

/// Send line `i` to core 0.
pub open spec fn target_write(i: int) -> Write {
    Write::Byte { address: (GICD_BASE + GICD_ITARGETSR + i) as u64, byte: 1 }
}

/// Everything that brings the controller up, in order: quiet while it is
/// reconfigured, every line disabled and not pending and in group 0, every
/// line at the default priority, every shared line sent to core 0, and then
/// the distributor and the CPU interface let go.
pub open spec fn init_writes(lines: int) -> Seq<Write> {
    seq![Write::Word { address: GICD_BASE, value: 0 }]
        + Seq::new((lines / 32 * 3) as nat, |i: int| clear_write(i))
        + Seq::new(lines as nat, |i: int| priority_write(i))
        + Seq::new((lines - 32) as nat, |i: int| target_write(i + 32))
        + seq![
        Write::Word { address: GICD_BASE, value: 1 },
        Write::Word { address: 0x0801_0004, value: 0xff },
        Write::Word { address: 0x0801_0008, value: 0 },
        Write::Word { address: GICC_BASE, value: 1 },
    ]
}

/// Bring up the distributor and this core's CPU interface, given the
/// distributor's type register.
pub fn init(typer: u32) -> (r: Vec<Write>)
    ensures
        r@ == init_writes(32 * (typer % 32 + 1)),
{
    let lines: u32 = num_interrupts(typer);
    let ghost quiet = seq![Write::Word { address: GICD_BASE, value: 0 }];
    let mut writes: Vec<Write> = Vec::new();
    // Quiet while we reconfigure.
    writes.push(Write::Word { address: GICD_BASE + GICD_CTLR, value: 0 });
    let mut reg: u32 = 0;
    // Start from a known state rather than trusting whatever firmware left.
    while reg < lines / 32
        invariant
            reg <= lines / 32,
            lines <= 1024,
            quiet.len() == 1,
            writes@ == quiet + Seq::new((reg * 3) as nat, |i: int| clear_write(i)),
        decreases lines / 32 - reg,
    {
        let offset: u64 = GICD_BASE + reg as u64 * 4;
        writes.push(Write::Word { address: offset + GICD_ICENABLER, value: 0xffff_ffff });
        writes.push(Write::Word { address: offset + GICD_ICPENDR, value: 0xffff_ffff });
        // Everything in group 0, which is what the CPU interface forwards.
        writes.push(Write::Word { address: offset + GICD_IGROUPR, value: 0 });
        reg += 1;
        proof {
            let k = reg as int - 1;
            assert(clear_write(3 * k) == writes@[3 * k + 1]);
            assert(clear_write(3 * k + 1) == writes@[3 * k + 2]);
            assert(clear_write(3 * k + 2) == writes@[3 * k + 3]);
            assert(writes@ =~= quiet + Seq::new((reg * 3) as nat, |i: int| clear_write(i)));
        }
    }
    let ghost cleared = writes@;
    let mut intid: u32 = 0;
    while intid < lines
        invariant
            intid <= lines <= 1024,
            writes@ == cleared + Seq::new(intid as nat, |i: int| priority_write(i)),
        decreases lines - intid,
    {
        writes.push(
            Write::Byte {
                address: GICD_BASE + GICD_IPRIORITYR + intid as u64,
                byte: DEFAULT_PRIORITY,
            },
        );
        intid += 1;
        assert(writes@ =~= cleared + Seq::new(intid as nat, |i: int| priority_write(i)));
    }
    let ghost ranked = writes@;
    // The first 32 lines are banked per core and read only here.
    let mut intid: u32 = 32;
    while intid < lines
        invariant
            32 <= intid <= lines <= 1024,
            writes@ == ranked + Seq::new((intid - 32) as nat, |i: int| target_write(i + 32)),
        decreases lines - intid,
    {
        writes.push(
            Write::Byte { address: GICD_BASE + GICD_ITARGETSR + intid as u64, byte: 1 },
        );
        intid += 1;
        assert(writes@ =~= ranked + Seq::new(
            (intid - 32) as nat,
            |i: int| target_write(i + 32),
        ));
    }
    writes.push(Write::Word { address: GICD_BASE + GICD_CTLR, value: 1 });
    // The mask resets to masking every priority there is.
    writes.push(Write::Word { address: GICC_BASE + GICC_PMR, value: 0xff });
    writes.push(Write::Word { address: GICC_BASE + GICC_BPR, value: 0 });
    writes.push(Write::Word { address: GICC_BASE + GICC_CTLR, value: 1 });
    assert(writes@ =~= init_writes(lines as int));
    writes
}

/// The write that allows `intid` to be delivered.
pub open spec fn enable_write(intid: u32) -> Write {
    Write::Word {
        address: (GICD_BASE + GICD_ISENABLER + intid / 32 * 4) as u64,
        value: 1u32 << (intid % 32),
    }
}

/// Allow `intid` to be delivered.
pub fn enable(intid: u32) -> (r: Write)
    ensures
        r == enable_write(intid),
{
    let reg: u64 = (intid / 32) as u64 * 4;
    Write::Word { address: GICD_BASE + GICD_ISENABLER + reg, value: 1u32 << (intid % 32) }
}

/// Where to read to claim the pending interrupt. To be read exactly once per
/// delivery: reading it is what takes ownership.
pub fn acknowledge() -> (address: u64)
    ensures
        address == GICC_BASE + GICC_IAR,
{
    GICC_BASE + GICC_IAR
}

/// Release `intid`. Until this is done, nothing of equal or lower priority is
/// delivered again.
pub fn end_of_interrupt(intid: u32) -> (r: Write)
    ensures
        r == (Write::Word { address: (GICC_BASE + GICC_EOIR) as u64, value: intid }),
{
    Write::Word { address: GICC_BASE + GICC_EOIR, value: intid }
}

/// Bringing the controller up leaves every line disabled: nothing in it enables
/// a line, and every line is disabled by it.
pub proof fn lemma_starts_silent(lines: int, intid: int)
    requires
        lines % 32 == 0,
        32 <= lines <= 1024,
        0 <= intid < lines,
    ensures
        init_writes(lines).contains(
            Write::Word {
                address: (GICD_BASE + GICD_ICENABLER + intid / 32 * 4) as u64,
                value: 0xffff_ffff,
            },
        ),
        forall|i: int, j: u32|
            0 <= i < init_writes(lines).len() && j < lines ==> #[trigger] init_writes(lines)[i]
                != #[trigger] enable_write(j),
{
    let all = init_writes(lines);
    let k = intid / 32;
    assert(all[1 + 3 * k] == clear_write(3 * k));
    assert forall|i: int, j: u32| 0 <= i < all.len() && j < lines implies #[trigger] all[i]
        != #[trigger] enable_write(j) by {
        let c = lines / 32 * 3;
        if 1 <= i < 1 + c {
            assert(all[i] == clear_write(i - 1));
        } else if 1 + c <= i < 1 + c + lines {
            assert(all[i] == priority_write(i - 1 - c));
        } else if 1 + c + lines <= i < 1 + c + lines + lines - 32 {
            assert(all[i] == target_write(i - 1 - c - lines + 32));
        }
    }
}

/// Enabling a line writes one bit: the line's own, in the register of its
/// thirty-two. No two lines are enabled by the same write.
pub proof fn lemma_enable_is_one_line(one: u32, two: u32, a: Write, b: Write)
    requires
        call_ensures(enable, (one,), a),
        call_ensures(enable, (two,), b),
    ensures
        a is Word,
        a->Word_address == 0x0800_0100 + one / 32 * 4,
        a->value == pow2((one % 32) as nat),
        a == b ==> one == two,
{
    let (x, y) = (one % 32, two % 32);
    lemma_bit(x);
    lemma_bit(y);
    if x < y {
        lemma_pow2_strictly_increases(x as nat, y as nat);
    } else if y < x {
        lemma_pow2_strictly_increases(y as nat, x as nat);
    }
}

/// One bit of a word is a power of two.
proof fn lemma_bit(by: u32)
    requires
        by < 32,
    ensures
        1u32 << by == pow2(by as nat),
{
    lemma_pow2_strictly_increases(by as nat, 32);
    lemma2_to64();
    vstd::bits::lemma_u32_shl_is_mul(1, by);
}

/// Bringing the controller up configures every line there is: each gets the
/// middle priority, each that is not banked per core goes to core 0, and each
/// is disabled, not pending, and in the group that is forwarded.
pub proof fn lemma_every_line_is_configured(typer: u32, lines: u32, r: Vec<Write>, line: int)
    requires
        call_ensures(num_interrupts, (typer,), lines),
        call_ensures(init, (typer,), r),
        0 <= line < lines,
    ensures
        r@.contains(Write::Byte { address: (0x0800_0400 + line) as u64, byte: 0xa0 }),
        line >= 32 ==> r@.contains(Write::Byte { address: (0x0800_0800 + line) as u64, byte: 1 }),
        r@.contains(
            Write::Word { address: (0x0800_0180 + line / 32 * 4) as u64, value: 0xffff_ffff },
        ),
        r@.contains(
            Write::Word { address: (0x0800_0280 + line / 32 * 4) as u64, value: 0xffff_ffff },
        ),
        r@.contains(Write::Word { address: (0x0800_0080 + line / 32 * 4) as u64, value: 0 }),
{
    let n = lines as int;
    let k = line / 32;
    let c = n / 32 * 3;
    assert(r@[1 + 3 * k] == clear_write(3 * k));
    assert(r@[1 + 3 * k + 1] == clear_write(3 * k + 1));
    assert(r@[1 + 3 * k + 2] == clear_write(3 * k + 2));
    assert(r@[1 + c + line] == priority_write(line));
    if line >= 32 {
        assert(r@[1 + c + n + line - 32] == target_write(line));
    }
}

/// The controller is off while it is configured, and on afterwards: the first
/// write turns the distributor off, and the last four turn it on, let every
/// priority through, tell every two apart, and turn the CPU interface on.
pub proof fn lemma_configured_while_off(typer: u32, lines: u32, r: Vec<Write>)
    requires
        call_ensures(num_interrupts, (typer,), lines),
        call_ensures(init, (typer,), r),
    ensures
        r@.len() >= 5,
        r@[0] == (Write::Word { address: 0x0800_0000, value: 0 }),
        r@[r@.len() - 4] == (Write::Word { address: 0x0800_0000, value: 1 }),
        r@[r@.len() - 3] == (Write::Word { address: 0x0801_0004, value: 0xff }),
        r@[r@.len() - 2] == (Write::Word { address: 0x0801_0008, value: 0 }),
        r@[r@.len() - 1] == (Write::Word { address: 0x0801_0000, value: 1 }),
        forall|i: int|
            0 < i < r@.len() - 4 ==> match #[trigger] r@[i] {
                Write::Word { address, value } => 0x0800_0000 < address < 0x0801_0000,
                Write::Byte { address, byte } => 0x0800_0400 <= address < 0x0801_0000,
            },
{
    let n = lines as int;
    let c = n / 32 * 3;
    assert forall|i: int| 0 < i < r@.len() - 4 implies match #[trigger] r@[i] {
        Write::Word { address, value } => 0x0800_0000 < address < 0x0801_0000,
        Write::Byte { address, byte } => 0x0800_0400 <= address < 0x0801_0000,
    } by {
        if i < 1 + c {
            assert(r@[i] == clear_write(i - 1));
        } else if i < 1 + c + n {
            assert(r@[i] == priority_write(i - 1 - c));
        } else {
            assert(r@[i] == target_write(i - 1 - c - n + 32));
        }
    }
}

/// An interrupt is claimed and released at the CPU interface, and released by
/// the number it was claimed by.
pub proof fn lemma_claim_and_release(address: u64, intid: u32, r: Write)
    requires
        call_ensures(acknowledge, (), address),
        call_ensures(end_of_interrupt, (intid,), r),
    ensures
        address == 0x0801_000c,
        r == (Write::Word { address: 0x0801_0010, value: intid }),
{
}

} // verus!
