//! virtio over MMIO: finding the transports and agreeing on the rules.
//!
//! A virtio device is two halves. The transport is the part that is the same
//! whatever the device does: a window of registers for saying hello, agreeing
//! on features, pointing at queues, and acknowledging interrupts. The device
//! type is the part that differs, and none of it is here.

use vstd::prelude::*;

use crate::fdt;

verus! {

/// "virt" in little endian, at the front of every transport.
pub const MAGIC: u32 = 0x7472_6976;

/// The only transport version that is spoken.
pub const VERSION: u32 = 2;

/// How many slots to look at.
pub const MAX_TRANSPORTS: usize = 32;

pub const MAGIC_VALUE: u64 = 0x000;

pub const VERSION_REG: u64 = 0x004;

pub const DEVICE_ID: u64 = 0x008;

pub const DEVICE_FEATURES: u64 = 0x010;

pub const DEVICE_FEATURES_SEL: u64 = 0x014;

pub const DRIVER_FEATURES: u64 = 0x020;

pub const DRIVER_FEATURES_SEL: u64 = 0x024;

pub const INTERRUPT_STATUS: u64 = 0x060;

pub const INTERRUPT_ACK: u64 = 0x064;

pub const STATUS: u64 = 0x070;

/// We noticed the device.
pub const STATUS_ACKNOWLEDGE: u32 = 1;

/// We have a driver for it.
pub const STATUS_DRIVER: u32 = 2;

/// The driver is ready.
pub const STATUS_DRIVER_OK: u32 = 4;

/// The features are agreed. Read back, to see whether the device kept it.
pub const STATUS_FEATURES_OK: u32 = 8;

/// We gave up.
pub const STATUS_FAILED: u32 = 128;

/// Acknowledge and driver.
pub const STATUS_HELLO: u32 = 3;

/// Acknowledge, driver and features agreed.
pub const STATUS_AGREED: u32 = 11;

/// Acknowledge, driver, features agreed and ready.
pub const STATUS_READY: u32 = 15;

/// Feature bit 32: the device speaks the non-legacy specification. The one bit
/// that is insisted on.
pub const VIRTIO_F_VERSION_1: u64 = 0x1_0000_0000;

/// A source of random bytes.
pub const DEVICE_ENTROPY: u32 = 4;

/// Device ids there is a name for.
pub fn device_name(id: u32) -> (r: &'static str)
    ensures
        r@ == match id {
            0u32 => "empty"@,
            1u32 => "network"@,
            2u32 => "block"@,
            3u32 => "console"@,
            4u32 => "entropy"@,
            16u32 => "gpu"@,
            18u32 => "input"@,
            _ => "unknown"@,
        },
{
    match id {
        0 => "empty",
        1 => "network",
        2 => "block",
        3 => "console",
        4 => "entropy",
        16 => "gpu",
        18 => "input",
        _ => "unknown",
    }
}

/// Why a transport could not be brought up.
#[derive(Clone, Copy, PartialEq, Eq, Debug, Structural)]
pub enum Error {
    /// The window does not contain a virtio transport.
    NotVirtio(u32),
    /// A transport, but one whose registers are laid out differently.
    WrongVersion(u32),
    /// The device does not speak the non-legacy specification.
    Legacy,
    /// The device rejected the features it was offered.
    FeaturesRefused,
}

/// One virtio-mmio transport window.
#[derive(Clone, Copy, PartialEq, Eq, Debug, Structural)]
pub struct Transport {
    /// Physical base of the register window.
    pub base: u64,
    /// The interrupt this device raises, as the controller numbers it.
    pub intid: u32,
    pub device_id: u32,
    /// What the device offered, which is not the same as what was agreed.
    pub features: u64,
}

/// A value for one of a transport's registers.
#[derive(Clone, Copy, PartialEq, Eq, Debug, Structural)]
pub struct Write {
    pub offset: u64,
    pub value: u32,
}

/// The 64 feature bits a device is offering, from their two halves.
pub open spec fn both_halves(high: u32, low: u32) -> u64 {
    (0x1_0000_0000 * high + low) as u64
}

/// The 64 feature bits a device is offering, from their two halves.
pub fn device_features(high: u32, low: u32) -> (r: u64)
    ensures
        r == both_halves(high, low),
{
    0x1_0000_0000 * high as u64 + low as u64
}

// ---------------------------------------------------------------------------
// The handshake.
// ---------------------------------------------------------------------------

/// Where the handshake every device begins with has got to: what the value
/// that is read next will mean.
#[derive(Clone, Copy, PartialEq, Eq, Debug, Structural)]
pub enum Phase {
    /// The status, which is zero once the reset is complete.
    Resetting,
    /// The high half of what the device offers.
    OfferedHigh,
    /// The low half of what the device offers.
    OfferedLow { high: u32 },
    /// The status, which says whether the device kept the agreement.
    Confirming { agreed: u64 },
    /// Nothing: the features are agreed.
    Agreed { agreed: u64 },
    /// Nothing: the device was given up on.
    Failed { error: Error },
}

/// What to do next with a device: write these registers in order, and then
/// read that one, unless there is nothing left to find out.
#[derive(Debug)]
pub struct Ask {
    pub writes: Vec<Write>,
    pub read: Option<u64>,
}


/// What the features come to.
pub open spec fn agreement(offered: u64, wanted: u64) -> u64 {
    offered & (wanted | VIRTIO_F_VERSION_1)
}

/// Where the handshake goes from `phase` when `value` has been read.
pub open spec fn next_phase(phase: Phase, wanted: u64, value: u32) -> Phase {
    match phase {
        Phase::Resetting => if value != 0 {
            Phase::Resetting
        } else {
            Phase::OfferedHigh
        },
        Phase::OfferedHigh => Phase::OfferedLow { high: value },
        Phase::OfferedLow { high } => {
            let offered = both_halves(high, value);
            if offered & VIRTIO_F_VERSION_1 == 0 {
                Phase::Failed { error: Error::Legacy }
            } else {
                Phase::Confirming { agreed: agreement(offered, wanted) }
            }
        },
        Phase::Confirming { agreed } => if value & STATUS_FEATURES_OK == 0 {
            Phase::Failed { error: Error::FeaturesRefused }
        } else {
            Phase::Agreed { agreed }
        },
        _ => phase,
    }
}

/// What is written on the way from `phase` to the next one.
pub open spec fn phase_writes(phase: Phase, wanted: u64, value: u32) -> Seq<Write> {
    match next_phase(phase, wanted, value) {
        Phase::OfferedHigh => seq![
            Write { offset: STATUS, value: STATUS_ACKNOWLEDGE },
            Write { offset: STATUS, value: STATUS_HELLO },
            Write { offset: DEVICE_FEATURES_SEL, value: 1 },
        ],
        Phase::OfferedLow { .. } => seq![Write { offset: DEVICE_FEATURES_SEL, value: 0 }],
        Phase::Confirming { agreed } => seq![
            Write { offset: DRIVER_FEATURES_SEL, value: 1 },
            Write { offset: DRIVER_FEATURES, value: (agreed / 0x1_0000_0000) as u32 },
            Write { offset: DRIVER_FEATURES_SEL, value: 0 },
            Write { offset: DRIVER_FEATURES, value: (agreed % 0x1_0000_0000) as u32 },
            Write { offset: STATUS, value: STATUS_AGREED },
        ],
        Phase::Failed { .. } => if phase is Failed {
            Seq::empty()
        } else {
            seq![Write { offset: STATUS, value: STATUS_FAILED }]
        },
        _ => Seq::empty(),
    }
}

/// The register a phase waits for.
pub open spec fn phase_read(phase: Phase) -> Option<u64> {
    match phase {
        Phase::Resetting => Some(STATUS),
        Phase::OfferedHigh => Some(DEVICE_FEATURES),
        Phase::OfferedLow { .. } => Some(DEVICE_FEATURES),
        Phase::Confirming { .. } => Some(STATUS),
        _ => None,
    }
}

/// One write, and nothing else.
fn just(offset: u64, value: u32) -> (r: Vec<Write>)
    ensures
        r@ == seq![Write { offset, value }],
{
    let mut writes: Vec<Write> = Vec::new();
    writes.push(Write { offset, value });
    writes
}

impl Transport {
    /// Put the device back where it started.
    ///
    /// Writing zero to the status register is the reset, and the device is entitled
    /// to take its time about it, so it is not complete until the register reads
    /// back as zero.
    pub fn reset(&self) -> (r: Ask)
        ensures
            r.writes@ == seq![Write { offset: STATUS, value: 0 }],
            r.read == Some(STATUS),
    {
        Ask { writes: just(STATUS, 0), read: Some(STATUS) }
    }

    /// Go on with the handshake every device begins with: reset, say we noticed it,
    /// say we have a driver, agree on features, and have the device confirm the
    /// agreement. `value` is what was read.
    pub fn negotiate(&self, phase: Phase, wanted: u64, value: u32) -> (r: (Phase, Ask))
        ensures
            r.0 == next_phase(phase, wanted, value),
            r.1.writes@ == phase_writes(phase, wanted, value),
            r.1.read == phase_read(r.0),
    {
        match phase {
            Phase::Resetting => {
                if value != 0 {
                    return (phase, Ask { writes: Vec::new(), read: Some(STATUS) });
                }
                let mut writes: Vec<Write> = just(STATUS, STATUS_ACKNOWLEDGE);
                writes.push(Write { offset: STATUS, value: STATUS_HELLO });
                writes.push(Write { offset: DEVICE_FEATURES_SEL, value: 1 });
                (Phase::OfferedHigh, Ask { writes, read: Some(DEVICE_FEATURES) })
            },
            Phase::OfferedHigh => {
                let writes: Vec<Write> = just(DEVICE_FEATURES_SEL, 0);
                (Phase::OfferedLow { high: value }, Ask { writes, read: Some(DEVICE_FEATURES) })
            },
            Phase::OfferedLow { high } => {
                let offered: u64 = device_features(high, value);
                if offered & VIRTIO_F_VERSION_1 == 0 {
                    let writes: Vec<Write> = just(STATUS, STATUS_FAILED);
                    return (Phase::Failed { error: Error::Legacy }, Ask { writes, read: None });
                }
                let agreed: u64 = offered & (wanted | VIRTIO_F_VERSION_1);
                let mut writes: Vec<Write> = just(DRIVER_FEATURES_SEL, 1);
                writes.push(
                    Write { offset: DRIVER_FEATURES, value: (agreed / 0x1_0000_0000) as u32 },
                );
                writes.push(Write { offset: DRIVER_FEATURES_SEL, value: 0 });
                writes.push(
                    Write { offset: DRIVER_FEATURES, value: (agreed % 0x1_0000_0000) as u32 },
                );
                writes.push(Write { offset: STATUS, value: STATUS_AGREED });
                (Phase::Confirming { agreed }, Ask { writes, read: Some(STATUS) })
            },
            Phase::Confirming { agreed } => {
                // A device that cannot work with what was offered clears the bit.
                if value & STATUS_FEATURES_OK == 0 {
                    let writes: Vec<Write> = just(STATUS, STATUS_FAILED);
                    return (
                        Phase::Failed { error: Error::FeaturesRefused },
                        Ask { writes, read: None },
                    );
                }
                (Phase::Agreed { agreed }, Ask { writes: Vec::new(), read: None })
            },
            _ => (phase, Ask { writes: Vec::new(), read: None }),
        }
    }

    /// The device may start working: everything it needs is in place.
    pub fn set_driver_ok(&self) -> (r: Write)
        ensures
            r == (Write { offset: STATUS, value: STATUS_READY }),
    {
        Write { offset: STATUS, value: STATUS_READY }
    }

    /// Acknowledge the interrupts that `status` says the device raised.
    pub fn ack_interrupt(&self, status: u32) -> (r: Write)
        ensures
            r == (Write { offset: INTERRUPT_ACK, value: status }),
    {
        Write { offset: INTERRUPT_ACK, value: status }
    }

    /// Where to read the current status register, for anything that wants to
    /// check on a device without owning it.
    pub fn status(&self) -> (address: u64)
        requires
            self.base + STATUS <= u64::MAX,
        ensures
            address == self.base + STATUS,
    {
        self.base + STATUS
    }
}

/// Where the handshake has got to after a run of reads.
pub open spec fn after_reads(phase: Phase, wanted: u64, reads: Seq<u32>) -> Phase
    decreases reads.len(),
{
    if reads.len() == 0 {
        phase
    } else {
        next_phase(after_reads(phase, wanted, reads.drop_last()), wanted, reads.last())
    }
}

/// What is agreed is what was offered and asked for, always with the one
/// feature that is insisted on, and nothing more.
pub proof fn lemma_agreement(offered: u64, wanted: u64)
    requires
        offered & VIRTIO_F_VERSION_1 != 0,
    ensures
        agreement(offered, wanted) & VIRTIO_F_VERSION_1 == VIRTIO_F_VERSION_1,
        agreement(offered, wanted) & !offered == 0,
        agreement(offered, wanted) & !(wanted | VIRTIO_F_VERSION_1) == 0,
{
    let v: u64 = 0x1_0000_0000;
    assert((offered & (wanted | v)) & v == v && (offered & (wanted | v)) & !offered == 0 && (
    offered & (wanted | v)) & !(wanted | v) == 0) by (bit_vector)
        requires
            v == 0x1_0000_0000,
            offered & v != 0,
    ;
}

/// A handshake with a device that resets, offers what is insisted on, and keeps
/// the agreement ends in the agreement; one that does not offer it, or does not
/// keep it, is given up on.
pub proof fn lemma_handshake(wanted: u64, high: u32, low: u32, confirmed: u32)
    ensures
        ({
            let offered = both_halves(high, low);
            let end = after_reads(Phase::Resetting, wanted, seq![0, high, low, confirmed]);
            if offered & VIRTIO_F_VERSION_1 == 0 {
                end == (Phase::Failed { error: Error::Legacy })
            } else if confirmed & STATUS_FEATURES_OK == 0 {
                end == (Phase::Failed { error: Error::FeaturesRefused })
            } else {
                end == (Phase::Agreed { agreed: agreement(offered, wanted) })
            }
        }),
{
    let reads = seq![0, high, low, confirmed];
    reveal_with_fuel(after_reads, 5);
    assert(reads.drop_last() =~= seq![0, high, low]);
    assert(seq![0u32, high, low].drop_last() =~= seq![0, high]);
    assert(seq![0u32, high].drop_last() =~= seq![0]);
    assert(seq![0u32].drop_last() =~= Seq::<u32>::empty());
}

// ---------------------------------------------------------------------------
// Finding transports.
// ---------------------------------------------------------------------------

/// The window and the interrupt that a transport's node describes.
///
/// `interrupts` is three cells: which kind of interrupt, its number within that
/// kind, and how it is triggered. Shared interrupts are numbered from zero in
/// the tree and from 32 by the controller, and private ones from 16, because
/// the ids before those belong to others. A number that leaves no room for that
/// describes no interrupt.
pub open spec fn described(b: fdt::Blob, node: fdt::Node) -> Option<(u64, u64, u32)> {
    match (fdt::reg_of(b, node, 0), fdt::value_of(b, node, fdt::bytes_of("interrupts"))) {
        (Some((base, size)), Some(value)) => {
            let kind = fdt::be32(value, 0);
            let number = fdt::be32(value, 4);
            if value.len() < 8 {
                None
            } else if kind == 0 && number + 32 <= u32::MAX {
                Some((base, size, (number + 32) as u32))
            } else if kind == 1 && number + 16 <= u32::MAX {
                Some((base, size, (number + 16) as u32))
            } else {
                None
            }
        },
        _ => None,
    }
}

/// Decode a `virtio,mmio` node's window and interrupt: base, size, and the id
/// the controller knows it by.
pub fn describe(blob: &fdt::Blob, node: &fdt::Node) -> (r: Option<(u64, u64, u32)>)
    requires
        blob.wf(),
        node.offset + 4 <= u32::MAX,
    ensures
        r == described(*blob, *node),
{
    let (base, size): (u64, u64) = match blob.reg(node, 0) {
        Some(window) => window,
        None => {
            return None;
        },
    };
    let interrupts: &[u8] = match blob.property(node, "interrupts") {
        Some(interrupts) => interrupts,
        None => {
            return None;
        },
    };
    if interrupts.len() < 8 {
        return None;
    }
    let kind: u32 = fdt::read_be32(interrupts, 0);
    let number: u32 = fdt::read_be32(interrupts, 4);
    let first: u32 = if kind == 0 {
        32
    } else if kind == 1 {
        16
    } else {
        return None;
    };
    match number.checked_add(first) {
        Some(intid) => Some((base, size, intid)),
        None => None,
    }
}

/// Is there a transport this kernel speaks to in the window at `base`, going by
/// what its registers say?
pub fn probe(
    base: u64,
    intid: u32,
    magic: u32,
    version: u32,
    device_id: u32,
    features: u64,
) -> (r: Result<Transport, Error>)
    ensures
        r == if magic != MAGIC {
            Err::<Transport, Error>(Error::NotVirtio(magic))
        } else if version != VERSION {
            Err::<Transport, Error>(Error::WrongVersion(version))
        } else {
            Ok::<Transport, Error>(Transport { base, intid, device_id, features })
        },
{
    if magic != MAGIC {
        return Err(Error::NotVirtio(magic));
    }
    if version != VERSION {
        return Err(Error::WrongVersion(version));
    }
    Ok(Transport { base, intid, device_id, features })
}

/// The transports that were found to have a device in them, and how many slots
/// were looked at.
#[derive(Debug)]
pub struct Discovery {
    pub found: Vec<Transport>,
    pub slots: usize,
    /// Where in the tree the last slot was.
    pub offset: u32,
}

impl Discovery {
    /// No more slots were looked at than there is room for, and no more devices
    /// found than slots.
    pub open spec fn wf(&self) -> bool {
        &&& self.slots <= MAX_TRANSPORTS
        &&& self.found@.len() <= self.slots
    }

    /// Nothing looked at yet.
    pub fn new() -> (d: Discovery)
        ensures
            d.wf(),
            d.found@ == Seq::<Transport>::empty(),
            d.slots == 0,
            d.offset == 0,
    {
        Discovery { found: Vec::new(), slots: 0, offset: 0 }
    }

    /// The next slot to look at, if there is another one and room for it.
    pub fn next(&self, blob: &fdt::Blob) -> (r: Option<fdt::Node>)
        requires
            blob.wf(),
        ensures
            r == if self.slots >= MAX_TRANSPORTS {
                None::<fdt::Node>
            } else {
                fdt::compatible_after(*blob, fdt::bytes_of("virtio,mmio"), self.offset)
            },
    {
        if self.slots >= MAX_TRANSPORTS {
            return None;
        }
        blob.find_compatible_after("virtio,mmio", self.offset)
    }

    /// Note what was found in the slot that `node` describes. An empty slot is
    /// not a failure: it is an address reserved for a device nobody plugged in.
    pub fn note(&mut self, node: &fdt::Node, outcome: Option<Result<Transport, Error>>)
        requires
            old(self).wf(),
            old(self).slots < MAX_TRANSPORTS,
        ensures
            final(self).wf(),
            final(self).slots == old(self).slots + 1,
            final(self).offset == node.offset,
            final(self).found@ == match outcome {
                Some(Ok(transport)) => if transport.device_id == 0 {
                    old(self).found@
                } else {
                    old(self).found@.push(transport)
                },
                _ => old(self).found@,
            },
    {
        self.slots = self.slots + 1;
        self.offset = node.offset;
        match outcome {
            Some(Ok(transport)) => {
                if transport.device_id != 0 {
                    self.found.push(transport);
                }
            },
            _ => {},
        }
    }
}

/// The transports that had a device in them.
pub fn transports(d: &Discovery) -> (r: &[Transport])
    ensures
        r@ == d.found@,
{
    d.found.as_slice()
}

/// None of these is a device of a given type.
pub open spec fn absent(found: Seq<Transport>, device_id: u32) -> bool {
    forall|i: int| 0 <= i < found.len() ==> (#[trigger] found[i]).device_id != device_id
}

/// The first device of a given type, if the machine has one.
pub fn find(d: &Discovery, device_id: u32) -> (r: Option<Transport>)
    ensures
        match r {
            Some(transport) => exists|i: int|
                {
                    &&& 0 <= i < d.found@.len()
                    &&& transport == #[trigger] d.found@[i]
                    &&& transport.device_id == device_id
                    &&& forall|j: int| 0 <= j < i ==> d.found@[j].device_id != device_id
                },
            None => absent(d.found@, device_id),
        },
{
    let mut i: usize = 0;
    while i < d.found.len()
        invariant
            i <= d.found@.len(),
            forall|j: int| 0 <= j < i ==> (#[trigger] d.found@[j]).device_id != device_id,
        decreases d.found@.len() - i,
    {
        let transport = d.found[i];
        if transport.device_id == device_id {
            assert(d.found@[i as int] == transport);
            return Some(transport);
        }
        i += 1;
    }
    None
}

// ---------------------------------------------------------------------------
// Laws.
// ---------------------------------------------------------------------------

/// The two halves of what is offered are kept apart: the high half is bits 32
/// to 63, the low half bits 0 to 31.
pub proof fn lemma_features_are_two_halves(high: u32, low: u32, r: u64)
    requires
        call_ensures(device_features, (high, low), r),
    ensures
        r / 0x1_0000_0000 == high,
        r % 0x1_0000_0000 == low,
{
}

/// A device that is reset, noticed, asked what it offers, told what was agreed
/// and asked whether it keeps to it is agreed with on exactly what it offered
/// and was asked for, and always on bit 32; and it is told both halves of that
/// before it is asked. One that does not offer bit 32 is given up on before it
/// is told anything; one that clears the bit that says the features are agreed
/// is given up on after.
pub proof fn lemma_handshake_agrees(
    t: Transport,
    wanted: u64,
    high: u32,
    low: u32,
    confirmed: u32,
    start: Ask,
    one: (Phase, Ask),
    two: (Phase, Ask),
    three: (Phase, Ask),
    four: (Phase, Ask),
)
    requires
        call_ensures(Transport::reset, (&t,), start),
        call_ensures(Transport::negotiate, (&t, Phase::Resetting, wanted, 0), one),
        call_ensures(Transport::negotiate, (&t, one.0, wanted, high), two),
        call_ensures(Transport::negotiate, (&t, two.0, wanted, low), three),
        call_ensures(Transport::negotiate, (&t, three.0, wanted, confirmed), four),
    ensures
        start.writes@ == seq![Write { offset: 0x70, value: 0 }] && start.read == Some(0x70u64),
        one.1.writes@ == seq![
            Write { offset: 0x70, value: 1 },
            Write { offset: 0x70, value: 3 },
            Write { offset: 0x14, value: 1 },
        ],
        one.1.read == Some(0x10u64),
        two.1.writes@ == seq![Write { offset: 0x14, value: 0 }] && two.1.read == Some(0x10u64),
        high % 2 == 0 ==> {
            &&& three.0 == (Phase::Failed { error: Error::Legacy })
            &&& three.1.writes@ == seq![Write { offset: 0x70, value: 128 }]
            &&& three.1.read is None
            &&& four.0 == three.0 && four.1.writes@.len() == 0 && four.1.read is None
        },
        high % 2 == 1 ==> {
            let agreed = three.0->Confirming_agreed;
            &&& three.0 is Confirming
            &&& agreed == (0x1_0000_0000u64 * high + low) as u64 & (wanted | 0x1_0000_0000)
            &&& three.1.writes@.len() == 5
            &&& three.1.writes@[0] == (Write { offset: 0x24, value: 1 })
            &&& three.1.writes@[1].offset == 0x20
            &&& three.1.writes@[2] == (Write { offset: 0x24, value: 0 })
            &&& three.1.writes@[3].offset == 0x20
            &&& three.1.writes@[4] == (Write { offset: 0x70, value: 11 })
            &&& 0x1_0000_0000 * three.1.writes@[1].value + three.1.writes@[3].value == agreed
            &&& three.1.read == Some(0x70u64)
        },
        high % 2 == 1 && confirmed & 8 == 0 ==> {
            &&& four.0 == (Phase::Failed { error: Error::FeaturesRefused })
            &&& four.1.writes@ == seq![Write { offset: 0x70, value: 128 }]
            &&& four.1.read is None
        },
        high % 2 == 1 && confirmed & 8 != 0 ==> {
            &&& four.0 == (Phase::Agreed { agreed: three.0->Confirming_agreed })
            &&& four.1.writes@.len() == 0 && four.1.read is None
        },
{
    let offered = both_halves(high, low);
    assert(offered & 0x1_0000_0000u64 == 0 <==> high % 2 == 0) by (bit_vector)
        requires
            offered == (0x1_0000_0000u64 * high + low) as u64,
    ;
}

/// Nothing is said to a device that has not finished resetting: its status is
/// read until it is zero.
pub proof fn lemma_reset_is_waited_for(t: Transport, wanted: u64, value: u32, r: (Phase, Ask))
    requires
        call_ensures(Transport::negotiate, (&t, Phase::Resetting, wanted, value), r),
        value != 0,
    ensures
        r.0 == Phase::Resetting,
        r.1.writes@.len() == 0,
        r.1.read == Some(0x70u64),
{
}

/// A handshake that has ended stays ended, whatever is read after it.
pub proof fn lemma_handshake_ends(
    t: Transport,
    phase: Phase,
    wanted: u64,
    value: u32,
    r: (Phase, Ask),
)
    requires
        phase is Agreed || phase is Failed,
        call_ensures(Transport::negotiate, (&t, phase, wanted, value), r),
    ensures
        r.0 == phase,
        r.1.writes@.len() == 0,
        r.1.read is None,
{
}

/// A device is started by adding the last bit to those it was told before, and
/// its interrupts are acknowledged exactly as it raised them.
pub proof fn lemma_started_and_acknowledged(
    t: Transport,
    raised: u32,
    go: Write,
    ack: Write,
    at: u64,
)
    requires
        t.base + 0x70 <= u64::MAX,
        call_ensures(Transport::set_driver_ok, (&t,), go),
        call_ensures(Transport::ack_interrupt, (&t, raised), ack),
        call_ensures(Transport::status, (&t,), at),
    ensures
        go == (Write { offset: 0x70, value: 15 }),
        ack == (Write { offset: 0x64, value: raised }),
        at == t.base + 0x70,
{
}

/// A window is a transport that is spoken to exactly if its first register says
/// so and its second says 2, and what is wrong is reported in that order.
pub proof fn lemma_probe_goes_by_the_registers(
    base: u64,
    intid: u32,
    magic: u32,
    version: u32,
    device_id: u32,
    features: u64,
    r: Result<Transport, Error>,
)
    requires
        call_ensures(probe, (base, intid, magic, version, device_id, features), r),
    ensures
        r is Ok <==> magic == 0x7472_6976 && version == 2,
        r is Ok ==> r->Ok_0.base == base && r->Ok_0.intid == intid && r->Ok_0.device_id == device_id
            && r->Ok_0.features == features,
        magic != 0x7472_6976 ==> r == Err::<Transport, Error>(Error::NotVirtio(magic)),
        magic == 0x7472_6976 && version != 2 ==> r == Err::<Transport, Error>(
            Error::WrongVersion(version),
        ),
{
}

/// A transport is described by its first window and its first interrupt: a
/// shared one is 32 further on than the tree says, a private one 16, and
/// anything else is no interrupt.
pub proof fn lemma_described_by_its_node(
    blob: fdt::Blob,
    node: fdt::Node,
    window: Option<(u64, u64)>,
    interrupts: Option<&[u8]>,
    kind: u32,
    number: u32,
    r: Option<(u64, u64, u32)>,
)
    requires
        call_ensures(fdt::Blob::reg, (&blob, &node, 0), window),
        call_ensures(fdt::Blob::property, (&blob, &node, "interrupts"), interrupts),
        interrupts is Some && interrupts->0@.len() >= 8 ==> call_ensures(
            fdt::read_be32,
            (interrupts->0, 0),
            kind,
        ) && call_ensures(fdt::read_be32, (interrupts->0, 4), number),
        call_ensures(describe, (&blob, &node), r),
    ensures
        window is None || interrupts is None || interrupts->0@.len() < 8 ==> r is None,
        window is Some && interrupts is Some && interrupts->0@.len() >= 8 ==> {
            &&& kind == 0 && number <= 0xffff_ffdf ==> r == Some(
                ((window->0).0, (window->0).1, (number + 32) as u32),
            )
            &&& kind == 1 && number <= 0xffff_ffef ==> r == Some(
                ((window->0).0, (window->0).1, (number + 16) as u32),
            )
            &&& kind > 1 ==> r is None
        },
{
}

/// A slot that was looked at is counted, whatever was in it, and the search
/// goes on after it; what was found in it is kept, after what was found before,
/// if it is a device.
pub proof fn lemma_devices_are_kept_in_order(
    d: &mut Discovery,
    node: fdt::Node,
    outcome: Option<Result<Transport, Error>>,
    all: &[Transport],
    i: int,
)
    requires
        old(d).wf(),
        old(d).slots < 32,
        call_ensures(Discovery::note, (d, &node, outcome), ()),
        call_ensures(transports, (&*final(d),), all),
        0 <= i < old(d).found@.len(),
    ensures
        all@[i] == old(d).found@[i],
        final(d).slots == old(d).slots + 1,
        final(d).offset == node.offset,
        ({
            let kept = outcome is Some && outcome->0 is Ok && outcome->0->Ok_0.device_id != 0;
            &&& kept ==> all@.len() == old(d).found@.len() + 1 && all@.last() == outcome->0->Ok_0
            &&& !kept ==> all@.len() == old(d).found@.len()
        }),
{
}

/// The next slot is the next node in the tree that is compatible, while fewer
/// than 32 were looked at.
pub proof fn lemma_search_stops_at_thirty_two(
    d: Discovery,
    blob: fdt::Blob,
    r: Option<fdt::Node>,
    after: Option<fdt::Node>,
)
    requires
        call_ensures(Discovery::next, (&d, &blob), r),
        call_ensures(fdt::Blob::find_compatible_after, (&blob, "virtio,mmio", d.offset), after),
    ensures
        d.slots < 32 ==> r == after,
        d.slots >= 32 ==> r is None,
{
}

/// Looking for a device gives the first one of its type, and none only if there
/// is none.
pub proof fn lemma_find_gives_the_first(d: &Discovery, id: u32, r: Option<Transport>, i: int)
    requires
        call_ensures(find, (d, id), r),
        0 <= i < d.found@.len(),
        d.found@[i].device_id == id,
        forall|j: int| 0 <= j < i ==> (#[trigger] d.found@[j]).device_id != id,
    ensures
        r == Some(d.found@[i]),
{
    if r is None {
        assert(d.found@[i].device_id != id);
    } else {
        let found = r->0;
        let at = choose|j: int|
            {
                &&& 0 <= j < d.found@.len()
                &&& found == #[trigger] d.found@[j]
                &&& found.device_id == id
                &&& forall|m: int| 0 <= m < j ==> d.found@[m].device_id != id
            };
        assert(at < i ==> d.found@[at].device_id != id);
        assert(i < at ==> d.found@[i].device_id != id);
    }
}

/// Every device there is a name for has its own.
pub proof fn lemma_devices_are_named(id: u32, r: &'static str)
    requires
        call_ensures(device_name, (id,), r),
    ensures
        id == 0 ==> r@ == "empty"@,
        id == 1 ==> r@ == "network"@,
        id == 2 ==> r@ == "block"@,
        id == 3 ==> r@ == "console"@,
        id == 4 ==> r@ == "entropy"@,
        id == 16 ==> r@ == "gpu"@,
        id == 18 ==> r@ == "input"@,
        id > 18 || 4 < id < 16 || id == 17 ==> r@ == "unknown"@,
{
}

} // verus!
