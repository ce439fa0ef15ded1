//! The split virtqueue: how a driver and a device pass buffers to each other.
//!
//! Three pieces of shared memory, and the split is by who writes what. The
//! descriptor table says where the buffers are, and the driver writes it. The
//! available ring says which descriptors are ready, and the driver writes it.
//! The used ring says which ones are finished, and the device writes it. No
//! field has two writers. Every address in them is physical, because the device
//! does not walk page tables.

use vstd::prelude::*;

use crate::frames;
use crate::frames::{Allocator, Frame};
use crate::memory::Memory;
use crate::paging;
use crate::virtio::Write;

verus! {

/// How many descriptors a queue holds. A power of two, because the indices are
/// free running and the ring position is taken modulo the size.
pub const QUEUE_SIZE: u16 = 16;

pub const DESCRIPTOR_BYTES: u64 = 16;

/// Where the rings are in their frame.
pub const DESC_OFFSET: u64 = 0;

pub const AVAIL_OFFSET: u64 = 256;

pub const USED_OFFSET: u64 = 512;

/// The descriptor continues into another one.
pub const DESC_NEXT: u16 = 1;

/// The device writes this buffer.
pub const DESC_WRITE: u16 = 2;

pub const QUEUE_SEL: u64 = 0x030;

pub const QUEUE_NUM_MAX: u64 = 0x034;

pub const QUEUE_NUM: u64 = 0x038;

pub const QUEUE_READY: u64 = 0x044;

pub const QUEUE_NOTIFY: u64 = 0x050;

pub const QUEUE_DESC_LOW: u64 = 0x080;

pub const QUEUE_DESC_HIGH: u64 = 0x084;

pub const QUEUE_DRIVER_LOW: u64 = 0x090;

pub const QUEUE_DRIVER_HIGH: u64 = 0x094;

pub const QUEUE_DEVICE_LOW: u64 = 0x0a0;

pub const QUEUE_DEVICE_HIGH: u64 = 0x0a4;

/// Calls `core::sync::atomic::fence`: the device, which reads and writes the
/// rings on its own, sees what came before this before anything that comes
/// after. Nothing is claimed of it; the order two parties see is not a value.
#[verifier::external_body]
fn fence() {
    core::sync::atomic::fence(core::sync::atomic::Ordering::SeqCst)
}

/// One buffer in a request.
#[derive(Clone, Copy, PartialEq, Eq, Debug, Structural)]
pub struct Buffer {
    /// Physical address.
    pub pa: u64,
    pub len: u32,
    /// True if the device fills it, false if the device reads it.
    pub device_writes: bool,
}

/// Why a request could not be queued.
#[derive(Clone, Copy, PartialEq, Eq, Debug, Structural)]
pub enum Error {
    /// The device's queue is smaller than the one that is insisted on.
    TooSmall(u32),
    /// No memory for the rings.
    NoMemory,
    /// Not enough free descriptors for the chain.
    Full,
    /// A chain of no buffers is not a request.
    Empty,
}

/// One descriptor, as it is in memory.
pub struct Descriptor {
    pub pa: u64,
    pub len: u32,
    pub flags: u16,
    pub next: u16,
}

/// Descriptor `i` of the table in `frame`.
pub open spec fn descriptor(m: Memory, frame: int, i: int) -> Descriptor {
    Descriptor {
        pa: m.u64_at(frame + 16 * i),
        len: m.u32_at(frame + 16 * i + 8),
        flags: m.u16_at(frame + 16 * i + 12),
        next: m.u16_at(frame + 16 * i + 14),
    }
}

/// The whole table.
pub open spec fn table(m: Memory, frame: int) -> Seq<Descriptor> {
    Seq::new(16, |i: int| descriptor(m, frame, i))
}

/// The flags of a descriptor for a buffer.
pub open spec fn flags_of(buffer: Buffer, chained: bool) -> u16 {
    if chained && buffer.device_writes {
        3
    } else if chained {
        DESC_NEXT
    } else if buffer.device_writes {
        DESC_WRITE
    } else {
        0
    }
}

/// A descriptor for a buffer.
pub open spec fn filled(buffer: Buffer, next: u16, chained: bool) -> Descriptor {
    Descriptor { pa: buffer.pa, len: buffer.len, flags: flags_of(buffer, chained), next }
}

/// Does a descriptor continue into another one?
pub open spec fn continues(d: Descriptor) -> bool {
    d.flags & DESC_NEXT != 0
}

/// `list` is a run of distinct descriptors, each naming the one after it.
pub open spec fn threaded(t: Seq<Descriptor>, list: Seq<int>) -> bool {
    &&& list.no_duplicates()
    &&& forall|k: int| 0 <= k < list.len() ==> 0 <= #[trigger] list[k] < 16
    &&& forall|k: int| 0 <= k < list.len() - 1 ==> (#[trigger] t[list[k]]).next == list[k + 1]
}

/// `chain` is a request: a threaded run that says where it ends.
pub open spec fn chained(t: Seq<Descriptor>, chain: Seq<int>) -> bool {
    &&& chain.len() > 0
    &&& threaded(t, chain)
    &&& forall|k: int|
        0 <= k < chain.len() ==> continues(#[trigger] t[chain[k]]) == (k < chain.len() - 1)
}

/// A queue, and the driver's half of its bookkeeping.
pub struct Queue {
    pub frame: Frame,
    /// Head of the free descriptor list, threaded through the descriptors
    /// themselves: the device never looks at a free one.
    pub free_head: u16,
    pub free_count: u16,
    /// How far the used ring has been consumed. The device's index runs ahead
    /// of this, and both wrap.
    pub last_used: u16,
    /// Which descriptors head a request that has not come back.
    pub heads: Vec<bool>,
    /// The free descriptors, in the order they will be taken.
    pub list: Ghost<Seq<int>>,
    /// The requests that have not come back, by the descriptor that heads them.
    pub chains: Ghost<Map<int, Seq<int>>>,
}

/// Every descriptor is free or in exactly one request, and the lists in memory
/// are the lists that are known.
pub open spec fn accounted(t: Seq<Descriptor>, list: Seq<int>, chains: Map<int, Seq<int>>) -> bool {
    &&& threaded(t, list)
    &&& forall|h: int| #[trigger]
        chains.dom().contains(h) ==> chained(t, chains[h]) && chains[h][0] == h
    &&& forall|h: int, i: int| #[trigger]
        chains.dom().contains(h) && #[trigger] chains[h].contains(i) ==> !list.contains(i)
    &&& forall|h: int, g: int, i: int| #[trigger]
        chains.dom().contains(h) && #[trigger] chains.dom().contains(g) && h != g
            && #[trigger] chains[h].contains(i) ==> !chains[g].contains(i)
    &&& forall|i: int|
        0 <= i < 16 && !#[trigger] list.contains(i) ==> exists|h: int| #[trigger]
            chains.dom().contains(h) && chains[h].contains(i)
}

impl Queue {
    /// The rings are in memory, and every descriptor is accounted for.
    pub open spec fn wf(&self, m: Memory) -> bool {
        &&& m.wf()
        &&& self.frame.0 % 4096 == 0
        &&& m.has(self.frame.0 as int, 4096)
        &&& accounted(table(m, self.frame.0 as int), self.list@, self.chains@)
        &&& self.free_count == self.list@.len()
        &&& self.list@.len() > 0 ==> self.free_head == self.list@[0]
        &&& self.heads@.len() == 16
        &&& forall|i: int| 0 <= i < 16 ==> #[trigger] self.heads@[i] == self.chains@.dom().contains(i)
    }

    /// How many requests have been made available, as the device sees it.
    pub open spec fn available(&self, m: Memory) -> u16 {
        m.u16_at(self.frame.0 + 258)
    }

    /// How many requests the device says it has finished.
    pub open spec fn used(&self, m: Memory) -> u16 {
        m.u16_at(self.frame.0 + 514)
    }

    /// What the device put at place `i` of the used ring: the descriptor that
    /// heads the request, and how much it wrote.
    pub open spec fn used_entry(&self, m: Memory, i: int) -> (u16, u32) {
        let at = self.frame.0 + 516 + i % 16 * 8;
        (m.u32_at(at) as u16, m.u32_at(at + 4))
    }

    /// The device has finished nothing more, or names a request that was made
    /// and has not come back.
    pub open spec fn believable(&self, m: Memory) -> bool {
        self.last_used == self.used(m) || self.chains@.dom().contains(
            self.used_entry(m, self.last_used as int).0 as int,
        )
    }
}

/// Is the byte at `q` part of what a descriptor names as the one after it?
pub open spec fn names_next(frame: int, q: int) -> bool {
    q < frame + 256 && (q - frame) % 16 >= 14
}

/// Descriptors depend on the bytes of the table alone.
proof fn lemma_table_kept(m1: Memory, m2: Memory, frame: int)
    requires
        m2.agrees(&m1, frame, frame + 256),
        m1.has(frame, 4096),
    ensures
        table(m2, frame) == table(m1, frame),
{
    m2.lemma_agrees_reads(&m1, frame, frame + 256);
    assert(table(m2, frame) =~= table(m1, frame)) by {
        assert forall|i: int| 0 <= i < 16 implies #[trigger] descriptor(m2, frame, i)
            == descriptor(m1, frame, i) by {}
    }
}

/// Writing one descriptor leaves the others alone.
proof fn lemma_others_kept(m1: Memory, m2: Memory, frame: int, i: int)
    requires
        0 <= i < 16,
        m2.agrees_outside(&m1, frame + 16 * i, frame + 16 * i + 16),
        m1.has(frame, 4096),
    ensures
        table(m2, frame) == table(m1, frame).update(i, descriptor(m2, frame, i)),
{
    assert forall|j: int| 0 <= j < 16 && j != i implies #[trigger] descriptor(m2, frame, j)
        == descriptor(m1, frame, j) by {
        assert(m2.agrees(&m1, frame + 16 * j, frame + 16 * j + 16));
        m2.lemma_agrees_reads(&m1, frame + 16 * j, frame + 16 * j + 16);
    }
    assert(table(m2, frame) =~= table(m1, frame).update(i, descriptor(m2, frame, i)));
}

/// What flags say about continuing.
proof fn lemma_flags(buffer: Buffer, next: u16, more: bool)
    ensures
        continues(filled(buffer, next, more)) == more,
{
    assert(3u16 & 1u16 != 0 && 1u16 & 1u16 != 0 && 2u16 & 1u16 == 0 && 0u16 & 1u16 == 0)
        by (bit_vector);
}

/// Describe a buffer to the device.
fn write_descriptor(
    memory: &mut Memory,
    frame: Frame,
    index: u16,
    buffer: &Buffer,
    next: u16,
    more: bool,
)
    requires
        old(memory).wf(),
        old(memory).has(frame.0 as int, 4096),
        index < 16,
    ensures
        final(memory).wf(),
        final(memory).agrees_outside(
            old(memory),
            frame.0 + 16 * index,
            frame.0 + 16 * index + 16,
        ),
        table(*final(memory), frame.0 as int) == table(*old(memory), frame.0 as int).update(
            index as int,
            filled(*buffer, next, more),
        ),
{
    let base: u64 = frame.addr() + DESC_OFFSET + index as u64 * DESCRIPTOR_BYTES;
    let flags: u16 = if more && buffer.device_writes {
        3
    } else if more {
        DESC_NEXT
    } else if buffer.device_writes {
        DESC_WRITE
    } else {
        0
    };
    let ghost m0 = *memory;
    memory.write_u64(base, buffer.pa);
    let ghost m1 = *memory;
    memory.write_u32(base + 8, buffer.len);
    let ghost m2 = *memory;
    memory.write_u16(base + 12, flags);
    let ghost m3 = *memory;
    memory.write_u16(base + 14, next);
    proof {
        let at = base as int;
        let m4 = *memory;
        assert(m4.agrees(&m1, at, at + 8)) by {
            assert forall|q: int| at <= q < at + 8 && m4.has(q, 1) implies #[trigger] m4.byte_at(q)
                == m1.byte_at(q) by {
                assert(m4.byte_at(q) == m3.byte_at(q));
                assert(m3.byte_at(q) == m2.byte_at(q));
                assert(m2.byte_at(q) == m1.byte_at(q));
            }
        }
        m4.lemma_agrees_reads(&m1, at, at + 8);
        assert(m4.agrees(&m2, at + 8, at + 12)) by {
            assert forall|q: int| at + 8 <= q < at + 12 && m4.has(q, 1) implies #[trigger] m4.byte_at(
                q,
            ) == m2.byte_at(q) by {
                assert(m4.byte_at(q) == m3.byte_at(q));
                assert(m3.byte_at(q) == m2.byte_at(q));
            }
        }
        m4.lemma_agrees_reads(&m2, at + 8, at + 12);
        assert(m4.agrees(&m3, at + 12, at + 14));
        m4.lemma_agrees_reads(&m3, at + 12, at + 14);
        assert(m4.agrees_outside(&m0, at, at + 16)) by {
            assert forall|q: int|
                !(at <= q < at + 16) && m4.has(q, 1) implies #[trigger] m4.byte_at(q)
                == m0.byte_at(q) by {
                assert(m4.byte_at(q) == m3.byte_at(q));
                assert(m3.byte_at(q) == m2.byte_at(q));
                assert(m2.byte_at(q) == m1.byte_at(q));
                assert(m1.byte_at(q) == m0.byte_at(q));
            }
        }
        lemma_others_kept(m0, m4, frame.0 as int, index as int);
    }
}

/// Name the descriptor after `index`.
fn write_descriptor_next(memory: &mut Memory, frame: Frame, index: u16, next: u16)
    requires
        old(memory).wf(),
        old(memory).has(frame.0 as int, 4096),
        index < 16,
    ensures
        final(memory).wf(),
        final(memory).agrees_outside(
            old(memory),
            frame.0 + 16 * index + 14,
            frame.0 + 16 * index + 16,
        ),
        table(*final(memory), frame.0 as int) == table(*old(memory), frame.0 as int).update(
            index as int,
            Descriptor { next, ..table(*old(memory), frame.0 as int)[index as int] },
        ),
{
    let base: u64 = frame.addr() + DESC_OFFSET + index as u64 * DESCRIPTOR_BYTES;
    let ghost m0 = *memory;
    memory.write_u16(base + 14, next);
    proof {
        let at = base as int;
        let m1 = *memory;
        assert(m1.agrees(&m0, at, at + 14));
        m1.lemma_agrees_reads(&m0, at, at + 14);
        assert(m1.agrees_outside(&m0, at, at + 16));
        lemma_others_kept(m0, m1, frame.0 as int, index as int);
    }
}

/// The descriptor after `index`.
fn descriptor_next(memory: &Memory, frame: Frame, index: u16) -> (r: u16)
    requires
        memory.wf(),
        memory.has(frame.0 as int, 4096),
        index < 16,
    ensures
        r == table(*memory, frame.0 as int)[index as int].next,
{
    memory.read_u16(frame.addr() + DESC_OFFSET + index as u64 * DESCRIPTOR_BYTES + 14)
}

/// The flags of descriptor `index`.
fn descriptor_flags(memory: &Memory, frame: Frame, index: u16) -> (r: u16)
    requires
        memory.wf(),
        memory.has(frame.0 as int, 4096),
        index < 16,
    ensures
        r == table(*memory, frame.0 as int)[index as int].flags,
{
    memory.read_u16(frame.addr() + DESC_OFFSET + index as u64 * DESCRIPTOR_BYTES + 12)
}

/// Distinct descriptors are no more than there are.
proof fn lemma_at_most(list: Seq<int>)
    requires
        list.no_duplicates(),
        forall|k: int| 0 <= k < list.len() ==> 0 <= #[trigger] list[k] < 16,
    ensures
        list.len() <= 16,
{
    list.unique_seq_to_set();
    let all = vstd::set_lib::set_int_range(0, 16);
    vstd::set_lib::lemma_int_range(0, 16);
    assert(list.to_set().subset_of(all)) by {
        assert forall|i: int| list.to_set().contains(i) implies all.contains(i) by {
            let k = choose|k: int| 0 <= k < list.len() && list[k] == i;
            assert(0 <= list[k] < 16);
        }
    }
    vstd::set_lib::lemma_len_subset(list.to_set(), all);
}

/// The writes that point a device at a queue, in order: its size, where each
/// ring is, and only then that it is ready.
pub open spec fn setup_writes(pa: int) -> Seq<Write> {
    seq![
        Write { offset: QUEUE_NUM, value: 16 },
        Write { offset: QUEUE_DESC_LOW, value: (pa % 0x1_0000_0000) as u32 },
        Write { offset: QUEUE_DESC_HIGH, value: (pa / 0x1_0000_0000) as u32 },
        Write { offset: QUEUE_DRIVER_LOW, value: ((pa + 256) % 0x1_0000_0000) as u32 },
        Write { offset: QUEUE_DRIVER_HIGH, value: ((pa + 256) / 0x1_0000_0000) as u32 },
        Write { offset: QUEUE_DEVICE_LOW, value: ((pa + 512) % 0x1_0000_0000) as u32 },
        Write { offset: QUEUE_DEVICE_HIGH, value: ((pa + 512) / 0x1_0000_0000) as u32 },
        Write { offset: QUEUE_READY, value: 1 },
    ]
}

/// Every descriptor, in order.
pub open spec fn every() -> Seq<int> {
    Seq::new(16, |i: int| i)
}

impl Queue {
    /// Pick queue `index` on a transport. To be followed by reading how large
    /// the device lets it be.
    pub fn select(index: u32) -> (r: Write)
        ensures
            r == (Write { offset: QUEUE_SEL, value: index }),
    {
        Write { offset: QUEUE_SEL, value: index }
    }

    /// Build a queue, and say how to tell the device where it is. `max` is how
    /// large the device lets it be.
    #[verifier::spinoff_prover]
    #[verifier::rlimit(30)]
    pub fn new(a: &mut Allocator, memory: &mut Memory, max: u32) -> (r: Result<
        (Queue, Vec<Write>),
        Error,
    >)
        requires
            paging::machine(old(a), old(memory)),
        ensures
            paging::machine(final(a), final(memory)),
            final(a).same_machine(old(a)),
            final(a).packed(old(a)),
            if max < QUEUE_SIZE {
                r is Err && r->Err_0 == Error::TooSmall(max)
            } else if old(a).free_count() > 0 {
                r is Ok
            } else {
                r is Err && r->Err_0 == Error::NoMemory
            },
            match r {
                Ok((queue, writes)) => {
                    let pa = queue.frame.0 as int;
                    &&& max >= QUEUE_SIZE
                    &&& queue.wf(*final(memory))
                    &&& queue.list@ == every()
                    &&& queue.chains@ == Map::<int, Seq<int>>::empty()
                    &&& queue.last_used == 0
                    &&& forall|i: int|
                        0 <= i < 16 ==> (#[trigger] table(*final(memory), pa)[i]).next == i + 1
                    &&& forall|q: int|
                        pa <= q < pa + 4096 && !names_next(pa, q)
                            ==> #[trigger] final(memory).byte_at(q) == 0
                    &&& queue.available(*final(memory)) == 0
                    &&& queue.used(*final(memory)) == 0
                    &&& !old(a).taken().contains(pa)
                    &&& final(a).taken() == old(a).taken().insert(pa)
                    &&& final(memory).agrees_outside(old(memory), pa, pa + 4096)
                    &&& writes@ == setup_writes(pa)
                },
                Err(_) => *final(a) == *old(a) && *final(memory) == *old(memory),
            },
    {
        if max < QUEUE_SIZE as u32 {
            return Err(Error::TooSmall(max));
        }
        // Zeroed, which matters: the available ring's index starts at zero and
        // the device believes it.
        let frame: Frame = match frames::alloc_frame(a, memory) {
            Some(frame) => frame,
            None => {
                return Err(Error::NoMemory);
            },
        };
        let ghost base = frame.0 as int;
        let ghost m1 = *memory;
        proof {
            a.lemma_facts();
            assert(frames::run(a.base(), a.count()).contains(base));
            assert(base + 4096 <= a.base() + a.length());
        }
        // Thread the free list through the descriptors.
        let mut index: u16 = 0;
        while index < QUEUE_SIZE
            invariant
                index <= QUEUE_SIZE,
                memory.wf(),
                base == frame.0,
                memory.has(base, 4096),
                memory.agrees_outside(&m1, base, base + 256),
                forall|i: int|
                    0 <= i < index ==> (#[trigger] table(*memory, base)[i]).next == i + 1,
                forall|q: int|
                    base <= q < base + 4096 && !names_next(base, q)
                        ==> #[trigger] memory.byte_at(q) == 0,
            decreases QUEUE_SIZE - index,
        {
            let ghost before = *memory;
            write_descriptor_next(memory, frame, index, index + 1);
            assert(memory.agrees_outside(&m1, base, base + 256)) by {
                assert forall|q: int|
                    !(base <= q < base + 256) && memory.has(q, 1) implies #[trigger] memory.byte_at(
                    q,
                ) == m1.byte_at(q) by {
                    assert(memory.byte_at(q) == before.byte_at(q));
                }
            }
            assert forall|q: int|
                base <= q < base + 4096 && !names_next(base, q) implies #[trigger] memory.byte_at(q)
                == 0 by {
                assert(memory.byte_at(q) == before.byte_at(q));
            }
            assert forall|i: int| 0 <= i < index + 1 implies (#[trigger] table(
                *memory,
                base,
            )[i]).next == i + 1 by {
                if i < index {
                    assert(table(before, base)[i].next == i + 1);
                }
            }
            index += 1;
        }
        fence();
        let pa: u64 = frame.addr();
        let mut writes: Vec<Write> = Vec::new();
        writes.push(Write { offset: QUEUE_NUM, value: QUEUE_SIZE as u32 });
        writes.push(
            Write { offset: QUEUE_DESC_LOW, value: ((pa + DESC_OFFSET) % 0x1_0000_0000) as u32 },
        );
        writes.push(
            Write { offset: QUEUE_DESC_HIGH, value: ((pa + DESC_OFFSET) / 0x1_0000_0000) as u32 },
        );
        writes.push(
            Write { offset: QUEUE_DRIVER_LOW, value: ((pa + AVAIL_OFFSET) % 0x1_0000_0000) as u32 },
        );
        writes.push(
            Write {
                offset: QUEUE_DRIVER_HIGH,
                value: ((pa + AVAIL_OFFSET) / 0x1_0000_0000) as u32,
            },
        );
        writes.push(
            Write { offset: QUEUE_DEVICE_LOW, value: ((pa + USED_OFFSET) % 0x1_0000_0000) as u32 },
        );
        writes.push(
            Write { offset: QUEUE_DEVICE_HIGH, value: ((pa + USED_OFFSET) / 0x1_0000_0000) as u32 },
        );
        writes.push(Write { offset: QUEUE_READY, value: 1 });
        let mut heads: Vec<bool> = Vec::new();
        let mut known: usize = 0;
        while known < QUEUE_SIZE as usize
            invariant
                known <= QUEUE_SIZE,
                heads@.len() == known,
                forall|i: int| 0 <= i < known ==> !#[trigger] heads@[i],
            decreases QUEUE_SIZE - known,
        {
            heads.push(false);
            known += 1;
        }
        let queue = Queue {
            frame,
            free_head: 0,
            free_count: QUEUE_SIZE,
            last_used: 0,
            heads,
            list: Ghost(every()),
            chains: Ghost(Map::empty()),
        };
        proof {
            assert(writes@ =~= setup_writes(base));
            assert(memory.byte_at(base + 258) == m1.byte_at(base + 258));
            assert(memory.byte_at(base + 259) == m1.byte_at(base + 259));
            assert(memory.byte_at(base + 514) == m1.byte_at(base + 514));
            assert(memory.byte_at(base + 515) == m1.byte_at(base + 515));
            assert forall|i: int| 0 <= i < 16 implies #[trigger] every().contains(i) by {
                assert(every()[i] == i);
            }
            let t = table(*memory, base);
            assert forall|k: int| 0 <= k < every().len() - 1 implies (#[trigger] t[every()[k]]).next
                == every()[k + 1] by {
                assert(t[k].next == k + 1);
            }
            assert(memory.agrees_outside(old(memory), base, base + 4096)) by {
                assert forall|q: int|
                    !(base <= q < base + 4096) && memory.has(q, 1) implies #[trigger] memory.byte_at(
                    q,
                ) == old(memory).byte_at(q) by {
                    assert(memory.byte_at(q) == m1.byte_at(q));
                }
            }
        }
        Ok((queue, writes))
    }

    /// How many descriptors are available.
    pub fn free(&self) -> (r: u16)
        ensures
            r == self.free_count,
    {
        self.free_count
    }

    /// Tell the device that there is something to do in queue `index`.
    pub fn notify(index: u32) -> (r: Write)
        ensures
            r == (Write { offset: QUEUE_NOTIFY, value: index }),
    {
        Write { offset: QUEUE_NOTIFY, value: index }
    }

    /// Stop queue `index` on a transport. To be done before the queue is
    /// released.
    pub fn stop(index: u32) -> (r: (Write, Write))
        ensures
            r.0 == (Write { offset: QUEUE_SEL, value: index }),
            r.1 == (Write { offset: QUEUE_READY, value: 0 }),
    {
        (
            Write { offset: QUEUE_SEL, value: index },
            Write { offset: QUEUE_READY, value: 0 },
        )
    }

    /// Give the memory of a queue back, once the device has been stopped from
    /// using it.
    pub fn release(self, a: &mut Allocator)
        requires
            old(a).wf(),
            self.frame.0 % 4096 == 0,
            old(a).taken().contains(self.frame.0 as int),
        ensures
            final(a).wf(),
            final(a).same_machine(old(a)),
            final(a).taken() == old(a).taken().remove(self.frame.0 as int),
            final(a).free_count() == old(a).free_count() + 1,
    {
        fence();
        frames::free(a, self.frame);
    }
}

/// Everything about the descriptors that a request of `buffers` changes: the
/// first free descriptors describe the buffers, and keep naming the ones after
/// them.
pub open spec fn described(
    before: Seq<Descriptor>,
    after: Seq<Descriptor>,
    list: Seq<int>,
    buffers: Seq<Buffer>,
    n: int,
) -> bool {
    &&& after.len() == before.len()
    &&& forall|k: int|
        0 <= k < n ==> #[trigger] after[list[k]] == filled(
            buffers[k],
            before[list[k]].next,
            k < buffers.len() - 1,
        )
    &&& forall|i: int|
        0 <= i < 16 && !list.take(n).contains(i) ==> #[trigger] after[i] == before[i]
}

/// Handing out the front of the free list keeps every descriptor accounted for.
#[verifier::spinoff_prover]
#[verifier::rlimit(40)]
proof fn lemma_handed_out(
    before: Seq<Descriptor>,
    after: Seq<Descriptor>,
    list: Seq<int>,
    chains: Map<int, Seq<int>>,
    buffers: Seq<Buffer>,
)
    requires
        before.len() == 16,
        accounted(before, list, chains),
        0 < buffers.len() <= list.len(),
        described(before, after, list, buffers, buffers.len() as int),
    ensures
        accounted(
            after,
            list.skip(buffers.len() as int),
            chains.insert(list[0], list.take(buffers.len() as int)),
        ),
        !chains.dom().contains(list[0]),
{
    let n = buffers.len() as int;
    let chain = list.take(n);
    let rest = list.skip(n);
    let head = list[0];
    let now = chains.insert(head, chain);
    if chains.dom().contains(head) {
        assert(chains[head][0] == head);
        assert(chains[head].contains(head));
        assert(list.contains(head));
    }
    assert forall|k: int| 0 <= k < n implies #[trigger] chain[k] == list[k] by {}
    assert forall|k: int| 0 <= k < rest.len() implies #[trigger] rest[k] == list[k + n] by {}
    assert forall|k: int| 0 <= k < rest.len() implies !chain.contains(#[trigger] rest[k]) by {
        if chain.contains(rest[k]) {
            let j = choose|j: int| 0 <= j < chain.len() && chain[j] == rest[k];
            assert(list[j] == list[k + n]);
        }
    }
    // What is still free is untouched.
    assert(threaded(after, rest)) by {
        assert forall|k: int| 0 <= k < rest.len() - 1 implies (#[trigger] after[rest[k]]).next
            == rest[k + 1] by {
            assert(!chain.contains(rest[k]));
            assert(0 <= list[k + n] < 16);
            assert(after[rest[k]] == before[rest[k]]);
            assert(before[list[k + n]].next == list[k + n + 1]);
        }
    }
    // What was handed out is a request.
    assert(chained(after, chain)) by {
        assert forall|k: int| 0 <= k < n implies continues(#[trigger] after[chain[k]]) == (k < n
            - 1) by {
            assert(after[list[k]] == filled(buffers[k], before[list[k]].next, k < n - 1));
            lemma_flags(buffers[k], before[list[k]].next, k < n - 1);
        }
        assert forall|k: int| 0 <= k < n - 1 implies (#[trigger] after[chain[k]]).next == chain[k
            + 1] by {
            assert(after[list[k]] == filled(buffers[k], before[list[k]].next, k < n - 1));
            assert(before[list[k]].next == list[k + 1]);
        }
    }
    // Every other request is untouched.
    assert forall|h: int| #[trigger] now.dom().contains(h) implies chained(after, now[h])
        && now[h][0] == h by {
        if h != head {
            assert(chains.dom().contains(h));
            let other = chains[h];
            assert forall|k: int| 0 <= k < other.len() implies #[trigger] after[other[k]]
                == before[other[k]] by {
                assert(other.contains(other[k]));
                assert(!list.contains(other[k]));
                if chain.contains(other[k]) {
                    let j = choose|j: int| 0 <= j < chain.len() && chain[j] == other[k];
                    assert(list[j] == other[k]);
                }
            }
        }
    }
    assert forall|h: int, i: int| #[trigger]
        now.dom().contains(h) && #[trigger] now[h].contains(i) implies !rest.contains(i) by {
        if rest.contains(i) {
            let k = choose|k: int| 0 <= k < rest.len() && rest[k] == i;
            assert(list[k + n] == i);
            assert(list.contains(i));
            if h != head {
                assert(chains.dom().contains(h) && chains[h].contains(i));
            }
        }
    }
    assert forall|h: int, g: int, i: int| #[trigger]
        now.dom().contains(h) && #[trigger] now.dom().contains(g) && h != g
            && #[trigger] now[h].contains(i) implies !now[g].contains(i) by {
        if now[g].contains(i) {
            if h == head {
                let j = choose|j: int| 0 <= j < chain.len() && chain[j] == i;
                assert(list[j] == i);
                assert(list.contains(i));
                assert(chains.dom().contains(g) && chains[g].contains(i));
            } else if g == head {
                let j = choose|j: int| 0 <= j < chain.len() && chain[j] == i;
                assert(list[j] == i);
                assert(list.contains(i));
                assert(chains.dom().contains(h) && chains[h].contains(i));
            } else {
                assert(chains.dom().contains(h) && chains.dom().contains(g));
            }
        }
    }
    assert forall|i: int| 0 <= i < 16 && !#[trigger] rest.contains(i) implies exists|h: int|
        #[trigger] now.dom().contains(h) && now[h].contains(i) by {
        if list.contains(i) {
            let k = choose|k: int| 0 <= k < list.len() && list[k] == i;
            if k >= n {
                assert(rest[k - n] == i);
            }
            assert(chain[k] == i);
            assert(now.dom().contains(head) && now[head].contains(i));
        } else {
            let h = choose|h: int| #[trigger] chains.dom().contains(h) && chains[h].contains(i);
            assert(now.dom().contains(h) && now[h].contains(i));
        }
    }
}

/// Putting a finished request in front of the free list keeps every descriptor
/// accounted for.
#[verifier::spinoff_prover]
#[verifier::rlimit(40)]
proof fn lemma_taken_back(
    before: Seq<Descriptor>,
    after: Seq<Descriptor>,
    list: Seq<int>,
    chains: Map<int, Seq<int>>,
    head: int,
    free_head: u16,
)
    requires
        before.len() == 16,
        accounted(before, list, chains),
        chains.dom().contains(head),
        list.len() > 0 ==> free_head == list[0],
        after == before.update(
            chains[head].last(),
            Descriptor { next: free_head, ..before[chains[head].last()] },
        ),
    ensures
        accounted(after, chains[head] + list, chains.remove(head)),
        (chains[head] + list).len() <= 16,
{
    let chain = chains[head];
    let n = chain.len() as int;
    let last = chain[n - 1];
    let whole = chain + list;
    let now = chains.remove(head);
    assert(chained(before, chain));
    assert(0 <= last < 16);
    assert(chain.contains(last));
    assert forall|k: int, j: int|
        0 <= k < whole.len() && 0 <= j < whole.len() && k != j implies whole[k] != whole[j] by {
        if k < n && j >= n {
            assert(chain.contains(chain[k]));
            assert(list.contains(list[j - n]));
        }
        if j < n && k >= n {
            assert(chain.contains(chain[j]));
            assert(list.contains(list[k - n]));
        }
    }
    assert(whole.no_duplicates());
    assert forall|k: int| 0 <= k < whole.len() implies 0 <= #[trigger] whole[k] < 16 by {
        if k < n {
            assert(0 <= chain[k] < 16);
        } else {
            assert(0 <= list[k - n] < 16);
        }
    }
    lemma_at_most(whole);
    assert forall|k: int| 0 <= k < whole.len() - 1 implies (#[trigger] after[whole[k]]).next
        == whole[k + 1] by {
        if k < n - 1 {
            assert(chain[k] != last);
            assert(before[chain[k]].next == chain[k + 1]);
        } else if k == n - 1 {
            assert(whole[k + 1] == list[0]);
        } else {
            assert(list.contains(list[k - n]));
            assert(list[k - n] != last);
            assert(before[list[k - n]].next == list[k - n + 1]);
        }
    }
    assert(threaded(after, whole));
    assert forall|h: int| #[trigger] now.dom().contains(h) implies chained(after, now[h])
        && now[h][0] == h by {
        assert(chains.dom().contains(h));
        let other = chains[h];
        assert forall|k: int| 0 <= k < other.len() implies #[trigger] after[other[k]]
            == before[other[k]] by {
            assert(other.contains(other[k]));
            assert(!chains[head].contains(other[k]));
        }
    }
    assert forall|h: int, i: int| #[trigger]
        now.dom().contains(h) && #[trigger] now[h].contains(i) implies !whole.contains(i) by {
        assert(chains.dom().contains(h) && chains[h].contains(i));
        if whole.contains(i) {
            let k = choose|k: int| 0 <= k < whole.len() && whole[k] == i;
            if k < n {
                assert(chain[k] == i);
                assert(chains.dom().contains(head) && chains[head].contains(i));
            } else {
                assert(list[k - n] == i);
                assert(list.contains(i));
            }
        }
    }
    assert forall|i: int| 0 <= i < 16 && !#[trigger] whole.contains(i) implies exists|h: int|
        #[trigger] now.dom().contains(h) && now[h].contains(i) by {
        if list.contains(i) {
            let k = choose|k: int| 0 <= k < list.len() && list[k] == i;
            assert(whole[k + n] == i);
        } else {
            let h = choose|h: int| #[trigger] chains.dom().contains(h) && chains[h].contains(i);
            if h == head {
                let k = choose|k: int| 0 <= k < chain.len() && chain[k] == i;
                assert(whole[k] == i);
            }
            assert(now.dom().contains(h) && now[h].contains(i));
        }
    }
    assert forall|h: int, g: int, i: int| #[trigger]
        now.dom().contains(h) && #[trigger] now.dom().contains(g) && h != g
            && #[trigger] now[h].contains(i) implies !now[g].contains(i) by {
        assert(chains.dom().contains(h) && chains.dom().contains(g) && chains[h].contains(i));
    }
}

/// Only the descriptor table and the available ring differ.
pub open spec fn driver_wrote(m1: &Memory, m2: &Memory, frame: int) -> bool {
    m2.agrees_outside(m1, frame, frame + 512)
}

/// What queueing a request does.
pub open spec fn queued(
    q1: &Queue,
    m1: &Memory,
    buffers: Seq<Buffer>,
    q2: &Queue,
    m2: &Memory,
    head: u16,
) -> bool {
    let frame = q1.frame.0 as int;
    let n = buffers.len() as int;
    let place = q1.available(*m1) as int % 16;
    &&& head == q1.list@[0]
    &&& q2.frame == q1.frame
    &&& q2.last_used == q1.last_used
    &&& q2.list@ == q1.list@.skip(n)
    &&& q2.chains@ == q1.chains@.insert(head as int, q1.list@.take(n))
    &&& !q1.chains@.dom().contains(head as int)
    &&& described(table(*m1, frame), table(*m2, frame), q1.list@, buffers, n)
    &&& driver_wrote(m1, m2, frame)
    &&& m2.u16_at(frame + 260 + place * 2) == head
    &&& q2.available(*m2) == (if q1.available(*m1) == u16::MAX {
        0u16
    } else {
        (q1.available(*m1) + 1) as u16
    })
    &&& forall|i: int|
        0 <= i < 16 && i != place ==> #[trigger] m2.u16_at(frame + 260 + i * 2) == m1.u16_at(
            frame + 260 + i * 2,
        )
}

/// The descriptors once the last of a chain names `next`.
pub open spec fn linked(t: Seq<Descriptor>, chain: Seq<int>, next: u16) -> Seq<Descriptor> {
    t.update(chain.last(), Descriptor { next, ..t[chain.last()] })
}

/// What taking a finished request back does.
pub open spec fn returned(q1: &Queue, m1: &Memory, q2: &Queue, m2: &Memory, r: (u16, u32)) -> bool {
    let frame = q1.frame.0 as int;
    let head = r.0 as int;
    &&& r == q1.used_entry(*m1, q1.last_used as int)
    &&& q2.frame == q1.frame
    &&& q2.last_used == (if q1.last_used == u16::MAX {
        0u16
    } else {
        (q1.last_used + 1) as u16
    })
    &&& q2.list@ == q1.chains@[head] + q1.list@
    &&& q2.chains@ == q1.chains@.remove(head)
    &&& m2.agrees_outside(m1, frame, frame + 256)
    &&& table(*m2, frame) == linked(table(*m1, frame), q1.chains@[head], q1.free_head)
}

impl Queue {
    /// Queue a chain of buffers and return the descriptor that heads it.
    ///
    /// The head is the identity of the request: it is what comes back in the
    /// used ring.
    #[verifier::spinoff_prover]
    #[verifier::rlimit(50)]
    pub fn add(&mut self, memory: &mut Memory, buffers: &[Buffer]) -> (r: Result<u16, Error>)
        requires
            old(self).wf(*old(memory)),
        ensures
            final(self).wf(*final(memory)),
            match r {
                Ok(head) => {
                    &&& 0 < buffers@.len() <= old(self).free_count
                    &&& queued(
                        old(self),
                        old(memory),
                        buffers@,
                        final(self),
                        final(memory),
                        head,
                    )
                },
                Err(e) => {
                    &&& *final(self) == *old(self)
                    &&& *final(memory) == *old(memory)
                    &&& if buffers@.len() == 0 {
                        e == Error::Empty
                    } else {
                        e == Error::Full && buffers@.len() > old(self).free_count
                    }
                },
            },
    {
        if buffers.len() == 0 {
            return Err(Error::Empty);
        }
        if buffers.len() > self.free_count as usize {
            return Err(Error::Full);
        }
        let ghost m0 = *memory;
        let ghost q0 = *self;
        let ghost list = self.list@;
        let ghost n = buffers@.len() as int;
        let frame: Frame = self.frame;
        let ghost base = frame.0 as int;
        let ghost t0 = table(m0, base);
        let head: u16 = self.free_head;
        let mut index: u16 = head;
        let mut position: usize = 0;
        let count: usize = buffers.len();
        proof {
            lemma_at_most(list);
            assert(0 <= list[0] < 16);
        }
        while position < count
            invariant
                count == buffers@.len() == n,
                0 < n <= list.len() <= 16,
                position <= n,
                memory.wf(),
                base == frame.0,
                memory.has(base, 4096),
                m0.has(base, 4096),
                threaded(t0, list),
                t0 == table(m0, base),
                position < n ==> index == list[position as int],
                position == n ==> index == t0[list[n - 1]].next,
                described(t0, table(*memory, base), list, buffers@, position as int),
                memory.agrees_outside(&m0, base, base + 256),
            decreases n - position,
        {
            let ghost before = *memory;
            let ghost tb = table(before, base);
            let ghost at = list[position as int];
            proof {
                assert(0 <= at < 16);
                assert(!list.take(position as int).contains(at)) by {
                    if list.take(position as int).contains(at) {
                        let j = choose|j: int|
                            0 <= j < position && list.take(position as int)[j] == at;
                        assert(list[j] == list[position as int]);
                    }
                }
                assert(tb[at] == t0[at]);
            }
            let next: u16 = descriptor_next(memory, frame, index);
            let more: bool = position + 1 < count;
            write_descriptor(memory, frame, index, &buffers[position], next, more);
            proof {
                let ta = table(*memory, base);
                let done = list.take(position + 1);
                assert forall|k: int| 0 <= k < position + 1 implies #[trigger] ta[list[k]]
                    == filled(buffers@[k], t0[list[k]].next, k < n - 1) by {
                    assert(0 <= list[k] < 16);
                    if k < position {
                        assert(list[k] != at);
                        assert(tb[list[k]] == filled(buffers@[k], t0[list[k]].next, k < n - 1));
                    }
                }
                assert forall|i: int| 0 <= i < 16 && !done.contains(i) implies #[trigger] ta[i]
                    == t0[i] by {
                    assert(done[position as int] == at);
                    assert(i != at);
                    assert(!list.take(position as int).contains(i)) by {
                        if list.take(position as int).contains(i) {
                            let j = choose|j: int|
                                0 <= j < position && list.take(position as int)[j] == i;
                            assert(done[j] == i);
                        }
                    }
                    assert(tb[i] == t0[i]);
                }
                assert(memory.agrees_outside(&m0, base, base + 256)) by {
                    assert forall|q: int|
                        !(base <= q < base + 256) && memory.has(q, 1) implies #[trigger] memory.byte_at(
                        q,
                    ) == m0.byte_at(q) by {
                        assert(memory.byte_at(q) == before.byte_at(q));
                    }
                }
                if more {
                    assert(t0[list[position as int]].next == list[position + 1]);
                }
            }
            index = next;
            position += 1;
        }
        self.free_head = index;
        self.free_count = self.free_count - count as u16;
        self.heads[head as usize] = true;
        let ghost m1 = *memory;
        proof {
            lemma_handed_out(t0, table(m1, base), list, q0.chains@, buffers@);
            self.list@ = list.skip(n);
            self.chains@ = q0.chains@.insert(head as int, list.take(n));
            if list.skip(n).len() > 0 {
                assert(t0[list[n - 1]].next == list[n]);
            }
            lemma_ring_kept(m0, m1, base, base, base + 256);
        }
        // The ring holds descriptor ids, and its position wraps with the index.
        // The index itself runs free.
        let available: u16 = memory.read_u16(frame.addr() + AVAIL_OFFSET + 2);
        let place: u64 = (available % QUEUE_SIZE) as u64;
        memory.write_u16(frame.addr() + AVAIL_OFFSET + 4 + place * 2, head);
        let ghost m2 = *memory;
        // The entry comes before the index that publishes it, and that before
        // the device is told.
        fence();
        memory.write_u16(frame.addr() + AVAIL_OFFSET + 2, available.wrapping_add(1));
        fence();
        proof {
            let m3 = *memory;
            let slot = base + 260 + place * 2;
            lemma_table_after(m1, m2, base, slot);
            lemma_table_after(m2, m3, base, base + 258);
            assert(m3.agrees(&m2, slot, slot + 2));
            m3.lemma_agrees_reads(&m2, slot, slot + 2);
            assert forall|i: int| 0 <= i < 16 && i != place implies #[trigger] m3.u16_at(
                base + 260 + i * 2,
            ) == m0.u16_at(base + 260 + i * 2) by {
                let p = base + 260 + i * 2;
                assert(m3.agrees(&m2, p, p + 2));
                m3.lemma_agrees_reads(&m2, p, p + 2);
                assert(m2.agrees(&m1, p, p + 2));
                m2.lemma_agrees_reads(&m1, p, p + 2);
                assert(m1.agrees(&m0, p, p + 2));
                m1.lemma_agrees_reads(&m0, p, p + 2);
            }
            assert(m3.agrees_outside(&m0, base, base + 512)) by {
                assert forall|q: int|
                    !(base <= q < base + 512) && m3.has(q, 1) implies #[trigger] m3.byte_at(q)
                    == m0.byte_at(q) by {
                    assert(m3.byte_at(q) == m2.byte_at(q));
                    assert(m2.byte_at(q) == m1.byte_at(q));
                    assert(m1.byte_at(q) == m0.byte_at(q));
                }
            }
            assert(m3.u16_at(base + 258) == available.wrapping_add(1));
        }
        Ok(head)
    }

    /// Is the device to be believed: has it finished nothing more, or does it
    /// name a request that was made and has not come back?
    pub fn answers(&self, memory: &Memory) -> (r: bool)
        requires
            self.wf(*memory),
        ensures
            r == self.believable(*memory),
    {
        let frame: Frame = self.frame;
        let used: u16 = memory.read_u16(frame.addr() + USED_OFFSET + 2);
        if self.last_used == used {
            return true;
        }
        let place: u64 = (self.last_used % QUEUE_SIZE) as u64;
        let head: u16 = memory.read_u32(frame.addr() + USED_OFFSET + 4 + place * 8) as u16;
        if head >= QUEUE_SIZE {
            assert(!self.chains@.dom().contains(head as int)) by {
                if self.chains@.dom().contains(head as int) {
                    assert(0 <= self.chains@[head as int][0] < 16);
                }
            }
            return false;
        }
        self.heads[head as usize]
    }

    /// Take one finished request, if the device has finished any: the
    /// descriptor that heads it, and how many bytes the device wrote.
    ///
    /// The device has to name a request that was made and has not come back,
    /// which [`Queue::answers`] finds out.
    pub fn take_used(&mut self, memory: &mut Memory) -> (r: Option<(u16, u32)>)
        requires
            old(self).wf(*old(memory)),
            old(self).believable(*old(memory)),
        ensures
            final(self).wf(*final(memory)),
            r is None == (old(self).last_used == old(self).used(*old(memory))),
            match r {
                Some(done) => returned(old(self), old(memory), final(self), final(memory), done),
                None => *final(self) == *old(self) && *final(memory) == *old(memory),
            },
    {
        let frame: Frame = self.frame;
        let used: u16 = memory.read_u16(frame.addr() + USED_OFFSET + 2);
        if self.last_used == used {
            return None;
        }
        // The index comes before the entry it publishes.
        fence();
        let place: u64 = (self.last_used % QUEUE_SIZE) as u64;
        let entry: u64 = frame.addr() + USED_OFFSET + 4 + place * 8;
        let head: u16 = memory.read_u32(entry) as u16;
        let written: u32 = memory.read_u32(entry + 4);
        self.last_used = self.last_used.wrapping_add(1);
        self.recycle(memory, head);
        Some((head, written))
    }

    /// Put a finished chain back on the free list.
    #[verifier::rlimit(30)]
    fn recycle(&mut self, memory: &mut Memory, head: u16)
        requires
            old(self).wf(*old(memory)),
            old(self).chains@.dom().contains(head as int),
        ensures
            final(self).wf(*final(memory)),
            final(self).frame == old(self).frame,
            final(self).last_used == old(self).last_used,
            final(self).list@ == old(self).chains@[head as int] + old(self).list@,
            final(self).chains@ == old(self).chains@.remove(head as int),
            final(memory).agrees_outside(
                old(memory),
                old(self).frame.0 as int,
                old(self).frame.0 + 256,
            ),
            table(*final(memory), old(self).frame.0 as int) == linked(
                table(*old(memory), old(self).frame.0 as int),
                old(self).chains@[head as int],
                old(self).free_head,
            ),
    {
        let frame: Frame = self.frame;
        let ghost base = frame.0 as int;
        let ghost m0 = *memory;
        let ghost t0 = table(m0, base);
        let ghost list = self.list@;
        let ghost chain = self.chains@[head as int];
        let ghost chains = self.chains@;
        let mut index: u16 = head;
        let mut length: u16 = 1;
        proof {
            assert(chained(t0, chain) && chain[0] == head);
            lemma_at_most(chain);
            assert(0 <= chain[0] < 16);
        }
        // The chain ends with the descriptor whose flags no longer say there is
        // another.
        while descriptor_flags(memory, frame, index) & DESC_NEXT != 0
            invariant
                *memory == m0,
                m0.wf(),
                base == frame.0,
                m0.has(base, 4096),
                t0 == table(m0, base),
                chained(t0, chain),
                1 <= length <= chain.len() <= 16,
                index == chain[length - 1],
                0 <= index < 16,
            ensures
                length == chain.len(),
                index == chain.last(),
            decreases chain.len() - length,
        {
            proof {
                assert(continues(t0[chain[length - 1]]) == (length - 1 < chain.len() - 1));
                assert(t0[chain[length - 1]].next == chain[length as int]);
                assert(0 <= chain[length as int] < 16);
            }
            index = descriptor_next(memory, frame, index);
            length += 1;
        }
        proof {
            assert(continues(t0[chain[length - 1]]) == (length - 1 < chain.len() - 1));
        }
        let free_head: u16 = self.free_head;
        write_descriptor_next(memory, frame, index, free_head);
        proof {
            lemma_taken_back(
                t0,
                table(*memory, base),
                list,
                chains,
                head as int,
                free_head,
            );
        }
        self.free_head = head;
        self.free_count = self.free_count + length;
        self.heads[head as usize] = false;
        proof {
            self.list@ = chain + list;
            self.chains@ = chains.remove(head as int);
        }
    }
}

/// Where the index was written, the available ring is untouched.
proof fn lemma_ring_kept(m1: Memory, m2: Memory, base: int, lo: int, hi: int)
    requires
        m2.agrees_outside(&m1, lo, hi),
        m1.has(base, 4096),
        hi <= base + 256,
    ensures
        m2.u16_at(base + 258) == m1.u16_at(base + 258),
{
    assert(m2.agrees(&m1, base + 258, base + 260));
    m2.lemma_agrees_reads(&m1, base + 258, base + 260);
}

/// Writing to the available ring leaves the descriptors alone.
proof fn lemma_table_after(m1: Memory, m2: Memory, base: int, at: int)
    requires
        m2.agrees_outside(&m1, at, at + 2),
        m1.has(base, 4096),
        base + 256 <= at,
    ensures
        table(m2, base) == table(m1, base),
{
    assert(m2.agrees(&m1, base, base + 256));
    lemma_table_kept(m1, m2, base);
}

/// What goes out comes back: once a request has been queued and taken back with
/// nothing in between, the free list is what it was, in the same order.
pub proof fn lemma_round_trip(
    q1: &Queue,
    m1: &Memory,
    buffers: Seq<Buffer>,
    q2: &Queue,
    m2: &Memory,
    head: u16,
    m3: &Memory,
    q4: &Queue,
    m4: &Memory,
    done: (u16, u32),
)
    requires
        q1.wf(*m1),
        0 < buffers.len() <= q1.free_count,
        queued(q1, m1, buffers, q2, m2, head),
        returned(q2, m3, q4, m4, done),
        done.0 == head,
    ensures
        q4.list@ == q1.list@,
        q4.chains@ == q1.chains@,
{
    let n = buffers.len() as int;
    assert(q1.list@.take(n) + q1.list@.skip(n) =~= q1.list@);
    assert(q4.chains@ =~= q1.chains@);
}

/// Nothing the device may write upsets the bookkeeping: it writes the used ring
/// and the buffers it was given, and the lists are elsewhere.
pub proof fn lemma_device_cannot_upset(q: &Queue, m1: &Memory, m2: &Memory)
    requires
        q.wf(*m1),
        m2.wf(),
        m2.has(q.frame.0 as int, 4096),
        m2.agrees(m1, q.frame.0 as int, q.frame.0 + 512),
    ensures
        q.wf(*m2),
        q.available(*m2) == q.available(*m1),
{
    let frame = q.frame.0 as int;
    assert(m2.agrees(m1, frame, frame + 256));
    lemma_table_kept(*m1, *m2, frame);
    m2.lemma_agrees_reads(m1, frame, frame + 512);
}

/// No descriptor is lost or counted twice: every one of them is either free or
/// in exactly one request.
pub proof fn lemma_conserved(q: &Queue, m: &Memory, i: int)
    requires
        q.wf(*m),
        0 <= i < 16,
    ensures
        q.list@.contains(i) != exists|h: int| #[trigger]
            q.chains@.dom().contains(h) && q.chains@[h].contains(i),
        forall|h: int, g: int| #[trigger]
            q.chains@.dom().contains(h) && q.chains@[h].contains(i) && #[trigger]
            q.chains@.dom().contains(g) && q.chains@[g].contains(i) ==> h == g,
        q.free_count <= QUEUE_SIZE,
{
    lemma_at_most(q.list@);
}

/// The descriptor a device gets to in `k` steps from `head`, going by what is in
/// memory alone.
pub open spec fn reached_by(m: Memory, frame: int, head: int, k: int) -> int
    decreases k,
{
    if k <= 0 {
        head
    } else {
        m.u16_at(frame + 16 * reached_by(m, frame, head, k - 1) + 14) as int
    }
}

proof fn lemma_reached_by(m: Memory, frame: int, chain: Seq<int>, k: int)
    requires
        chained(table(m, frame), chain),
        0 <= k < chain.len(),
    ensures
        reached_by(m, frame, chain[0], k) == chain[k],
        0 <= chain[k] < 16,
    decreases k,
{
    if k > 0 {
        lemma_reached_by(m, frame, chain, k - 1);
        let t = table(m, frame);
        assert(t[chain[k - 1]].next == chain[k - 1 + 1]);
        assert(t[chain[k - 1]] == descriptor(m, frame, chain[k - 1]));
    }
}

/// A device that looks at a request that was queued finds it at the next place
/// of the ring, and from its head on finds the buffers, each in its turn: where
/// it is, how long it is, whether it is for writing, and that there is another
/// one unless it is the last.
pub proof fn lemma_device_finds_the_buffers(
    q: &mut Queue,
    m: &mut Memory,
    buffers: &[Buffer],
    head: u16,
    k: int,
    i: int,
)
    requires
        old(q).wf(*old(m)),
        call_ensures(Queue::add, (q, m, buffers), Ok(head)),
        0 <= k < buffers@.len(),
        0 <= i < 16,
    ensures
        ({
            let frame = old(q).frame.0 as int;
            let made = old(m).u16_at(frame + 258);
            let d = reached_by(*final(m), frame, head as int, k);
            let flags = final(m).u16_at(frame + 16 * d + 12);
            &&& 0 <= d < 16
            &&& final(m).u64_at(frame + 16 * d) == buffers@[k].pa
            &&& final(m).u32_at(frame + 16 * d + 8) == buffers@[k].len
            &&& flags == (if k + 1 < buffers@.len() {
                1int
            } else {
                0
            }) + (if buffers@[k].device_writes {
                2int
            } else {
                0
            })
            &&& final(m).u16_at(frame + 258) == (made + 1) % 0x1_0000
            &&& final(m).u16_at(frame + 260 + made as int % 16 * 2) == head
            &&& i != made as int % 16 ==> final(m).u16_at(frame + 260 + i * 2) == old(m).u16_at(
                frame + 260 + i * 2,
            )
            &&& final(q).frame == old(q).frame
        }),
{
    let frame = old(q).frame.0 as int;
    let n = buffers@.len() as int;
    let chain = old(q).list@.take(n);
    assert(final(q).chains@.dom().contains(head as int));
    assert(final(q).chains@[head as int] == chain);
    lemma_reached_by(*final(m), frame, chain, k);
    let t = table(*final(m), frame);
    assert(t[old(q).list@[k]] == filled(
        buffers@[k],
        table(*old(m), frame)[old(q).list@[k]].next,
        k < n - 1,
    ));
    assert(t[chain[k]] == descriptor(*final(m), frame, chain[k]));
}

/// Queueing a request leaves the ones before it alone: a device finds in them
/// what it found before.
pub proof fn lemma_earlier_requests_are_kept(
    q: &mut Queue,
    m: &mut Memory,
    buffers: &[Buffer],
    r: Result<u16, Error>,
    other: int,
    k: int,
)
    requires
        old(q).wf(*old(m)),
        call_ensures(Queue::add, (q, m, buffers), r),
        0 <= other < 16,
        old(q).heads@[other],
        0 <= k < old(q).chains@[other].len(),
    ensures
        ({
            let frame = old(q).frame.0 as int;
            let d = reached_by(*old(m), frame, other, k);
            &&& reached_by(*final(m), frame, other, k) == d
            &&& final(m).u64_at(frame + 16 * d) == old(m).u64_at(frame + 16 * d)
            &&& final(m).u32_at(frame + 16 * d + 8) == old(m).u32_at(frame + 16 * d + 8)
            &&& final(m).u16_at(frame + 16 * d + 12) == old(m).u16_at(frame + 16 * d + 12)
        }),
        final(q).heads@[other],
        r is Ok ==> r->Ok_0 != other,
{
    let frame = old(q).frame.0 as int;
    let chain = old(q).chains@[other];
    assert(old(q).chains@.dom().contains(other));
    assert(chained(table(*old(m), frame), chain) && chain[0] == other);
    lemma_reached_by(*old(m), frame, chain, k);
    if r is Ok {
        let n = buffers@.len() as int;
        assert(final(q).chains@.dom().contains(other));
        assert(final(q).chains@[other] == chain);
        lemma_reached_by(*final(m), frame, chain, k);
        let d = chain[k];
        assert(chain.contains(d));
        assert(!old(q).list@.contains(d));
        let taken = old(q).list@.take(n);
        assert(!taken.contains(d)) by {
            if taken.contains(d) {
                let j = choose|j: int| 0 <= j < taken.len() && taken[j] == d;
                assert(old(q).list@[j] == d);
            }
        }
        assert(table(*final(m), frame)[d] == table(*old(m), frame)[d]);
        assert(table(*final(m), frame)[d] == descriptor(*final(m), frame, d));
        assert(table(*old(m), frame)[d] == descriptor(*old(m), frame, d));
    }
}

/// A request is refused only if it is empty or there are too few descriptors
/// for it, and nothing has happened then; otherwise it takes one descriptor for
/// each buffer, and its head is one that was free.
pub proof fn lemma_request_takes_its_descriptors(
    q: &mut Queue,
    m: &mut Memory,
    buffers: &[Buffer],
    r: Result<u16, Error>,
    before: u16,
    after: u16,
)
    requires
        old(q).wf(*old(m)),
        call_ensures(Queue::free, (&*old(q),), before),
        call_ensures(Queue::add, (q, m, buffers), r),
        call_ensures(Queue::free, (&*final(q),), after),
    ensures
        buffers@.len() == 0 ==> r == Err::<u16, Error>(Error::Empty),
        buffers@.len() > before ==> r == Err::<u16, Error>(Error::Full),
        0 < buffers@.len() <= before ==> r is Ok,
        r is Err ==> *final(q) == *old(q) && *final(m) == *old(m),
        r is Ok ==> {
            &&& after == before - buffers@.len()
            &&& r->Ok_0 < 16
            &&& !old(q).heads@[r->Ok_0 as int]
            &&& final(q).heads@[r->Ok_0 as int]
            &&& final(q).last_used == old(q).last_used
        },
        before <= 16,
{
    lemma_at_most(old(q).list@);
    if r is Ok {
        let head = r->Ok_0 as int;
        assert(final(q).chains@.dom().contains(head));
        assert(chained(table(*final(m), final(q).frame.0 as int), final(q).chains@[head]));
        assert(0 <= final(q).chains@[head][0] < 16);
    }
}

/// A finished request is the one the device names at the next place of its
/// ring, with the length it gives, and there is none exactly if the device has
/// finished no more than was taken.
pub proof fn lemma_finished_is_what_the_device_says(
    q: &mut Queue,
    m: &mut Memory,
    sane: bool,
    r: Option<(u16, u32)>,
)
    requires
        old(q).wf(*old(m)),
        call_ensures(Queue::answers, (&*old(q), &*old(m)), sane),
        sane,
        call_ensures(Queue::take_used, (q, m), r),
    ensures
        ({
            let frame = old(q).frame.0 as int;
            let place = frame + 516 + old(q).last_used as int % 16 * 8;
            &&& r is None <==> old(m).u16_at(frame + 514) == old(q).last_used
            &&& r is None ==> *final(q) == *old(q) && *final(m) == *old(m)
            &&& r is Some ==> {
                &&& (r->0).0 == old(m).u32_at(place) as u16
                &&& (r->0).1 == old(m).u32_at(place + 4)
                &&& final(q).last_used == (old(q).last_used + 1) % 0x1_0000
                &&& final(q).frame == old(q).frame
                &&& (r->0).0 < 16
                &&& old(q).heads@[(r->0).0 as int]
                &&& !final(q).heads@[(r->0).0 as int]
                &&& final(q).free_head == (r->0).0
                &&& final(q).free_count > old(q).free_count
            }
        }),
{
    if r is Some {
        let head = (r->0).0 as int;
        assert(old(q).chains@.dom().contains(head));
        assert(chained(table(*old(m), old(q).frame.0 as int), old(q).chains@[head]));
        assert(0 <= old(q).chains@[head][0] < 16);
    }
}

/// A device is believed exactly if it has finished no more than was taken, or
/// names the head of a request that has not come back.
pub proof fn lemma_device_is_doubted(q: Queue, m: Memory, r: bool)
    requires
        q.wf(m),
        call_ensures(Queue::answers, (&q, &m), r),
    ensures
        ({
            let frame = q.frame.0 as int;
            let named = m.u32_at(frame + 516 + q.last_used as int % 16 * 8) as u16;
            r <==> m.u16_at(frame + 514) == q.last_used || named < 16 && q.heads@[named as int]
        }),
{
    let named = m.u32_at(q.frame.0 + 516 + q.last_used as int % 16 * 8) as u16 as int;
    if q.chains@.dom().contains(named) {
        assert(chained(table(m, q.frame.0 as int), q.chains@[named]));
        assert(0 <= q.chains@[named][0] < 16);
    }
}

/// Descriptors come back: once a request has been taken back there are as many
/// free as before it was queued, and the next request gets the same head.
pub proof fn lemma_descriptors_come_back(
    q: &mut Queue,
    m: &mut Memory,
    buffers: &[Buffer],
    head: u16,
    q2: &mut Queue,
    m2: &mut Memory,
    written: u32,
    q3: &mut Queue,
    m3: &mut Memory,
    others: &[Buffer],
    next: u16,
)
    requires
        old(q).wf(*old(m)),
        call_ensures(Queue::add, (q, m, buffers), Ok(head)),
        *old(q2) == *final(q),
        call_ensures(Queue::take_used, (q2, m2), Some((head, written))),
        *old(q3) == *final(q2),
        call_ensures(Queue::add, (q3, m3, others), Ok(next)),
    ensures
        final(q2).free_count == old(q).free_count,
        next == head,
{
    lemma_round_trip(
        old(q),
        old(m),
        buffers@,
        final(q),
        final(m),
        head,
        old(m2),
        final(q2),
        final(m2),
        (head, written),
    );
}

/// A queue is built if the device lets it be large enough and there is a frame
/// for it. All of it is free then, and the device is told its size, where its
/// three parts are, and last of all that it is ready.
pub proof fn lemma_new_queue_is_empty(
    a: &mut Allocator,
    m: &mut Memory,
    max: u32,
    r: Result<(Queue, Vec<Write>), Error>,
    free: u16,
    i: int,
)
    requires
        old(a).wf(),
        call_ensures(Queue::new, (a, m, max), r),
        r is Ok ==> call_ensures(Queue::free, (&(r->Ok_0).0,), free),
        0 <= i < 16,
    ensures
        max < 16 ==> r is Err && r->Err_0 == Error::TooSmall(max),
        max >= 16 && old(a).free_count() == 0 ==> r is Err && r->Err_0 == Error::NoMemory,
        max >= 16 && old(a).free_count() > 0 ==> r is Ok,
        r is Err ==> *final(a) == *old(a) && *final(m) == *old(m),
        r is Ok ==> ({
            let (queue, writes) = r->Ok_0;
            let pa = queue.frame.0 as int;
            &&& free == 16
            &&& !queue.heads@[i]
            &&& final(m).u16_at(pa + 258) == 0 && final(m).u16_at(pa + 514) == 0
            &&& queue.last_used == 0
            &&& !old(a).taken().contains(pa) && final(a).taken().contains(pa)
            &&& writes@.len() == 8
            &&& writes@[0] == (Write { offset: 0x38, value: 16 })
            &&& writes@[1].offset == 0x80 && writes@[2].offset == 0x84
            &&& writes@[1].value + 0x1_0000_0000 * writes@[2].value == pa
            &&& writes@[3].offset == 0x90 && writes@[4].offset == 0x94
            &&& writes@[3].value + 0x1_0000_0000 * writes@[4].value == pa + 256
            &&& writes@[5].offset == 0xa0 && writes@[6].offset == 0xa4
            &&& writes@[5].value + 0x1_0000_0000 * writes@[6].value == pa + 512
            &&& writes@[7] == (Write { offset: 0x44, value: 1 })
        }),
{
    if r is Ok {
        let (queue, writes) = r->Ok_0;
        let pa = queue.frame.0 as int;
        assert(queue.wf(*final(m)));
        assert(final(m).has(pa, 4096));
        assert(queue.heads@[i] == queue.chains@.dom().contains(i));
        assert(pa + 4096 <= u64::MAX + 1);
        assert(pa + 512 < 0x1_0000_0000_0000_0000);
    }
}

/// A queue is picked, woken and stopped by its number; stopping picks it first.
pub proof fn lemma_queue_is_named(index: u32, pick: Write, wake: Write, stop: (Write, Write))
    requires
        call_ensures(Queue::select, (index,), pick),
        call_ensures(Queue::notify, (index,), wake),
        call_ensures(Queue::stop, (index,), stop),
    ensures
        pick == (Write { offset: 0x30, value: index }),
        wake == (Write { offset: 0x50, value: index }),
        stop.0 == pick,
        stop.1 == (Write { offset: 0x44, value: 0 }),
{
}

/// Releasing a queue gives its frame back, and nothing else.
pub proof fn lemma_released_queue_gives_its_frame_back(q: Queue, a: &mut Allocator, p: int)
    requires
        old(a).wf(),
        old(a).taken().contains(q.frame.0 as int),
        call_ensures(Queue::release, (q, a), ()),
    ensures
        !final(a).taken().contains(q.frame.0 as int),
        p != q.frame.0 ==> final(a).taken().contains(p) == old(a).taken().contains(p),
        final(a).free_count() == old(a).free_count() + 1,
{
}

} // verus!
